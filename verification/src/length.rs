use vstd::prelude::*;

verus! {

/// The number of distinct `u32` values; arithmetic on positions wraps modulo this.
pub open spec fn u32_modulus() -> int {
    0x1_0000_0000
}

/// `a + b` on `u32`, wrapping around.
pub open spec fn wadd(a: u32, b: u32) -> u32 {
    if a + b >= u32_modulus() {
        (a + b - u32_modulus()) as u32
    } else {
        (a + b) as u32
    }
}

/// `a - b` on `u32`, wrapping around.
pub open spec fn wsub(a: u32, b: u32) -> u32 {
    if a >= b {
        (a - b) as u32
    } else {
        (a - b + u32_modulus()) as u32
    }
}

pub fn u32_wrapping_add(a: u32, b: u32) -> (r: u32)
    ensures
        r == wadd(a, b),
{
    a.wrapping_add(b)
}

pub fn u32_wrapping_sub(a: u32, b: u32) -> (r: u32)
    ensures
        r == wsub(a, b),
{
    a.wrapping_sub(b)
}

/// A position in a text document, as a zero-based row and column.
#[derive(Copy, Clone, Debug, PartialEq, Eq, Structural)]
pub struct TSPoint {
    pub row: u32,
    pub column: u32,
}

/// An extent of text: a number of bytes and the rows and columns they span.
#[derive(Copy, Clone, Debug, PartialEq, Eq, Structural)]
pub struct Length {
    pub bytes: u32,
    pub extent: TSPoint,
}

/// A range of a document, by points and by bytes.
#[derive(Copy, Clone, Debug, PartialEq, Eq, Structural)]
pub struct TSRange {
    pub start_point: TSPoint,
    pub end_point: TSPoint,
    pub start_byte: u32,
    pub end_byte: u32,
}

/// The description of an edit of a document: where it starts, where the
/// replaced text ended, and where the new text ends.
#[derive(Copy, Clone, Debug, PartialEq, Eq, Structural)]
pub struct TSInputEdit {
    pub start_byte: u32,
    pub old_end_byte: u32,
    pub new_end_byte: u32,
    pub start_point: TSPoint,
    pub old_end_point: TSPoint,
    pub new_end_point: TSPoint,
}

/// Moving forward by `b` from `a`: a later row resets the column.
pub open spec fn spec_point_add(a: TSPoint, b: TSPoint) -> TSPoint {
    if b.row > 0 {
        TSPoint { row: wadd(a.row, b.row), column: b.column }
    } else {
        TSPoint { row: a.row, column: wadd(a.column, b.column) }
    }
}

/// The distance from `b` forward to `a`.
pub open spec fn spec_point_sub(a: TSPoint, b: TSPoint) -> TSPoint {
    if a.row > b.row {
        TSPoint { row: wsub(a.row, b.row), column: a.column }
    } else {
        TSPoint { row: 0, column: wsub(a.column, b.column) }
    }
}

/// Points ordered by row, then by column.
pub open spec fn spec_point_lt(a: TSPoint, b: TSPoint) -> bool {
    a.row < b.row || (a.row == b.row && a.column < b.column)
}

pub open spec fn spec_point_lte(a: TSPoint, b: TSPoint) -> bool {
    a.row < b.row || (a.row == b.row && a.column <= b.column)
}

pub open spec fn spec_length_zero() -> Length {
    Length { bytes: 0, extent: TSPoint { row: 0, column: 0 } }
}

pub open spec fn spec_length_add(a: Length, b: Length) -> Length {
    Length { bytes: wadd(a.bytes, b.bytes), extent: spec_point_add(a.extent, b.extent) }
}

pub open spec fn spec_length_sub(a: Length, b: Length) -> Length {
    Length { bytes: wsub(a.bytes, b.bytes), extent: spec_point_sub(a.extent, b.extent) }
}

/// Builds a point from a row and a column.
pub fn point__new(row: u32, column: u32) -> (p: TSPoint)
    ensures
        p.row == row,
        p.column == column,
{
    TSPoint { row, column }
}

/// The point reached by moving forward by `b` from `a`.
pub fn point_add(a: TSPoint, b: TSPoint) -> (p: TSPoint)
    ensures
        p == spec_point_add(a, b),
{
    if b.row > 0 {
        point__new(u32_wrapping_add(a.row, b.row), b.column)
    } else {
        point__new(a.row, u32_wrapping_add(a.column, b.column))
    }
}

/// The extent from `b` forward to `a`.
pub fn point_sub(a: TSPoint, b: TSPoint) -> (p: TSPoint)
    ensures
        p == spec_point_sub(a, b),
{
    if a.row > b.row {
        point__new(u32_wrapping_sub(a.row, b.row), a.column)
    } else {
        point__new(0, u32_wrapping_sub(a.column, b.column))
    }
}

/// Whether `a` comes strictly before `b`.
pub fn point_lt(a: TSPoint, b: TSPoint) -> (r: bool)
    ensures
        r == spec_point_lt(a, b),
{
    a.row < b.row || (a.row == b.row && a.column < b.column)
}

/// Whether `a` comes before `b` or equals it.
pub fn point_lte(a: TSPoint, b: TSPoint) -> (r: bool)
    ensures
        r == spec_point_lte(a, b),
{
    a.row < b.row || (a.row == b.row && a.column <= b.column)
}

/// The empty extent.
pub fn length_zero() -> (l: Length)
    ensures
        l == spec_length_zero(),
{
    Length { bytes: 0, extent: TSPoint { row: 0, column: 0 } }
}

/// Concatenation of two extents.
pub fn length_add(len1: Length, len2: Length) -> (l: Length)
    ensures
        l == spec_length_add(len1, len2),
{
    Length { bytes: u32_wrapping_add(len1.bytes, len2.bytes), extent: point_add(len1.extent, len2.extent) }
}

/// The extent that remains of `len1` after its prefix `len2`.
pub fn length_sub(len1: Length, len2: Length) -> (l: Length)
    ensures
        l == spec_length_sub(len1, len2),
{
    Length { bytes: u32_wrapping_sub(len1.bytes, len2.bytes), extent: point_sub(len1.extent, len2.extent) }
}

/// The extent with fewer bytes (the second one on a tie).
pub fn length_min(len1: Length, len2: Length) -> (l: Length)
    ensures
        l == (if len1.bytes < len2.bytes { len1 } else { len2 }),
{
    if len1.bytes < len2.bytes {
        len1
    } else {
        len2
    }
}

/// The marker for an unknown extent is zero bytes spanning a nonzero column count.
pub fn length_is_undefined(length: Length) -> (r: bool)
    ensures
        r == (length.bytes == 0 && length.extent.column != 0),
{
    length.bytes == 0 && length.extent.column != 0
}

/// Moving forward by `b` from `a` and then measuring back to `a` gives `b`,
/// as long as the row count does not wrap around.
pub proof fn lemma_point_sub_add(a: TSPoint, b: TSPoint)
    requires
        a.row + b.row <= u32::MAX,
    ensures
        spec_point_sub(spec_point_add(a, b), a) == b,
{
    if b.row == 0 {
        assert(wsub(wadd(a.column, b.column), a.column) == b.column);
    }
}

/// Measuring a length back from its concatenation gives the second part.
pub proof fn lemma_length_sub_add(a: Length, b: Length)
    requires
        a.extent.row + b.extent.row <= u32::MAX,
    ensures
        spec_length_sub(spec_length_add(a, b), a) == b,
{
    lemma_point_sub_add(a.extent, b.extent);
    assert(wsub(wadd(a.bytes, b.bytes), a.bytes) == b.bytes);
}

/// The empty extent is a neutral element on both sides.
pub proof fn lemma_length_zero_identity(a: Length)
    ensures
        spec_length_add(spec_length_zero(), a) == a,
        spec_length_add(a, spec_length_zero()) == a,
{
}

/// Concatenation of extents is associative when no row count wraps around.
pub proof fn lemma_length_add_assoc(a: Length, b: Length, c: Length)
    requires
        a.extent.row + b.extent.row + c.extent.row <= u32::MAX,
    ensures
        spec_length_add(spec_length_add(a, b), c) == spec_length_add(a, spec_length_add(b, c)),
{
    assert(wadd(wadd(a.bytes, b.bytes), c.bytes) == wadd(a.bytes, wadd(b.bytes, c.bytes)));
    assert(wadd(wadd(a.extent.column, b.extent.column), c.extent.column) == wadd(
        a.extent.column,
        wadd(b.extent.column, c.extent.column),
    ));
}

/// `point_lt` is a strict total order, and `point_lte` is its reflexive closure.
pub proof fn lemma_point_order(a: TSPoint, b: TSPoint, c: TSPoint)
    ensures
        !spec_point_lt(a, a),
        spec_point_lt(a, b) && spec_point_lt(b, c) ==> spec_point_lt(a, c),
        spec_point_lt(a, b) || spec_point_lt(b, a) || a == b,
        spec_point_lte(a, b) <==> (spec_point_lt(a, b) || a == b),
        spec_point_lte(a, b) <==> !spec_point_lt(b, a),
{
}

} // verus!
