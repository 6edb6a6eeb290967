use vstd::prelude::*;

use crate::array::VoidArray;
use crate::language::{spec_strn_eq, TSLanguage};
use crate::unicode::{spec_decode_utf8, ts_decode_utf8};

verus! {

/// The id that stands for no capture and no capture list.
pub const NONE: u16 = 65535;

/// The depth that marks the end of a pattern's steps.
pub const PATTERN_DONE_MARKER: u8 = 255;

/// The symbol of a wildcard step.
pub const WILDCARD_SYMBOL: u16 = 0;

/// The symbol of a named wildcard step.
pub const NAMED_WILDCARD_SYMBOL: u16 = 65534;

/// The number of capture lists, and of states a query cursor keeps.
pub const MAX_STATE_COUNT: u16 = 32;

/// The error that ends the children of a parenthesized pattern.
pub const PARENT_DONE: u32 = 4294967295;

pub const TSQueryErrorNone: u32 = 0;
pub const TSQueryErrorSyntax: u32 = 1;
pub const TSQueryErrorNodeType: u32 = 2;
pub const TSQueryErrorField: u32 = 3;
pub const TSQueryErrorCapture: u32 = 4;

// ---------------------------------------------------------------------------
// Character classes of the query language, as the C locale has them.
// ---------------------------------------------------------------------------

/// Whitespace: space, and tab through carriage return. This is what the C
/// library's `iswspace` answers in the C locale; other locales may count
/// more code points as space, and the query language is read as in the C
/// locale here.
pub open spec fn spec_is_space(c: i32) -> bool {
    c == 32 || (9 <= c <= 13)
}

/// Letters and digits of ASCII: what the C library's `iswalnum` answers in
/// the C locale (other locales add letters and digits beyond ASCII).
pub open spec fn spec_is_alnum(c: i32) -> bool {
    (48 <= c <= 57) || (65 <= c <= 90) || (97 <= c <= 122)
}

fn is_space(c: i32) -> (r: bool)
    ensures
        r == spec_is_space(c),
{
    c == 32 || (9 <= c && c <= 13)
}

fn is_alnum(c: i32) -> (r: bool)
    ensures
        r == spec_is_alnum(c),
{
    (48 <= c && c <= 57) || (65 <= c && c <= 90) || (97 <= c && c <= 122)
}

// ---------------------------------------------------------------------------
// Stream: the query source, one code point at a time.
// ---------------------------------------------------------------------------

/// A reader of the query source: `input` is where the current code point
/// `next` starts, `next_size` its length in bytes (0 at the end, where `next`
/// is 0).
pub struct Stream<'a> {
    pub source: &'a [u8],
    pub input: usize,
    pub next: i32,
    pub next_size: u8,
}

/// A stream's state: where its code point starts, the code point, its size.
pub struct StreamView {
    pub input: int,
    pub next: i32,
    pub next_size: int,
}

pub open spec fn stream_view(s: Stream) -> StreamView {
    StreamView { input: s.input as int, next: s.next, next_size: s.next_size as int }
}

/// A stream is consistent: it is within its source, and it has a code point
/// exactly when it is not at the end.
pub open spec fn stream_wf(s: Stream) -> bool {
    &&& s.source@.len() <= u32::MAX
    &&& s.input <= s.source@.len()
    &&& s.input + s.next_size <= s.source@.len()
    &&& (s.next_size == 0 <==> s.input == s.source@.len())
    &&& s.next_size <= 4
    &&& (s.next_size == 0 ==> s.next == 0)
}

/// What moving a stream on needs: the source's length fits in `u32`, and the
/// current code point lies within it.
pub open spec fn stream_pre(s: Stream) -> bool {
    &&& s.source@.len() <= u32::MAX
    &&& s.input + s.next_size <= s.source@.len()
}

/// The state after moving past the current code point: the next one decoded,
/// or the end.
pub open spec fn spec_stream_advance(source: Seq<u8>, v: StreamView) -> StreamView {
    let input = v.input + v.next_size;
    if input < source.len() {
        let (size, c) = spec_decode_utf8(source.subrange(input, source.len() as int), (source.len() - input) as u32);
        StreamView { input, next: c, next_size: size as int }
    } else {
        StreamView { input, next: 0, next_size: 0 }
    }
}

/// Moving on reaches past the current code point, with a size of zero or more.
pub proof fn lemma_advance_size(source: Seq<u8>, v: StreamView)
    ensures
        spec_stream_advance(source, v).input == v.input + v.next_size,
        spec_stream_advance(source, v).next_size >= 0,
{
}

/// Moving on from a consistent state gives a consistent state.
pub proof fn lemma_advance_wf(source: Seq<u8>, v: StreamView)
    requires
        view_wf(source, v),
        source.len() <= u32::MAX,
    ensures
        view_wf(source, spec_stream_advance(source, v)),
{
    let input = v.input + v.next_size;
    if input < source.len() {
        crate::unicode::lemma_decode_size(
            source.subrange(input, source.len() as int),
            (source.len() - input) as u32,
        );
    }
}

/// Moves a stream past its current code point (see `spec_stream_advance`);
/// `false` at the end.
pub fn stream_advance(self_0: &mut Stream) -> (r: bool)
    requires
        stream_pre(*old(self_0)),
    ensures
        stream_wf(*final(self_0)),
        stream_view(*final(self_0)) == spec_stream_advance(old(self_0).source@, stream_view(*old(self_0))),
        final(self_0).source == old(self_0).source,
        r == (stream_view(*final(self_0)).next_size > 0),
{
    self_0.input = self_0.input + self_0.next_size as usize;
    if self_0.input < self_0.source.len() {
        let rest = vstd::slice::slice_subrange(self_0.source, self_0.input, self_0.source.len());
        let mut c: i32 = 0;
        let size = ts_decode_utf8(rest, (self_0.source.len() - self_0.input) as u32, &mut c);
        self_0.next = c;
        self_0.next_size = size as u8;
        true
    } else {
        self_0.next_size = 0;
        self_0.next = 0;
        false
    }
}

/// Moves a stream to `input` and reads the code point there.
pub fn stream_reset(self_0: &mut Stream, input: usize)
    requires
        stream_wf(*old(self_0)),
        input <= old(self_0).source@.len(),
    ensures
        stream_wf(*final(self_0)),
        stream_view(*final(self_0)) == spec_stream_advance(
            old(self_0).source@,
            StreamView { input: input as int, next: old(self_0).next, next_size: 0 },
        ),
        final(self_0).source == old(self_0).source,
{
    self_0.input = input;
    self_0.next_size = 0;
    stream_advance(self_0);
}

/// A stream at the start of `string[..length]`.
pub fn stream_new<'a>(string: &'a [u8], length: u32) -> (s: Stream<'a>)
    requires
        length <= string@.len(),
    ensures
        stream_wf(s),
        s.source@ == string@.subrange(0, length as int),
        stream_view(s) == spec_stream_advance(s.source@, StreamView { input: 0, next: 0, next_size: 0 }),
{
    let source = vstd::slice::slice_subrange(string, 0, length as usize);
    let mut s = Stream { source, input: 0, next: 0, next_size: 0 };
    stream_advance(&mut s);
    s
}

/// Whether a code point can start an identifier.
pub open spec fn spec_is_ident_start(c: i32) -> bool {
    spec_is_alnum(c) || c == 95 || c == 45
}

/// Whether a code point can continue an identifier.
pub open spec fn spec_is_ident_char(c: i32) -> bool {
    spec_is_alnum(c) || c == 95 || c == 45 || c == 46 || c == 63 || c == 33
}

pub fn stream_is_ident_start(stream: &Stream) -> (r: bool)
    ensures
        r == spec_is_ident_start(stream.next),
{
    is_alnum(stream.next) || stream.next == 95 || stream.next == 45
}

/// Whether a stream state is consistent with its source (see `stream_wf`).
pub open spec fn view_wf(source: Seq<u8>, v: StreamView) -> bool {
    &&& 0 <= v.input <= source.len()
    &&& 0 <= v.next_size
    &&& v.input + v.next_size <= source.len()
    &&& (v.next_size == 0 <==> v.input == source.len())
    &&& (v.next_size == 0 ==> v.next == 0)
}

/// Skipping whitespace and comments (from `;` to the end of the line);
/// `in_comment` while inside a comment.
pub open spec fn spec_skip(source: Seq<u8>, v: StreamView, in_comment: bool) -> StreamView
    decreases 2 * (source.len() - v.input) + if in_comment {
        1int
    } else {
        0int
    },
{
    if !view_wf(source, v) {
        v
    } else if in_comment {
        if v.next != 0 && v.next != 10 && v.next_size > 0 {
            let a = spec_stream_advance(source, v);
            spec_skip(source, a, a.next_size > 0)
        } else {
            spec_skip(source, v, false)
        }
    } else if v.next_size > 0 && spec_is_space(v.next) {
        spec_skip(source, spec_stream_advance(source, v), false)
    } else if v.next_size > 0 && v.next == 59 {
        spec_skip(source, spec_stream_advance(source, v), true)
    } else {
        v
    }
}

/// Skipping never moves a stream back.
pub proof fn lemma_skip_progress(source: Seq<u8>, v: StreamView, in_comment: bool)
    requires
        v.next_size >= 0,
    ensures
        spec_skip(source, v, in_comment).input >= v.input,
        spec_skip(source, v, in_comment).next_size >= 0,
        view_wf(source, v) && source.len() <= u32::MAX ==> view_wf(source, spec_skip(source, v, in_comment)),
    decreases 2 * (source.len() - v.input) + if in_comment {
        1int
    } else {
        0int
    },
{
    if view_wf(source, v) && source.len() <= u32::MAX {
        lemma_advance_wf(source, v);
    }
    if !view_wf(source, v) {
    } else if in_comment {
        if v.next != 0 && v.next != 10 && v.next_size > 0 {
            let a = spec_stream_advance(source, v);
            lemma_skip_progress(source, a, a.next_size > 0);
        } else {
            lemma_skip_progress(source, v, false);
        }
    } else if v.next_size > 0 && spec_is_space(v.next) {
        lemma_skip_progress(source, spec_stream_advance(source, v), false);
    } else if v.next_size > 0 && v.next == 59 {
        lemma_skip_progress(source, spec_stream_advance(source, v), true);
    }
}

/// Skips whitespace and comments (see `spec_skip`).
pub fn stream_skip_whitespace(stream: &mut Stream)
    requires
        stream_wf(*old(stream)),
    ensures
        stream_wf(*final(stream)),
        stream_view(*final(stream)) == spec_skip(old(stream).source@, stream_view(*old(stream)), false),
        final(stream).source == old(stream).source,
        final(stream).input >= old(stream).input,
{
    let ghost source = stream.source@;
    let ghost target = spec_skip(source, stream_view(*stream), false);
    proof {
        lemma_skip_progress(source, stream_view(*stream), false);
    }
    let mut in_comment = false;
    loop
        invariant
            stream_wf(*stream),
            stream.source@ == source,
            stream.source == old(stream).source,
            target == spec_skip(source, stream_view(*stream), in_comment),
        ensures
            stream_wf(*stream),
            stream.source == old(stream).source,
            stream_view(*stream) == target,
        decreases 2 * (source.len() - stream.input) + if in_comment {
            1int
        } else {
            0int
        },
    {
        if in_comment {
            if stream.next != 0 && stream.next != 10 && stream.next_size > 0 {
                stream_advance(stream);
                in_comment = stream.next_size > 0;
            } else {
                in_comment = false;
            }
        } else if stream.next_size > 0 && is_space(stream.next) {
            stream_advance(stream);
        } else if stream.next_size > 0 && stream.next == 59 {
            stream_advance(stream);
            in_comment = true;
        } else {
            break;
        }
    }
}

/// Reading the rest of an identifier: moving on while the next code point
/// can continue it.
pub open spec fn spec_scan_identifier(source: Seq<u8>, v: StreamView) -> StreamView
    decreases source.len() - v.input,
{
    if !view_wf(source, v) || v.next_size == 0 {
        spec_stream_advance(source, v)
    } else {
        let a = spec_stream_advance(source, v);
        if a.next_size > 0 && spec_is_ident_char(a.next) {
            spec_scan_identifier(source, a)
        } else {
            a
        }
    }
}

/// Reading an identifier moves a stream at least past its current code point.
pub proof fn lemma_scan_progress(source: Seq<u8>, v: StreamView)
    requires
        v.next_size >= 0,
    ensures
        spec_scan_identifier(source, v).input >= v.input + v.next_size,
        spec_scan_identifier(source, v).next_size >= 0,
        view_wf(source, v) && source.len() <= u32::MAX ==> view_wf(source, spec_scan_identifier(source, v)),
    decreases source.len() - v.input,
{
    if view_wf(source, v) && source.len() <= u32::MAX {
        lemma_advance_wf(source, v);
    }
    if !view_wf(source, v) || v.next_size == 0 {
    } else {
        let a = spec_stream_advance(source, v);
        if a.next_size > 0 && spec_is_ident_char(a.next) {
            lemma_scan_progress(source, a);
        }
    }
}

/// Moves past the identifier that starts at the current code point.
pub fn stream_scan_identifier(stream: &mut Stream)
    requires
        stream_wf(*old(stream)),
    ensures
        stream_wf(*final(stream)),
        stream_view(*final(stream)) == spec_scan_identifier(old(stream).source@, stream_view(*old(stream))),
        final(stream).source == old(stream).source,
        final(stream).input >= old(stream).input + old(stream).next_size,
{
    let ghost source = stream.source@;
    let ghost target = spec_scan_identifier(source, stream_view(*stream));
    proof {
        lemma_scan_progress(source, stream_view(*stream));
    }
    loop
        invariant_except_break
            target == spec_scan_identifier(source, stream_view(*stream)),
        invariant
            stream_wf(*stream),
            stream.source@ == source,
            stream.source == old(stream).source,
        ensures
            stream_wf(*stream),
            stream.source == old(stream).source,
            stream_view(*stream) == target,
        decreases source.len() - stream.input,
    {
        let at_end = stream.next_size == 0;
        stream_advance(stream);
        if at_end || !(stream.next_size > 0 && (is_alnum(stream.next) || stream.next == 95
            || stream.next == 45 || stream.next == 46 || stream.next == 63 || stream.next == 33)) {
            break;
        }
    }
}

// ---------------------------------------------------------------------------
// Capture lists: a bitmask of the free lists among `MAX_STATE_COUNT`.
// ---------------------------------------------------------------------------

/// The number of zero bits above the highest one bit: 32 for 0.
pub fn count_leading_zeros(x: u32) -> (r: u32)
    ensures
        r == x.leading_zeros(),
        r <= 32,
        (r == 32) == (x == 0),
{
    proof {
        vstd::std_specs::bits::axiom_u32_leading_zeros(x);
    }
    if x == 0 {
        return 32;
    }
    x.leading_zeros()
}

/// The bit of id `id` in a usage map: id 0 is the highest-order bit.
pub open spec fn spec_bitmask_for_index(id: u16) -> u32 {
    (1u32 << ((31 - id) as u32)) as u32
}

pub fn bitmask_for_index(id: u16) -> (r: u32)
    requires
        id < 32,
    ensures
        r == spec_bitmask_for_index(id),
{
    1u32 << (31 - id) as u32
}

/// Whether list `id` is free in a usage map: its bit is one.
pub open spec fn is_free(map: u32, id: u16) -> bool {
    (map >> ((31 - id) as u32)) & 1u32 != 0u32
}

/// A pool of capture lists: `MAX_STATE_COUNT` lists in `list`, and a
/// bitmask of the free ones.
pub struct CaptureListPool<T> {
    pub list: Vec<Vec<T>>,
    pub usage_map: u32,
}

/// A pool with every list free and no lists yet.
pub fn capture_list_pool_new<T>() -> (p: CaptureListPool<T>)
    ensures
        p.usage_map == u32::MAX,
        p.list@.len() == 0,
{
    CaptureListPool { list: Vec::new(), usage_map: 4294967295 }
}

/// Frees every list and empties it.
pub fn capture_list_pool_reset<T>(self_0: &mut CaptureListPool<T>)
    ensures
        final(self_0).usage_map == u32::MAX,
        final(self_0).list@.len() == MAX_STATE_COUNT,
        forall|i: int| 0 <= i < MAX_STATE_COUNT ==> (#[trigger] final(self_0).list@[i])@.len() == 0,
{
    self_0.usage_map = 4294967295;
    let mut lists: Vec<Vec<T>> = Vec::new();
    let mut i: u16 = 0;
    while i < MAX_STATE_COUNT
        invariant
            i <= MAX_STATE_COUNT,
            lists@.len() == i,
            forall|k: int| 0 <= k < i ==> (#[trigger] lists@[k])@.len() == 0,
        decreases MAX_STATE_COUNT - i,
    {
        lists.push(Vec::new());
        i = i + 1;
    }
    self_0.list = lists;
}

/// Releases the lists of a pool.
pub fn capture_list_pool_delete<T>(self_0: &mut CaptureListPool<T>)
    ensures
        final(self_0).list@.len() == 0,
        final(self_0).usage_map == old(self_0).usage_map,
{
    self_0.list = Vec::new();
}

/// List `id` of a pool.
pub fn capture_list_pool_get<T>(self_0: &CaptureListPool<T>, id: u16) -> (l: &Vec<T>)
    requires
        id < self_0.list@.len(),
    ensures
        *l == self_0.list@[id as int],
{
    &self_0.list[id as usize]
}

/// Whether every list is in use.
pub fn capture_list_pool_is_empty<T>(self_0: &CaptureListPool<T>) -> (r: bool)
    ensures
        r == (self_0.usage_map == 0),
{
    self_0.usage_map == 0
}

/// Takes the free list with the lowest id: `NONE` when every list is in use.
pub fn capture_list_pool_acquire<T>(self_0: &mut CaptureListPool<T>) -> (id: u16)
    ensures
        old(self_0).usage_map == 0 ==> id == NONE && *final(self_0) == *old(self_0),
        old(self_0).usage_map != 0 ==> {
            &&& id < 32
            &&& is_free(old(self_0).usage_map, id)
            &&& forall|j: u16| j < id ==> !is_free(old(self_0).usage_map, j)
            &&& final(self_0).usage_map == old(self_0).usage_map & !spec_bitmask_for_index(id)
            &&& final(self_0).list == old(self_0).list
        },
        id == NONE || id < 32,
{
    let map = self_0.usage_map;
    proof {
        vstd::std_specs::bits::axiom_u32_leading_zeros(map);
    }
    let id = count_leading_zeros(map) as u16;
    if id == 32 {
        return NONE;
    }
    proof {
        let z = map.leading_zeros();
        assert(id == z);
        assert forall|j: u16| j < id implies !is_free(map, j) by {
            let k: u32 = (31 - j) as u32;
            assert(32 - z <= k < 32);
            assert((map >> k) & 1u32 == 0u32);
        }
    }
    self_0.usage_map = self_0.usage_map & !bitmask_for_index(id);
    id
}

/// Gives a list back to the pool.
pub fn capture_list_pool_release<T>(self_0: &mut CaptureListPool<T>, id: u16)
    requires
        id < 32,
    ensures
        final(self_0).usage_map == old(self_0).usage_map | spec_bitmask_for_index(id),
        final(self_0).list == old(self_0).list,
{
    self_0.usage_map = self_0.usage_map | bitmask_for_index(id);
}

/// Giving back the list just taken restores the pool's usage map.
pub proof fn lemma_capture_list_release_after_acquire(map: u32, id: u16)
    requires
        id < 32,
        is_free(map, id),
    ensures
        (map & !spec_bitmask_for_index(id)) | spec_bitmask_for_index(id) == map,
        !is_free(map & !spec_bitmask_for_index(id), id),
{
    let k: u32 = (31 - id) as u32;
    assert(k < 32);
    assert((map >> k) & 1u32 != 0u32 ==> (map & !(1u32 << k)) | (1u32 << k) == map) by (bit_vector)
        requires
            k < 32,
    ;
    assert(((map & !(1u32 << k)) >> k) & 1u32 == 0u32) by (bit_vector)
        requires
            k < 32,
    ;
}

/// Taking list `id` leaves every other list as free as it was.
pub proof fn lemma_acquire_keeps_others(map: u32, id: u16, j: u16)
    requires
        id < 32,
        j < 32,
        j != id,
    ensures
        is_free(map & !spec_bitmask_for_index(id), j) == is_free(map, j),
        !is_free(map & !spec_bitmask_for_index(id), id),
{
    let k: u32 = (31 - id) as u32;
    let m: u32 = (31 - j) as u32;
    assert(k < 32 && m < 32 && k != m);
    assert((((map & !(1u32 << k)) >> m) & 1u32 != 0u32) == (((map >> m) & 1u32) != 0u32)) by (bit_vector)
        requires
            k < 32,
            m < 32,
            k != m,
    ;
    assert(((map & !(1u32 << k)) >> k) & 1u32 == 0u32) by (bit_vector)
        requires
            k < 32,
    ;
}

/// Giving back list `id` frees it and leaves every other list as it was.
pub proof fn lemma_release_keeps_others(map: u32, id: u16, j: u16)
    requires
        id < 32,
        j < 32,
        j != id,
    ensures
        is_free(map | spec_bitmask_for_index(id), j) == is_free(map, j),
        is_free(map | spec_bitmask_for_index(id), id),
{
    let k: u32 = (31 - id) as u32;
    let m: u32 = (31 - j) as u32;
    assert(k < 32 && m < 32 && k != m);
    assert((((map | (1u32 << k)) >> m) & 1u32 != 0u32) == (((map >> m) & 1u32) != 0u32)) by (bit_vector)
        requires
            k < 32,
            m < 32,
            k != m,
    ;
    assert(((map | (1u32 << k)) >> k) & 1u32 != 0u32) by (bit_vector)
        requires
            k < 32,
    ;
}

// ---------------------------------------------------------------------------
// Symbol tables: names stored one after another, each followed by a zero.
// ---------------------------------------------------------------------------

/// Where a name lies in a symbol table's characters.
#[derive(Copy, Clone, Debug, PartialEq, Eq, Structural)]
pub struct Slice {
    pub offset: u32,
    pub length: u32,
}

pub type SymbolTableCharacters = VoidArray<u8>;

pub type SymbolTableSlices = VoidArray<Slice>;

/// A table of names: their characters and where each lies.
pub struct SymbolTable {
    pub characters: SymbolTableCharacters,
    pub slices: SymbolTableSlices,
}

/// Each name lies within the characters, and the table's sizes fit their
/// `u32` counters.
pub open spec fn symbol_table_wf(t: SymbolTable) -> bool {
    &&& t.characters.wf()
    &&& t.slices.wf()
    &&& t.slices.contents@.len() <= i32::MAX
    &&& forall|i: int|
        0 <= i < t.slices.contents@.len() ==> (#[trigger] t.slices.contents@[i]).offset
            + t.slices.contents@[i].length <= t.characters.contents@.len()
}

/// The name of entry `i`.
pub open spec fn spec_name_at(t: SymbolTable, i: int) -> Seq<u8> {
    let sl = t.slices.contents@[i];
    t.characters.contents@.subrange(sl.offset as int, sl.offset + sl.length)
}

/// The first entry whose name equals `name` (see `spec_strn_eq`), from entry
/// `i` on; -1 for none.
pub open spec fn spec_id_for_name(t: SymbolTable, name: Seq<u8>, i: int) -> int
    decreases t.slices.contents@.len() - i,
{
    if i < 0 || i >= t.slices.contents@.len() {
        -1
    } else if t.slices.contents@[i].length == name.len() && spec_strn_eq(
        spec_name_at(t, i),
        name,
        0,
        name.len() as int,
    ) {
        i
    } else {
        spec_id_for_name(t, name, i + 1)
    }
}

pub(crate) proof fn lemma_id_for_name_range(t: SymbolTable, name: Seq<u8>, i: int)
    requires
        0 <= i,
    ensures
        spec_id_for_name(t, name, i) == -1 || (i <= spec_id_for_name(t, name, i)
            < t.slices.contents@.len()),
    decreases t.slices.contents@.len() - i,
{
    if i < t.slices.contents@.len() {
        lemma_id_for_name_range(t, name, i + 1);
    }
}

/// An empty table.
pub fn symbol_table_new() -> (t: SymbolTable)
    ensures
        t.characters.contents@.len() == 0,
        t.slices.contents@.len() == 0,
        symbol_table_wf(t),
{
    SymbolTable { characters: VoidArray::new(), slices: VoidArray::new() }
}

/// Releases a table's storage.
pub fn symbol_table_delete(self_0: &mut SymbolTable)
    ensures
        final(self_0).characters.contents@.len() == 0,
        final(self_0).slices.contents@.len() == 0,
        final(self_0).characters.capacity == 0,
        final(self_0).slices.capacity == 0,
{
    crate::array::array__delete(&mut self_0.characters);
    crate::array::array__delete(&mut self_0.slices);
}

fn strn_eq(chars: &Vec<u8>, offset: u32, name: &[u8], length: u32) -> (r: bool)
    requires
        offset + length <= chars@.len(),
        length <= name@.len(),
    ensures
        r == spec_strn_eq(
            chars@.subrange(offset as int, offset + length),
            name@,
            0,
            length as int,
        ),
{
    let ghost a = chars@.subrange(offset as int, offset + length);
    let total = chars.len();
    let mut i: u32 = 0;
    while i < length
        invariant
            i <= length,
            total == chars@.len(),
            offset + length <= chars@.len(),
            length <= name@.len(),
            a == chars@.subrange(offset as int, offset + length),
            spec_strn_eq(a, name@, 0, length as int) == spec_strn_eq(a, name@, i as int, length as int),
        decreases length - i,
    {
        let c = chars[offset as usize + i as usize];
        assert(a[i as int] == c);
        if c != name[i as usize] {
            return false;
        }
        if c == 0 {
            return true;
        }
        i = i + 1;
    }
    true
}

/// The id of a name in a table, or -1.
pub fn symbol_table_id_for_name(self_0: &SymbolTable, name: &[u8], length: u32) -> (id: i32)
    requires
        symbol_table_wf(*self_0),
        length == name@.len(),
    ensures
        id == spec_id_for_name(*self_0, name@, 0),
{
    proof {
        lemma_id_for_name_range(*self_0, name@, 0);
    }
    let n = self_0.slices.contents.len();
    let mut i: usize = 0;
    while i < n
        invariant
            i <= n,
            n == self_0.slices.contents@.len(),
            symbol_table_wf(*self_0),
            length == name@.len(),
            spec_id_for_name(*self_0, name@, 0) == spec_id_for_name(*self_0, name@, i as int),
            self_0.slices.wf(),
        decreases n - i,
    {
        let slice = self_0.slices.contents[i];
        if slice.length == length && strn_eq(&self_0.characters.contents, slice.offset, name, length) {
            return i as i32;
        }
        i = i + 1;
    }
    -1
}

/// The name of entry `id`.
pub fn symbol_table_name_for_id(self_0: &SymbolTable, id: u16) -> (name: &[u8])
    requires
        symbol_table_wf(*self_0),
        id < self_0.slices.contents@.len(),
    ensures
        name@ == spec_name_at(*self_0, id as int),
{
    let slice = self_0.slices.contents[id as usize];
    vstd::slice::slice_subrange(
        self_0.characters.contents.as_slice(),
        slice.offset as usize,
        (slice.offset + slice.length) as usize,
    )
}

/// Adds a name to a table, unless it is there: its id. A new name is stored
/// with a zero after it.
pub fn symbol_table_insert_name(self_0: &mut SymbolTable, name: &[u8], length: u32) -> (id: u16)
    requires
        symbol_table_wf(*old(self_0)),
        length == name@.len(),
        old(self_0).characters.contents@.len() + length + 1 <= u32::MAX,
        old(self_0).slices.contents@.len() < i32::MAX,
    ensures
        symbol_table_wf(*final(self_0)),
        spec_id_for_name(*old(self_0), name@, 0) >= 0 ==> id == spec_id_for_name(
            *old(self_0),
            name@,
            0,
        ) as u16 && *final(self_0) == *old(self_0),
        spec_id_for_name(*old(self_0), name@, 0) < 0 ==> {
            &&& final(self_0).characters.contents@ == old(self_0).characters.contents@ + name@
                + seq![0u8]
            &&& final(self_0).slices.contents@ == old(self_0).slices.contents@.push(
                Slice { offset: old(self_0).characters.contents@.len() as u32, length },
            )
            &&& id == old(self_0).slices.contents@.len() as u16
            &&& spec_name_at(*final(self_0), old(self_0).slices.contents@.len() as int) == name@
        },
{
    let found = symbol_table_id_for_name(self_0, name, length);
    if found >= 0 {
        return found as u16;
    }
    let offset = self_0.characters.contents.len() as u32;
    let slice = Slice { offset, length };
    crate::array::array__grow(&mut self_0.characters, length + 1);
    let mut i: usize = 0;
    let ghost chars0 = self_0.characters.contents@;
    while i < name.len()
        invariant
            i <= name@.len(),
            self_0.characters.contents@ == chars0 + name@.subrange(0, i as int),
            self_0.characters.capacity >= chars0.len() + length + 1,
            length == name@.len(),
            self_0.slices == old(self_0).slices,
            chars0 == old(self_0).characters.contents@,
        decreases name@.len() - i,
    {
        self_0.characters.contents.push(name[i]);
        i = i + 1;
        proof {
            assert(self_0.characters.contents@ =~= chars0 + name@.subrange(0, i as int));
        }
    }
    self_0.characters.contents.push(0u8);
    crate::array::array_push(&mut self_0.slices, slice);
    proof {
        assert(name@.subrange(0, name@.len() as int) =~= name@);
        assert(self_0.characters.contents@ =~= chars0 + name@ + seq![0u8]);
        assert(spec_name_at(*self_0, old(self_0).slices.contents@.len() as int) =~= name@);
        assert forall|k: int| 0 <= k < self_0.slices.contents@.len() implies (
        #[trigger] self_0.slices.contents@[k]).offset + self_0.slices.contents@[k].length
            <= self_0.characters.contents@.len() by {
            if k < old(self_0).slices.contents@.len() {
                assert(self_0.slices.contents@[k] == old(self_0).slices.contents@[k]);
            }
        }
    }
    (self_0.slices.contents.len() - 1) as u16
}

/// The unescaped form of a string literal's content from byte `i` on: `\n`,
/// `\r`, `\t` and `\0` stand for their control characters, and a backslash
/// before any other byte for that byte.
pub open spec fn spec_unescape(esc: Seq<u8>, i: int, escaped: bool) -> Seq<u8>
    decreases esc.len() - i,
{
    if i < 0 || i >= esc.len() {
        Seq::empty()
    } else {
        let c = esc[i];
        if escaped {
            let d: u8 = if c == 110 {
                10
            } else if c == 114 {
                13
            } else if c == 116 {
                9
            } else if c == 48 {
                0
            } else {
                c
            };
            seq![d] + spec_unescape(esc, i + 1, false)
        } else if c == 92 {
            spec_unescape(esc, i + 1, true)
        } else {
            seq![c] + spec_unescape(esc, i + 1, false)
        }
    }
}

pub proof fn lemma_unescape_len(esc: Seq<u8>, i: int, escaped: bool)
    requires
        0 <= i <= esc.len(),
    ensures
        spec_unescape(esc, i, escaped).len() <= esc.len() - i,
    decreases esc.len() - i,
{
    if i < esc.len() {
        lemma_unescape_len(esc, i + 1, false);
        lemma_unescape_len(esc, i + 1, true);
    }
}

fn unescape(esc: &[u8]) -> (r: Vec<u8>)
    ensures
        r@ == spec_unescape(esc@, 0, false),
        r@.len() <= esc@.len(),
{
    proof {
        lemma_unescape_len(esc@, 0, false);
    }
    let mut r: Vec<u8> = Vec::new();
    let mut escaped = false;
    let mut i: usize = 0;
    while i < esc.len()
        invariant
            i <= esc@.len(),
            r@ + spec_unescape(esc@, i as int, escaped) == spec_unescape(esc@, 0, false),
        decreases esc@.len() - i,
    {
        let c = esc[i];
        let ghost before = r@;
        if escaped {
            let d: u8 = if c == 110 {
                10
            } else if c == 114 {
                13
            } else if c == 116 {
                9
            } else if c == 48 {
                0
            } else {
                c
            };
            r.push(d);
            escaped = false;
            proof {
                assert(r@ + spec_unescape(esc@, i + 1, false) =~= before + spec_unescape(esc@, i as int, true));
            }
        } else if c == 92 {
            escaped = true;
        } else {
            r.push(c);
            proof {
                assert(r@ + spec_unescape(esc@, i + 1, false) =~= before + spec_unescape(esc@, i as int, false));
            }
        }
        i = i + 1;
    }
    proof {
        assert(r@ + Seq::<u8>::empty() =~= r@);
    }
    r
}

/// Adds the unescaped form of a string literal's content to a table (see
/// `spec_unescape`), unless it is there: its id. A new name is stored
/// followed by zeros, as many as the escapes saved plus one.
pub fn symbol_table_insert_name_with_escapes(
    self_0: &mut SymbolTable,
    escaped_name: &[u8],
    escaped_length: u32,
) -> (id: u16)
    requires
        symbol_table_wf(*old(self_0)),
        escaped_length == escaped_name@.len(),
        old(self_0).characters.contents@.len() + escaped_length + 1 <= u32::MAX,
        old(self_0).slices.contents@.len() < i32::MAX,
    ensures
        symbol_table_wf(*final(self_0)),
        final(self_0).characters.contents@.len() <= old(self_0).characters.contents@.len()
            + escaped_length + 1,
        final(self_0).slices.contents@.len() <= old(self_0).slices.contents@.len() + 1,
        ({
            let name = spec_unescape(escaped_name@, 0, false);
            let found = spec_id_for_name(*old(self_0), name, 0);
            &&& found >= 0 ==> id == found as u16 && *final(self_0) == *old(self_0)
            &&& found < 0 ==> {
                &&& final(self_0).characters.contents@ == old(self_0).characters.contents@ + name
                    + Seq::new((escaped_length + 1 - name.len()) as nat, |k: int| 0u8)
                &&& final(self_0).slices.contents@ == old(self_0).slices.contents@.push(
                    Slice {
                        offset: old(self_0).characters.contents@.len() as u32,
                        length: name.len() as u32,
                    },
                )
                &&& id == old(self_0).slices.contents@.len() as u16
                &&& spec_name_at(*final(self_0), old(self_0).slices.contents@.len() as int) == name
            }
        }),
{
    let name = unescape(escaped_name);
    let length = name.len() as u32;
    let found = symbol_table_id_for_name(self_0, name.as_slice(), length);
    if found >= 0 {
        return found as u16;
    }
    let offset = self_0.characters.contents.len() as u32;
    crate::array::array__grow(&mut self_0.characters, escaped_length + 1);
    let ghost chars0 = self_0.characters.contents@;
    let mut i: usize = 0;
    while i < name.len()
        invariant
            i <= name@.len(),
            self_0.characters.contents@ == chars0 + name@.subrange(0, i as int),
            self_0.characters.capacity >= chars0.len() + escaped_length + 1,
            name@.len() <= escaped_length,
            self_0.slices == old(self_0).slices,
            chars0 == old(self_0).characters.contents@,
        decreases name@.len() - i,
    {
        self_0.characters.contents.push(name[i]);
        i = i + 1;
        proof {
            assert(self_0.characters.contents@ =~= chars0 + name@.subrange(0, i as int));
        }
    }
    let zeros: u32 = escaped_length + 1 - length;
    let mut k: u32 = 0;
    while k < zeros
        invariant
            k <= zeros,
            zeros == escaped_length + 1 - name@.len(),
            self_0.characters.contents@ == chars0 + name@ + Seq::new(k as nat, |j: int| 0u8),
            self_0.characters.capacity >= chars0.len() + escaped_length + 1,
            self_0.slices == old(self_0).slices,
            chars0 == old(self_0).characters.contents@,
        decreases zeros - k,
    {
        proof {
            assert(name@.subrange(0, name@.len() as int) =~= name@);
        }
        self_0.characters.contents.push(0u8);
        k = k + 1;
        proof {
            assert(self_0.characters.contents@ =~= chars0 + name@ + Seq::new(k as nat, |j: int| 0u8));
        }
    }
    proof {
        if zeros == 0 {
            assert(name@.subrange(0, name@.len() as int) =~= name@);
            assert(self_0.characters.contents@ =~= chars0 + name@ + Seq::new(0, |j: int| 0u8));
        }
    }
    let slice = Slice { offset, length };
    crate::array::array_push(&mut self_0.slices, slice);
    proof {
        assert(spec_name_at(*self_0, old(self_0).slices.contents@.len() as int) =~= name@);
        assert forall|j: int| 0 <= j < self_0.slices.contents@.len() implies (
        #[trigger] self_0.slices.contents@[j]).offset + self_0.slices.contents@[j].length
            <= self_0.characters.contents@.len() by {
            if j < old(self_0).slices.contents@.len() {
                assert(self_0.slices.contents@[j] == old(self_0).slices.contents@[j]);
            }
        }
    }
    (self_0.slices.contents.len() - 1) as u16
}

// ---------------------------------------------------------------------------
// Query steps.
// ---------------------------------------------------------------------------

/// One step of a pattern: the symbol and field a node must have, the
/// captures it makes, how deep in the pattern it is (13 bits), whether it or
/// a step below it captures, whether it must be an immediate child, and
/// whether it is the pattern's last step.
#[derive(Copy, Clone, Debug)]
pub struct QueryStep {
    pub symbol: u16,
    pub field: u16,
    pub capture_ids: [u16; 4],
    pub depth: u16,
    pub contains_captures: bool,
    pub is_immediate: bool,
    pub is_last: bool,
}

/// A step for `symbol` at `depth` (kept to its 13 bits), without field or
/// captures.
pub fn query_step__new(symbol: u16, depth: u16, is_immediate: bool) -> (s: QueryStep)
    ensures
        s.symbol == symbol,
        s.field == 0,
        s.capture_ids@ == seq![NONE, NONE, NONE, NONE],
        s.depth == depth % 8192,
        !s.contains_captures,
        s.is_immediate == is_immediate,
        !s.is_last,
{
    QueryStep {
        symbol,
        field: 0,
        capture_ids: [NONE, NONE, NONE, NONE],
        depth: depth % 8192,
        contains_captures: false,
        is_immediate,
        is_last: false,
    }
}

/// The first slot of `ids` from `i` on that holds `x`, or 4.
pub open spec fn spec_first_slot(ids: Seq<u16>, x: u16, i: int) -> int
    decreases 4 - i,
{
    if i >= 4 || i < 0 {
        4
    } else if ids[i] == x {
        i
    } else {
        spec_first_slot(ids, x, i + 1)
    }
}

proof fn lemma_first_slot(ids: Seq<u16>, x: u16, i: int)
    requires
        0 <= i <= 4,
        ids.len() == 4,
    ensures
        i <= spec_first_slot(ids, x, i) <= 4,
        spec_first_slot(ids, x, i) < 4 ==> ids[spec_first_slot(ids, x, i)] == x,
        forall|j: int| i <= j < spec_first_slot(ids, x, i) ==> ids[j] != x,
    decreases 4 - i,
{
    if i < 4 && ids[i] != x {
        lemma_first_slot(ids, x, i + 1);
    }
}

/// The captures with `capture_id` put in the first free slot, if there is one.
pub open spec fn spec_add_capture(ids: Seq<u16>, capture_id: u16) -> Seq<u16> {
    let k = spec_first_slot(ids, NONE, 0);
    if k < 4 {
        ids.update(k, capture_id)
    } else {
        ids
    }
}

pub fn query_step__add_capture(self_0: &mut QueryStep, capture_id: u16)
    ensures
        final(self_0).capture_ids@ == spec_add_capture(old(self_0).capture_ids@, capture_id),
        final(self_0).symbol == old(self_0).symbol,
        final(self_0).field == old(self_0).field,
        final(self_0).depth == old(self_0).depth,
        final(self_0).contains_captures == old(self_0).contains_captures,
        final(self_0).is_immediate == old(self_0).is_immediate,
        final(self_0).is_last == old(self_0).is_last,
{
    proof {
        lemma_first_slot(self_0.capture_ids@, NONE, 0);
    }
    let mut i: usize = 0;
    while i < 4
        invariant
            i <= 4,
            *self_0 == *old(self_0),
            spec_first_slot(self_0.capture_ids@, NONE, 0) == spec_first_slot(self_0.capture_ids@, NONE, i as int),
        decreases 4 - i,
    {
        if self_0.capture_ids[i] == NONE {
            self_0.capture_ids[i] = capture_id;
            return;
        }
        i = i + 1;
    }
}

/// The captures with the first slot that holds `capture_id` emptied, and the
/// captures after it, up to the next free slot, moved down by one.
pub open spec fn spec_remove_capture(ids: Seq<u16>, capture_id: u16) -> Seq<u16> {
    let k = spec_first_slot(ids, capture_id, 0);
    if k >= 4 {
        ids
    } else {
        let m = spec_first_slot(ids, NONE, k + 1);
        ids.subrange(0, k) + ids.subrange(k + 1, m) + seq![NONE] + ids.subrange(m, 4)
    }
}

pub fn query_step__remove_capture(self_0: &mut QueryStep, capture_id: u16)
    ensures
        final(self_0).capture_ids@ == spec_remove_capture(old(self_0).capture_ids@, capture_id),
        final(self_0).symbol == old(self_0).symbol,
        final(self_0).field == old(self_0).field,
        final(self_0).depth == old(self_0).depth,
        final(self_0).contains_captures == old(self_0).contains_captures,
        final(self_0).is_immediate == old(self_0).is_immediate,
        final(self_0).is_last == old(self_0).is_last,
{
    let ghost ids = self_0.capture_ids@;
    proof {
        lemma_first_slot(ids, capture_id, 0);
    }
    let mut i: usize = 0;
    while i < 4
        invariant
            i <= 4,
            *self_0 == *old(self_0),
            ids == self_0.capture_ids@,
            ids.len() == 4,
            spec_first_slot(ids, capture_id, 0) == spec_first_slot(ids, capture_id, i as int),
        decreases 4 - i,
    {
        if self_0.capture_ids[i] == capture_id {
            let ghost k = i as int;
            proof {
                lemma_first_slot(ids, NONE, k + 1);
            }
            self_0.capture_ids[i] = NONE;
            while i + 1 < 4
                invariant
                    0 <= k <= i < 4,
                    ids.len() == 4,
                    ids == old(self_0).capture_ids@,
                    spec_first_slot(ids, capture_id, 0) == k,
                    self_0.symbol == old(self_0).symbol,
                    self_0.field == old(self_0).field,
                    self_0.depth == old(self_0).depth,
                    self_0.contains_captures == old(self_0).contains_captures,
                    self_0.is_immediate == old(self_0).is_immediate,
                    self_0.is_last == old(self_0).is_last,
                    spec_first_slot(ids, NONE, k + 1) == spec_first_slot(ids, NONE, i + 1),
                    forall|j: int| k + 1 <= j < i + 1 ==> ids[j] != NONE,
                    self_0.capture_ids@ == ids.subrange(0, k) + ids.subrange(k + 1, i + 1) + seq![NONE] + ids.subrange(i + 1, 4),
                ensures
                    self_0.capture_ids@ == spec_remove_capture(ids, capture_id),
                    self_0.symbol == old(self_0).symbol,
                    self_0.field == old(self_0).field,
                    self_0.depth == old(self_0).depth,
                    self_0.contains_captures == old(self_0).contains_captures,
                    self_0.is_immediate == old(self_0).is_immediate,
                    self_0.is_last == old(self_0).is_last,
                decreases 4 - i,
            {
                proof {
                    let rep = ids.subrange(0, k) + ids.subrange(k + 1, i + 1) + seq![NONE] + ids.subrange(i + 1, 4);
                    assert(rep[i + 1] == ids[i + 1]);
                    assert(rep[i as int] == NONE);
                }
                if self_0.capture_ids[i + 1] == NONE {
                    proof {
                        assert(ids[i + 1] == NONE);
                        assert(spec_first_slot(ids, NONE, i + 1) == i + 1);
                    }
                    break;
                }
                let next = self_0.capture_ids[i + 1];
                assert(next == ids[i + 1]);
                let ghost before = self_0.capture_ids@;
                self_0.capture_ids[i] = next;
                self_0.capture_ids[i + 1] = NONE;
                proof {
                    assert(self_0.capture_ids@ =~= before.update(i as int, next).update(i + 1, NONE));
                    assert(self_0.capture_ids@ =~= ids.subrange(0, k) + ids.subrange(k + 1, i + 2) + seq![NONE] + ids.subrange(i + 2, 4));
                }
                i = i + 1;
            }
            return;
        }
        i = i + 1;
    }
}

// ---------------------------------------------------------------------------
// The query.
// ---------------------------------------------------------------------------

/// A step of a predicate: the end of the predicate, a capture or a string.
pub type TSQueryPredicateStepType = u32;

pub const TSQueryPredicateStepTypeDone: u32 = 0;
pub const TSQueryPredicateStepTypeCapture: u32 = 1;
pub const TSQueryPredicateStepTypeString: u32 = 2;

/// A step of a predicate, with the id of its capture or string.
#[derive(Copy, Clone, Debug, PartialEq, Eq, Structural)]
pub struct TSQueryPredicateStep {
    pub type_0: u32,
    pub value_id: u32,
}

/// Where a pattern's steps start, and which pattern it is.
#[derive(Copy, Clone, Debug, PartialEq, Eq, Structural)]
pub struct PatternEntry {
    pub step_index: u16,
    pub pattern_index: u16,
}

pub type TSQuerySteps = VoidArray<QueryStep>;

pub type TSQueryPatternMap = VoidArray<PatternEntry>;

pub type TSQueryPredicateSteps = VoidArray<TSQueryPredicateStep>;

pub type TSQueryPredicatesByPattern = VoidArray<Slice>;

pub type TSQueryStartBytesByPattern = VoidArray<u32>;

/// A query: its patterns' steps; the patterns by the symbol of their first
/// step, patterns with a wildcard first step first; their predicates; where
/// each pattern starts in the source; and its capture names and strings.
pub struct TSQuery<'l> {
    pub captures: SymbolTable,
    pub predicate_values: SymbolTable,
    pub steps: TSQuerySteps,
    pub pattern_map: TSQueryPatternMap,
    pub predicate_steps: TSQueryPredicateSteps,
    pub predicates_by_pattern: TSQueryPredicatesByPattern,
    pub start_bytes_by_pattern: TSQueryStartBytesByPattern,
    pub language: &'l TSLanguage,
    pub max_capture_count: u16,
    pub wildcard_root_pattern_count: u16,
    pub symbol_map: Vec<u16>,
}

/// The symbol of the first step of pattern-map entry `i`.
pub open spec fn spec_entry_symbol(q: TSQuery, i: int) -> u16 {
    q.steps.contents@[q.pattern_map.contents@[i].step_index as int].symbol
}

/// Every pattern-map entry points at a step.
pub open spec fn pattern_map_wf(q: TSQuery) -> bool {
    &&& q.pattern_map.wf()
    &&& q.wildcard_root_pattern_count <= q.pattern_map.contents@.len()
    &&& forall|i: int|
        0 <= i < q.pattern_map.contents@.len() ==> (#[trigger] q.pattern_map.contents@[i]).step_index
            < q.steps.contents@.len()
}

/// The entries after the wildcard ones are sorted by symbol.
pub open spec fn pattern_map_sorted(q: TSQuery) -> bool {
    forall|i: int, j: int|
        q.wildcard_root_pattern_count <= i <= j < q.pattern_map.contents@.len()
            ==> spec_entry_symbol(q, i) <= spec_entry_symbol(q, j)
}

/// Finds where the patterns for `needle` start in the pattern map, past the
/// wildcard patterns: the first entry whose symbol is not below `needle`,
/// and whether its symbol is `needle`. For the wildcard symbol, 0, that is
/// the first entry past the wildcard ones; for others it is so where the
/// entries past the wildcard ones are sorted.
pub fn ts_query__pattern_map_search(self_0: &TSQuery, needle: u16) -> (r: (bool, u32))
    requires
        pattern_map_wf(*self_0),
    ensures
        self_0.wildcard_root_pattern_count <= r.1 <= self_0.pattern_map.contents@.len(),
        needle == 0 ==> r.1 == self_0.wildcard_root_pattern_count,
        pattern_map_sorted(*self_0) ==> is_lower_bound(*self_0, needle, r.1 as int),
        pattern_map_sorted(*self_0) ==> r.0 == (r.1 < self_0.pattern_map.contents@.len()
            && spec_entry_symbol(*self_0, r.1 as int) == needle),
{
    let len = self_0.pattern_map.contents.len() as u32;
    let mut base_index: u32 = self_0.wildcard_root_pattern_count as u32;
    let mut size: u32 = len - base_index;
    if size == 0 {
        return (false, base_index);
    }
    while size > 1
        invariant
            len == self_0.pattern_map.contents@.len(),
            self_0.wildcard_root_pattern_count <= base_index,
            size >= 1,
            base_index + size <= len,
            pattern_map_wf(*self_0),
            needle == 0 ==> base_index == self_0.wildcard_root_pattern_count,
            pattern_map_sorted(*self_0) ==> forall|i: int|
                self_0.wildcard_root_pattern_count <= i < base_index ==> spec_entry_symbol(*self_0, i)
                    < needle,
            pattern_map_sorted(*self_0) ==> forall|i: int|
                base_index + size <= i < len ==> spec_entry_symbol(*self_0, i) >= needle,
        decreases size,
    {
        let half_size = size / 2;
        let mid_index = base_index + half_size;
        let mid_entry = self_0.pattern_map.contents[mid_index as usize];
        let mid_symbol = self_0.steps.contents[mid_entry.step_index as usize].symbol;
        assert(mid_symbol == spec_entry_symbol(*self_0, mid_index as int));
        if needle > mid_symbol {
            base_index = mid_index;
        }
        size = size - half_size;
    }
    let entry = self_0.pattern_map.contents[base_index as usize];
    let mut symbol = self_0.steps.contents[entry.step_index as usize].symbol;
    assert(symbol == spec_entry_symbol(*self_0, base_index as int));
    if needle > symbol {
        base_index = base_index + 1;
        if base_index < len {
            let e = self_0.pattern_map.contents[base_index as usize];
            symbol = self_0.steps.contents[e.step_index as usize].symbol;
            assert(symbol == spec_entry_symbol(*self_0, base_index as int));
        }
    }
    (needle == symbol, base_index)
}

/// Whether `new_map` is `old_map` with `entry` put at `idx`.
pub open spec fn spec_inserted_at(
    old_map: Seq<PatternEntry>,
    new_map: Seq<PatternEntry>,
    idx: int,
    entry: PatternEntry,
) -> bool {
    new_map == old_map.insert(idx, entry)
}

/// Adds a pattern to the pattern map: its entry (the start step and the
/// pattern index, both kept to 16 bits) goes where `ts_query__pattern_map_search`
/// finds `symbol`, so a wildcard pattern goes right after the wildcard ones,
/// and the entries after the wildcard ones stay sorted while they were
/// sorted, the start step fits 16 bits and `symbol` is its symbol.
pub fn ts_query__pattern_map_insert(self_0: &mut TSQuery, symbol: u16, start_step_index: u32)
    requires
        pattern_map_wf(*old(self_0)),
        start_step_index < old(self_0).steps.contents@.len(),
        old(self_0).pattern_map.contents@.len() < u32::MAX,
    ensures
        exists|idx: int|
            #![trigger spec_inserted_at(old(self_0).pattern_map.contents@, final(self_0).pattern_map.contents@, idx, PatternEntry {
                    step_index: start_step_index as u16,
                    pattern_index: old(self_0).pattern_map.contents@.len() as u16,
                })]
            old(self_0).wildcard_root_pattern_count <= idx <= old(self_0).pattern_map.contents@.len()
            && spec_inserted_at(
                old(self_0).pattern_map.contents@,
                final(self_0).pattern_map.contents@,
                idx,
                PatternEntry {
                    step_index: start_step_index as u16,
                    pattern_index: old(self_0).pattern_map.contents@.len() as u16,
                },
            ) && (symbol == 0 ==> idx == old(self_0).wildcard_root_pattern_count) && (
            pattern_map_sorted(*old(self_0)) ==> is_lower_bound(*old(self_0), symbol, idx)),
        pattern_map_wf(*final(self_0)),
        pattern_map_sorted(*old(self_0)) && start_step_index <= u16::MAX
            && old(self_0).steps.contents@[start_step_index as int].symbol == symbol
            ==> pattern_map_sorted(*final(self_0)),
        final(self_0).steps == old(self_0).steps,
        final(self_0).wildcard_root_pattern_count == old(self_0).wildcard_root_pattern_count,
        final(self_0).captures == old(self_0).captures,
        final(self_0).predicate_values == old(self_0).predicate_values,
        final(self_0).predicate_steps == old(self_0).predicate_steps,
        final(self_0).predicates_by_pattern == old(self_0).predicates_by_pattern,
        final(self_0).start_bytes_by_pattern == old(self_0).start_bytes_by_pattern,
        final(self_0).language == old(self_0).language,
        final(self_0).max_capture_count == old(self_0).max_capture_count,
        final(self_0).symbol_map == old(self_0).symbol_map,
{
    let (_, index) = ts_query__pattern_map_search(self_0, symbol);
    let entry = PatternEntry {
        step_index: start_step_index as u16,
        pattern_index: self_0.pattern_map.contents.len() as u16,
    };
    let ghost old_map = self_0.pattern_map.contents@;
    let elements = [entry];
    crate::array::array__splice(&mut self_0.pattern_map, index, 0, &elements);
    proof {
        assert(elements@ == seq![entry]);
        assert(self_0.pattern_map.contents@ =~= old_map.insert(index as int, entry));
        assert(spec_inserted_at(old_map, self_0.pattern_map.contents@, index as int, entry));
        let q = *self_0;
        let o = *old(self_0);
        assert((start_step_index as u16) <= start_step_index) by (bit_vector);
        assert forall|i: int| 0 <= i < q.pattern_map.contents@.len() implies (
        #[trigger] q.pattern_map.contents@[i]).step_index < q.steps.contents@.len() by {
            if i < index {
                assert(q.pattern_map.contents@[i] == old_map[i]);
            } else if i > index {
                assert(q.pattern_map.contents@[i] == old_map[i - 1]);
            }
        }
        if pattern_map_sorted(o) && start_step_index <= u16::MAX
            && o.steps.contents@[start_step_index as int].symbol == symbol {
            assert(is_lower_bound(o, symbol, index as int));
            assert(spec_entry_symbol(q, index as int) == symbol);
            assert forall|i: int, j: int|
                q.wildcard_root_pattern_count <= i <= j < q.pattern_map.contents@.len() implies spec_entry_symbol(q, i)
                <= spec_entry_symbol(q, j) by {
                if i < index {
                    assert(spec_entry_symbol(q, i) == spec_entry_symbol(o, i));
                } else if i > index {
                    assert(spec_entry_symbol(q, i) == spec_entry_symbol(o, i - 1));
                }
                if j < index {
                    assert(spec_entry_symbol(q, j) == spec_entry_symbol(o, j));
                } else if j > index {
                    assert(spec_entry_symbol(q, j) == spec_entry_symbol(o, j - 1));
                }
            }
        }
    }
}

/// Whether `idx` is where a symbol's patterns start in the pattern map: the
/// entries after the wildcard ones and before `idx` have lower symbols, the
/// rest have symbols at least as high.
pub open spec fn is_lower_bound(q: TSQuery, needle: u16, idx: int) -> bool {
    &&& q.wildcard_root_pattern_count <= idx <= q.pattern_map.contents@.len()
    &&& forall|i: int| q.wildcard_root_pattern_count <= i < idx ==> spec_entry_symbol(q, i) < needle
    &&& forall|i: int| idx <= i < q.pattern_map.contents@.len() ==> spec_entry_symbol(q, i) >= needle
}

/// Whether a step below step `i`, from step `j` on, up to the end of `i`'s
/// pattern or of its subpattern, captures.
pub open spec fn spec_captures_below(steps: Seq<QueryStep>, i: int, j: int) -> bool
    decreases steps.len() - j,
{
    if j < 0 || j >= steps.len() {
        false
    } else if steps[j].depth == PATTERN_DONE_MARKER as u16 || steps[j].depth <= steps[i].depth {
        false
    } else if steps[j].capture_ids[0] != NONE {
        true
    } else {
        spec_captures_below(steps, i, j + 1)
    }
}

/// Whether step `i` or a step below it captures.
pub open spec fn spec_contains_captures(steps: Seq<QueryStep>, i: int) -> bool {
    steps[i].capture_ids[0] != NONE || spec_captures_below(steps, i, i + 1)
}

/// The steps with `contains_captures` set as `spec_contains_captures` says.
pub open spec fn spec_finalized(steps: Seq<QueryStep>) -> Seq<QueryStep> {
    Seq::new(
        steps.len(),
        |i: int| QueryStep { contains_captures: spec_contains_captures(steps, i), ..steps[i] },
    )
}

fn captures_below(steps: &Vec<QueryStep>, i: usize) -> (r: bool)
    requires
        i < steps@.len(),
    ensures
        r == spec_captures_below(steps@, i as int, i + 1),
{
    let n = steps.len();
    let depth = steps[i].depth;
    let mut j = i + 1;
    while j < n
        invariant
            i < j <= steps@.len(),
            n == steps@.len(),
            depth == steps@[i as int].depth,
            spec_captures_below(steps@, i as int, i + 1) == spec_captures_below(steps@, i as int, j as int),
        decreases steps@.len() - j,
    {
        let s = &steps[j];
        if s.depth == 255 || s.depth <= depth {
            return false;
        }
        if s.capture_ids[0] != NONE {
            return true;
        }
        j = j + 1;
    }
    false
}

/// Marks each step that captures, or has a step below it that captures.
pub fn ts_query__finalize_steps(self_0: &mut TSQuery)
    ensures
        final(self_0).steps.contents@ == spec_finalized(old(self_0).steps.contents@),
        final(self_0).steps.capacity == old(self_0).steps.capacity,
        final(self_0).pattern_map == old(self_0).pattern_map,
        final(self_0).captures == old(self_0).captures,
        final(self_0).wildcard_root_pattern_count == old(self_0).wildcard_root_pattern_count,
        final(self_0).predicate_values == old(self_0).predicate_values,
        final(self_0).predicate_steps == old(self_0).predicate_steps,
        final(self_0).predicates_by_pattern == old(self_0).predicates_by_pattern,
        final(self_0).start_bytes_by_pattern == old(self_0).start_bytes_by_pattern,
        final(self_0).language == old(self_0).language,
        final(self_0).max_capture_count == old(self_0).max_capture_count,
        final(self_0).symbol_map == old(self_0).symbol_map,
{
    let ghost orig = self_0.steps.contents@;
    let n = self_0.steps.contents.len();
    let mut i: usize = 0;
    while i < n
        invariant
            i <= n,
            n == orig.len(),
            self_0.steps.contents@.len() == n,
            forall|k: int| 0 <= k < i ==> #[trigger] self_0.steps.contents@[k] == spec_finalized(orig)[k],
            forall|k: int| i <= k < n ==> #[trigger] self_0.steps.contents@[k] == orig[k],
            self_0.steps.capacity == old(self_0).steps.capacity,
            self_0.pattern_map == old(self_0).pattern_map,
            self_0.captures == old(self_0).captures,
            self_0.wildcard_root_pattern_count == old(self_0).wildcard_root_pattern_count,
            self_0.predicate_values == old(self_0).predicate_values,
            self_0.predicate_steps == old(self_0).predicate_steps,
            self_0.predicates_by_pattern == old(self_0).predicates_by_pattern,
            self_0.start_bytes_by_pattern == old(self_0).start_bytes_by_pattern,
            self_0.language == old(self_0).language,
            self_0.max_capture_count == old(self_0).max_capture_count,
            self_0.symbol_map == old(self_0).symbol_map,
            orig == old(self_0).steps.contents@,
        decreases n - i,
    {
        let below = captures_below(&self_0.steps.contents, i);
        proof {
            lemma_captures_below_agree(self_0.steps.contents@, orig, i as int, i as int + 1);
        }
        let mut step = self_0.steps.contents[i];
        step.contains_captures = step.capture_ids[0] != NONE || below;
        self_0.steps.contents.set(i, step);
        i = i + 1;
    }
    proof {
        assert(self_0.steps.contents@ =~= spec_finalized(orig));
    }
}

/// Whether a step below captures depends only on the depths and first
/// captures of the steps from `i` on.
pub(crate) proof fn lemma_captures_below_agree(a: Seq<QueryStep>, b: Seq<QueryStep>, i: int, j: int)
    requires
        a.len() == b.len(),
        0 <= i < j,
        i < a.len(),
        forall|k: int| i <= k < a.len() ==> (#[trigger] a[k]).depth == b[k].depth && a[k].capture_ids[0] == b[k].capture_ids[0],
    ensures
        spec_captures_below(a, i, j) == spec_captures_below(b, i, j),
    decreases a.len() - j,
{
    if j < a.len() {
        assert(a[j].depth == b[j].depth);
        assert(a[i].depth == b[i].depth);
        lemma_captures_below_agree(a, b, i, j + 1);
    }
}

/// The number of patterns.
pub fn ts_query_pattern_count(self_0: &TSQuery) -> (n: u32)
    requires
        self_0.predicates_by_pattern.wf(),
    ensures
        n == self_0.predicates_by_pattern.contents@.len(),
{
    self_0.predicates_by_pattern.contents.len() as u32
}

/// The number of capture names.
pub fn ts_query_capture_count(self_0: &TSQuery) -> (n: u32)
    requires
        symbol_table_wf(self_0.captures),
    ensures
        n == self_0.captures.slices.contents@.len(),
{
    self_0.captures.slices.contents.len() as u32
}

/// The number of string values.
pub fn ts_query_string_count(self_0: &TSQuery) -> (n: u32)
    requires
        symbol_table_wf(self_0.predicate_values),
    ensures
        n == self_0.predicate_values.slices.contents@.len(),
{
    self_0.predicate_values.slices.contents.len() as u32
}

/// The name of a capture (by the low 16 bits of `index`).
pub fn ts_query_capture_name_for_id<'a>(self_0: &'a TSQuery, index: u32) -> (name: &'a [u8])
    requires
        symbol_table_wf(self_0.captures),
        (index as u16) < self_0.captures.slices.contents@.len(),
    ensures
        name@ == spec_name_at(self_0.captures, (index as u16) as int),
{
    symbol_table_name_for_id(&self_0.captures, index as u16)
}

/// A string value (by the low 16 bits of `index`).
pub fn ts_query_string_value_for_id<'a>(self_0: &'a TSQuery, index: u32) -> (value: &'a [u8])
    requires
        symbol_table_wf(self_0.predicate_values),
        (index as u16) < self_0.predicate_values.slices.contents@.len(),
    ensures
        value@ == spec_name_at(self_0.predicate_values, (index as u16) as int),
{
    symbol_table_name_for_id(&self_0.predicate_values, index as u16)
}

/// The predicate steps of a pattern.
pub fn ts_query_predicates_for_pattern<'a>(self_0: &'a TSQuery, pattern_index: u32) -> (steps: &'a [TSQueryPredicateStep])
    requires
        pattern_index < self_0.predicates_by_pattern.contents@.len(),
        self_0.predicates_by_pattern.contents@[pattern_index as int].offset
            + self_0.predicates_by_pattern.contents@[pattern_index as int].length
            <= self_0.predicate_steps.contents@.len(),
    ensures
        ({
            let sl = self_0.predicates_by_pattern.contents@[pattern_index as int];
            steps@ == self_0.predicate_steps.contents@.subrange(sl.offset as int, sl.offset + sl.length)
        }),
{
    let slice = self_0.predicates_by_pattern.contents[pattern_index as usize];
    let _n = self_0.predicate_steps.contents.len();
    vstd::slice::slice_subrange(
        self_0.predicate_steps.contents.as_slice(),
        slice.offset as usize,
        slice.offset as usize + slice.length as usize,
    )
}

/// Where a pattern starts in the query's source.
pub fn ts_query_start_byte_for_pattern(self_0: &TSQuery, pattern_index: u32) -> (b: u32)
    requires
        pattern_index < self_0.start_bytes_by_pattern.contents@.len(),
    ensures
        b == self_0.start_bytes_by_pattern.contents@[pattern_index as int],
{
    self_0.start_bytes_by_pattern.contents[pattern_index as usize]
}

/// Stops a query from capturing with the name `name`: every step drops that
/// capture (see `spec_remove_capture`), and whether each step captures, or a
/// step below it does, is worked out again.
pub fn ts_query_disable_capture(self_0: &mut TSQuery, name: &[u8], length: u32)
    requires
        symbol_table_wf(old(self_0).captures),
        length == name@.len(),
    ensures
        ({
            let id = spec_id_for_name(old(self_0).captures, name@, 0);
            let o = old(self_0).steps.contents@;
            let f = final(self_0).steps.contents@;
            &&& id == -1 ==> f == o
            &&& id != -1 ==> {
                &&& f.len() == o.len()
                &&& forall|i: int|
                    0 <= i < o.len() ==> {
                        &&& (#[trigger] f[i]).capture_ids@ == spec_remove_capture(
                            o[i].capture_ids@,
                            id as u16,
                        )
                        &&& f[i].symbol == o[i].symbol
                        &&& f[i].field == o[i].field
                        &&& f[i].depth == o[i].depth
                        &&& f[i].is_immediate == o[i].is_immediate
                        &&& f[i].is_last == o[i].is_last
                        &&& f[i].contains_captures == spec_contains_captures(f, i)
                    }
            }
        }),
        final(self_0).pattern_map == old(self_0).pattern_map,
        final(self_0).captures == old(self_0).captures,
        final(self_0).wildcard_root_pattern_count == old(self_0).wildcard_root_pattern_count,
{
    let id = symbol_table_id_for_name(&self_0.captures, name, length);
    if id != -1 {
        let ghost orig = self_0.steps.contents@;
        let n = self_0.steps.contents.len();
        let mut i: usize = 0;
        while i < n
            invariant
                i <= n,
                n == orig.len(),
                self_0.steps.contents@.len() == n,
                forall|k: int| 0 <= k < i ==> {
                    &&& (#[trigger] self_0.steps.contents@[k]).capture_ids@ == spec_remove_capture(orig[k].capture_ids@, id as u16)
                    &&& self_0.steps.contents@[k].symbol == orig[k].symbol
                    &&& self_0.steps.contents@[k].field == orig[k].field
                    &&& self_0.steps.contents@[k].depth == orig[k].depth
                    &&& self_0.steps.contents@[k].is_immediate == orig[k].is_immediate
                    &&& self_0.steps.contents@[k].is_last == orig[k].is_last
                },
                forall|k: int| i <= k < n ==> #[trigger] self_0.steps.contents@[k] == orig[k],
                self_0.pattern_map == old(self_0).pattern_map,
                self_0.captures == old(self_0).captures,
                self_0.wildcard_root_pattern_count == old(self_0).wildcard_root_pattern_count,
                orig == old(self_0).steps.contents@,
            decreases n - i,
        {
            let mut step = self_0.steps.contents[i];
            query_step__remove_capture(&mut step, id as u16);
            self_0.steps.contents.set(i, step);
            i = i + 1;
        }
        let ghost mid = self_0.steps.contents@;
        ts_query__finalize_steps(self_0);
        proof {
            let f = self_0.steps.contents@;
            assert forall|i: int| 0 <= i < f.len() implies f[i].contains_captures == spec_contains_captures(f, i) by {
                assert(f[i] == spec_finalized(mid)[i]);
                lemma_captures_below_agree(f, mid, i, i + 1);
            }
        }
    }
}

/// Drops a pattern from the pattern map: its steps stay, unread.
pub fn ts_query_disable_pattern(self_0: &mut TSQuery, pattern_index: u32)
    ensures
        final(self_0).pattern_map.contents@ == old(self_0).pattern_map.contents@.filter(
            |e: PatternEntry| e.pattern_index as u32 != pattern_index,
        ),
        final(self_0).pattern_map.capacity == old(self_0).pattern_map.capacity,
        final(self_0).steps == old(self_0).steps,
        final(self_0).captures == old(self_0).captures,
        final(self_0).predicate_values == old(self_0).predicate_values,
        final(self_0).predicate_steps == old(self_0).predicate_steps,
        final(self_0).predicates_by_pattern == old(self_0).predicates_by_pattern,
        final(self_0).start_bytes_by_pattern == old(self_0).start_bytes_by_pattern,
        final(self_0).language == old(self_0).language,
        final(self_0).max_capture_count == old(self_0).max_capture_count,
        final(self_0).wildcard_root_pattern_count == old(self_0).wildcard_root_pattern_count,
        final(self_0).symbol_map == old(self_0).symbol_map,
{
    let ghost orig = self_0.pattern_map.contents@;
    let mut kept: Vec<PatternEntry> = Vec::new();
    let n = self_0.pattern_map.contents.len();
    let mut i: usize = 0;
    while i < n
        invariant
            i <= n,
            n == orig.len(),
            self_0.pattern_map.contents@ == orig,
            kept@ == orig.subrange(0, i as int).filter(|e: PatternEntry| e.pattern_index as u32 != pattern_index),
        decreases n - i,
    {
        let e = self_0.pattern_map.contents[i];
        proof {
            assert(orig.subrange(0, i as int + 1).drop_last() =~= orig.subrange(0, i as int));
            orig.subrange(0, i as int).lemma_filter_push(e, |e: PatternEntry| e.pattern_index as u32 != pattern_index);
            assert(orig.subrange(0, i as int).push(e) =~= orig.subrange(0, i as int + 1));
        }
        if e.pattern_index as u32 != pattern_index {
            kept.push(e);
        }
        i = i + 1;
    }
    proof {
        assert(orig.subrange(0, n as int) =~= orig);
    }
    self_0.pattern_map.contents = kept;
}

} // verus!
