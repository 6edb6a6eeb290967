use vstd::prelude::*;

use std::rc::Rc;

use crate::language::TSSymbolMetadata;
use crate::length::{
    length_add, length_sub, length_zero, spec_length_add, spec_length_sub, spec_length_zero,
    u32_wrapping_add, wadd, wsub, Length, TSInputEdit,
};
use crate::subtree::{
    heap_view, lemma_views_of, spec_child_count, spec_children, spec_extra, spec_has_changes, spec_lookahead_bytes,
    spec_named, spec_padding, spec_size, spec_symbol, spec_visible, spec_total_size, ts_subtree_lookahead_bytes, ts_subtree_padding, ts_subtree_size,
    ts_subtree_to_mut_unsafe, ts_subtree_total_size, empty_leaf, views_of, Edit, MutableSubtree, Subtree,
    SubtreeHeapView, SubtreeInlineData, SubtreePool, SubtreeView,
};
use crate::subtree_build::{heap_leaf, spec_can_inline, spec_heap_leaf, ts_subtree_can_inline};

verus! {

/// An input edit with its positions as lengths.
pub open spec fn spec_edit_of(e: TSInputEdit) -> Edit {
    Edit {
        start: Length { bytes: e.start_byte, extent: e.start_point },
        old_end: Length { bytes: e.old_end_byte, extent: e.old_end_point },
        new_end: Length { bytes: e.new_end_byte, extent: e.new_end_point },
    }
}

/// Whether an edit leaves a subtree alone: it starts after the subtree's end
/// (its lookahead included), or it changes nothing and starts right at that end.
pub open spec fn edit_skips(s: SubtreeView, e: Edit) -> bool {
    let end_byte = wadd(wadd(spec_padding(s).bytes, spec_size(s).bytes), spec_lookahead_bytes(s));
    let is_noop = e.old_end.bytes == e.start.bytes && e.new_end.bytes == e.start.bytes;
    e.start.bytes > end_byte || (is_noop && e.start.bytes == end_byte)
}

/// The padding and size of a subtree after an edit (in the subtree's own
/// coordinates). An edit inside the padding shifts the subtree; one that
/// starts in the padding and reaches into the subtree shrinks it; a pure
/// insertion at its start shifts it; one inside it resizes it.
pub open spec fn edit_bounds(padding: Length, size: Length, e: Edit) -> (Length, Length) {
    let is_pure_insertion = e.old_end.bytes == e.start.bytes;
    if e.old_end.bytes <= padding.bytes {
        (spec_length_add(e.new_end, spec_length_sub(padding, e.old_end)), size)
    } else if e.start.bytes < padding.bytes {
        (e.new_end, spec_length_sub(size, spec_length_sub(e.old_end, padding)))
    } else if e.start.bytes == padding.bytes && is_pure_insertion {
        (e.new_end, size)
    } else {
        let total_bytes = wadd(padding.bytes, size.bytes);
        if e.start.bytes < total_bytes || (e.start.bytes == total_bytes && is_pure_insertion) {
            (
                padding,
                spec_length_add(
                    spec_length_sub(e.new_end, padding),
                    spec_length_sub(size, spec_length_sub(e.old_end, padding)),
                ),
            )
        } else {
            (padding, size)
        }
    }
}

/// An inline leaf with new extents, marked as changed: inline if they still
/// fit, or else moved to the heap.
pub open spec fn edit_inline(d: SubtreeInlineData, padding: Length, size: Length) -> SubtreeView {
    if spec_can_inline(padding, size, d.lookahead_bytes as u32) {
        SubtreeView::Inline(
            SubtreeInlineData {
                padding_bytes: padding.bytes as u8,
                padding_rows: padding.extent.row as u8,
                padding_columns: padding.extent.column as u8,
                size_bytes: size.bytes as u8,
                has_changes: true,
                ..d
            },
        )
    } else {
        SubtreeView::Heap(
            SubtreeHeapView {
                is_missing: d.is_missing,
                has_changes: true,
                ..spec_heap_leaf(
                    d.symbol as u16,
                    padding,
                    size,
                    d.lookahead_bytes as u32,
                    d.parse_state,
                    TSSymbolMetadata { visible: d.visible, named: d.named },
                    d.extra,
                    false,
                    d.is_keyword,
                )
            },
        )
    }
}

/// The edit as seen by a child that spans `left..right` of its parent, clamped
/// to the child's bounds.
pub open spec fn child_edit(e: Edit, left: Length, right: Length, child_size: Length) -> Edit {
    Edit {
        start: if e.start.bytes < left.bytes {
            spec_length_zero()
        } else {
            spec_length_sub(e.start, left)
        },
        old_end: if e.old_end.bytes > right.bytes {
            child_size
        } else if e.old_end.bytes < left.bytes {
            spec_length_zero()
        } else {
            spec_length_sub(e.old_end, left)
        },
        new_end: if e.new_end.bytes < left.bytes {
            spec_length_zero()
        } else {
            spec_length_sub(e.new_end, left)
        },
    }
}

/// A subtree after an edit: skipped subtrees are unchanged; the others get
/// their new padding and size, are marked as changed, and pass the edit on to
/// their children.
pub open spec fn spec_edit(s: SubtreeView, e: Edit) -> SubtreeView
    decreases s, 1int, 0int,
{
    if edit_skips(s, e) {
        s
    } else {
        let (padding, size) = edit_bounds(spec_padding(s), spec_size(s), e);
        match s {
            SubtreeView::Inline(d) => edit_inline(d, padding, size),
            SubtreeView::Heap(h) => SubtreeView::Heap(
                SubtreeHeapView {
                    padding,
                    size,
                    has_changes: true,
                    children: edit_children(
                        h.children,
                        0,
                        spec_length_zero(),
                        e,
                        e.old_end.bytes == e.start.bytes,
                    ),
                    ..h
                },
            ),
        }
    }
}

/// The children `cs[i..]` after an edit, where `right` is where child `i`
/// starts. Children that end before the edit are unchanged; the first child
/// that starts after the edit, and every child after it, too. The text that
/// the edit inserts goes to the first child that touches the edit; the later
/// ones only shrink.
pub open spec fn edit_children(
    cs: Seq<SubtreeView>,
    i: int,
    right: Length,
    e: Edit,
    is_pure_insertion: bool,
) -> Seq<SubtreeView>
    decreases cs, 0int, cs.len() - i,
{
    if i < 0 || i >= cs.len() {
        Seq::empty()
    } else {
        let child = cs[i];
        let child_size = spec_total_size(child);
        let left = right;
        let right2 = spec_length_add(left, child_size);
        if wadd(right2.bytes, spec_lookahead_bytes(child)) < e.start.bytes {
            seq![child] + edit_children(cs, i + 1, right2, e, is_pure_insertion)
        } else if left.bytes > e.old_end.bytes || (left.bytes == e.old_end.bytes && child_size.bytes
            > 0 && i > 0) {
            cs.subrange(i, cs.len() as int)
        } else {
            let ce = child_edit(e, left, right2, child_size);
            if right2.bytes > e.start.bytes || (right2.bytes == e.start.bytes && is_pure_insertion) {
                seq![spec_edit(child, ce)] + edit_children(
                    cs,
                    i + 1,
                    right2,
                    Edit { new_end: e.start, ..e },
                    is_pure_insertion,
                )
            } else {
                seq![spec_edit(child, Edit { old_end: ce.start, new_end: ce.start, ..ce })]
                    + edit_children(cs, i + 1, right2, e, is_pure_insertion)
            }
        }
    }
}

proof fn lemma_bounds_total(p: Length, z: Length, e: Edit)
    requires
        p.bytes + z.bytes <= u32::MAX,
        e.start.bytes < p.bytes + z.bytes || (e.start.bytes == p.bytes + z.bytes && e.old_end.bytes
            == e.start.bytes),
    ensures
        wadd(edit_bounds(p, z, e).0.bytes, edit_bounds(p, z, e).1.bytes) == (p.bytes + z.bytes
            + e.new_end.bytes - e.old_end.bytes) % 0x1_0000_0000,
{
    let (np, ns) = edit_bounds(p, z, e);
    let m: int = 0x1_0000_0000;
    let t: int = p.bytes + z.bytes;
    let n = e.new_end.bytes as int;
    let o = e.old_end.bytes as int;
    let st = e.start.bytes as int;
    assert(wadd(np.bytes, ns.bytes) == (np.bytes + ns.bytes) % m);
    if o <= p.bytes {
        assert(np.bytes == (n + (p.bytes - o)) % m);
        assert(ns.bytes == z.bytes);
        assert((np.bytes + ns.bytes) % m == (t + n - o) % m) by (nonlinear_arith)
            requires
                np.bytes == (n + (p.bytes - o)) % m,
                ns.bytes == z.bytes,
                t == p.bytes + z.bytes,
                m == 0x1_0000_0000,
        ;
    } else if st < p.bytes {
        assert(np.bytes == n);
        assert(wsub(e.old_end.bytes, p.bytes) == o - p.bytes);
        assert(ns.bytes == (z.bytes - (o - p.bytes)) % m);
        assert((np.bytes + ns.bytes) % m == (t + n - o) % m) by (nonlinear_arith)
            requires
                np.bytes == n,
                ns.bytes == (z.bytes - (o - p.bytes)) % m,
                t == p.bytes + z.bytes,
                m == 0x1_0000_0000,
        ;
    } else if st == p.bytes && o == st {
        assert(np.bytes == n && ns.bytes == z.bytes);
    } else {
        let a = wsub(e.new_end.bytes, p.bytes);
        let b = wsub(z.bytes, wsub(e.old_end.bytes, p.bytes));
        assert(np.bytes == p.bytes);
        assert(ns.bytes == wadd(a, b));
        assert(wadd(a, b) == (a + b) % m);
        assert(a == (n - p.bytes) % m);
        assert(o >= p.bytes);
        assert(b == (z.bytes - (o - p.bytes)) % m);
        assert((np.bytes + ns.bytes) % m == (t + n - o) % m) by (nonlinear_arith)
            requires
                np.bytes == p.bytes,
                ns.bytes == (a + b) % m,
                a == (n - p.bytes) % m,
                b == (z.bytes - (o - p.bytes)) % m,
                t == p.bytes + z.bytes,
                m == 0x1_0000_0000,
        ;
    }
}

proof fn lemma_edit_sizes(s: SubtreeView, e: Edit)
    requires
        !edit_skips(s, e),
        s is Inline ==> edit_bounds(spec_padding(s), spec_size(s), e).1.bytes < 256,
    ensures
        spec_padding(spec_edit(s, e)).bytes == edit_bounds(spec_padding(s), spec_size(s), e).0.bytes,
        spec_size(spec_edit(s, e)).bytes == edit_bounds(spec_padding(s), spec_size(s), e).1.bytes,
{
}

/// An edit that starts within a subtree (or inserts right at its end)
/// changes its total size by what it inserts less what it removes: the bytes
/// from `start` to `old_end` give way to those from `start` to `new_end`,
/// wrapping around as `u32`. Where the subtree is an inline leaf, its new
/// size must fit in the leaf's byte.
pub proof fn lemma_edit_total_size(s: SubtreeView, e: Edit)
    requires
        spec_padding(s).bytes + spec_size(s).bytes + spec_lookahead_bytes(s) <= u32::MAX,
        e.start.bytes < spec_total_size(s).bytes || (e.start.bytes == spec_total_size(s).bytes
            && e.old_end.bytes == e.start.bytes),
        s is Inline ==> edit_bounds(spec_padding(s), spec_size(s), e).1.bytes < 256,
    ensures
        spec_total_size(spec_edit(s, e)).bytes == (spec_total_size(s).bytes + e.new_end.bytes
            - e.old_end.bytes) % 0x1_0000_0000,
{
    let t = spec_total_size(s).bytes;
    assert(t == spec_padding(s).bytes + spec_size(s).bytes);
    if edit_skips(s, e) {
        assert(e.new_end.bytes == e.old_end.bytes);
        assert((t + e.new_end.bytes - e.old_end.bytes) % 0x1_0000_0000 == t);
    } else {
        lemma_edit_sizes(s, e);
        lemma_bounds_total(spec_padding(s), spec_size(s), e);
    }
}

proof fn lemma_edit_children_len(
    cs: Seq<SubtreeView>,
    i: int,
    right: Length,
    e: Edit,
    is_pure_insertion: bool,
)
    requires
        0 <= i <= cs.len(),
    ensures
        edit_children(cs, i, right, e, is_pure_insertion).len() == cs.len() - i,
    decreases cs.len() - i,
{
    if i < cs.len() {
        let child = cs[i];
        let right2 = spec_length_add(right, spec_total_size(child));
        lemma_edit_children_len(cs, i + 1, right2, e, is_pure_insertion);
        lemma_edit_children_len(cs, i + 1, right2, Edit { new_end: e.start, ..e }, is_pure_insertion);
    }
}

/// Two subtrees have the same shape: the same symbol, visibility, namedness
/// and extra flag, the same number of children, and children of the same
/// shapes.
pub open spec fn same_shape(a: SubtreeView, b: SubtreeView) -> bool
    decreases a,
{
    &&& spec_symbol(a) == spec_symbol(b)
    &&& spec_visible(a) == spec_visible(b)
    &&& spec_named(a) == spec_named(b)
    &&& spec_extra(a) == spec_extra(b)
    &&& spec_child_count(a) == spec_child_count(b)
    &&& match a {
        SubtreeView::Inline(_) => true,
        SubtreeView::Heap(x) => forall|i: int|
            0 <= i < x.children.len() ==> same_shape(#[trigger] x.children[i], spec_children(b)[i]),
    }
}

/// Every subtree has its own shape.
pub proof fn lemma_same_shape_reflexive(a: SubtreeView)
    ensures
        same_shape(a, a),
    decreases a,
{
    if let SubtreeView::Heap(x) = a {
        assert forall|i: int| 0 <= i < x.children.len() implies same_shape(
            #[trigger] x.children[i],
            spec_children(a)[i],
        ) by {
            lemma_same_shape_reflexive(x.children[i]);
        }
    }
}

/// An edit changes extents and change marks only: the edited tree has the
/// shape of the tree before the edit.
pub proof fn lemma_edit_preserves_shape(s: SubtreeView, e: Edit)
    ensures
        same_shape(s, spec_edit(s, e)),
    decreases s, 1int, 0int,
{
    if edit_skips(s, e) {
        lemma_same_shape_reflexive(s);
    } else {
        match s {
            SubtreeView::Inline(d) => {},
            SubtreeView::Heap(h) => {
                let pure = e.old_end.bytes == e.start.bytes;
                let r = spec_edit(s, e);
                lemma_edit_children_len(h.children, 0, spec_length_zero(), e, pure);
                lemma_edit_children_shape(h.children, 0, spec_length_zero(), e, pure);
                let rc = edit_children(h.children, 0, spec_length_zero(), e, pure);
                assert(spec_children(r) == rc);
                assert forall|i: int| 0 <= i < h.children.len() implies same_shape(
                    #[trigger] h.children[i],
                    spec_children(r)[i],
                ) by {
                    assert(same_shape(h.children[0 + i], rc[i]));
                }
            },
        }
    }
}

proof fn lemma_edit_children_shape(
    cs: Seq<SubtreeView>,
    i: int,
    right: Length,
    e: Edit,
    pure: bool,
)
    requires
        0 <= i <= cs.len(),
    ensures
        forall|k: int|
            0 <= k < cs.len() - i ==> same_shape(
                cs[i + k],
                #[trigger] edit_children(cs, i, right, e, pure)[k],
            ),
    decreases cs, 0int, cs.len() - i,
{
    if i < cs.len() {
        let child = cs[i];
        let child_size = spec_total_size(child);
        let right2 = spec_length_add(right, child_size);
        let r = edit_children(cs, i, right, e, pure);
        if wadd(right2.bytes, spec_lookahead_bytes(child)) < e.start.bytes {
            let tail = edit_children(cs, i + 1, right2, e, pure);
            lemma_edit_children_shape(cs, i + 1, right2, e, pure);
            lemma_edit_children_len(cs, i + 1, right2, e, pure);
            lemma_same_shape_reflexive(child);
            assert(r == seq![child] + tail);
            assert forall|k: int| 0 <= k < cs.len() - i implies same_shape(
                cs[i + k],
                #[trigger] r[k],
            ) by {
                if k > 0 {
                    assert(r[k] == tail[k - 1]);
                    assert(same_shape(cs[(i + 1) + (k - 1)], tail[k - 1]));
                }
            }
        } else if right.bytes > e.old_end.bytes || (right.bytes == e.old_end.bytes
            && child_size.bytes > 0 && i > 0) {
            assert forall|k: int| 0 <= k < cs.len() - i implies same_shape(
                cs[i + k],
                #[trigger] r[k],
            ) by {
                lemma_same_shape_reflexive(cs[i + k]);
            }
        } else {
            let ce = child_edit(e, right, right2, child_size);
            if right2.bytes > e.start.bytes || (right2.bytes == e.start.bytes && pure) {
                let e2 = Edit { new_end: e.start, ..e };
                let tail = edit_children(cs, i + 1, right2, e2, pure);
                lemma_edit_children_shape(cs, i + 1, right2, e2, pure);
                lemma_edit_children_len(cs, i + 1, right2, e2, pure);
                lemma_edit_preserves_shape(child, ce);
                assert(r == seq![spec_edit(child, ce)] + tail);
                assert forall|k: int| 0 <= k < cs.len() - i implies same_shape(
                    cs[i + k],
                    #[trigger] r[k],
                ) by {
                    if k > 0 {
                        assert(r[k] == tail[k - 1]);
                        assert(same_shape(cs[(i + 1) + (k - 1)], tail[k - 1]));
                    }
                }
            } else {
                let ce2 = Edit { old_end: ce.start, new_end: ce.start, ..ce };
                let tail = edit_children(cs, i + 1, right2, e, pure);
                lemma_edit_children_shape(cs, i + 1, right2, e, pure);
                lemma_edit_children_len(cs, i + 1, right2, e, pure);
                lemma_edit_preserves_shape(child, ce2);
                assert(r == seq![spec_edit(child, ce2)] + tail);
                assert forall|k: int| 0 <= k < cs.len() - i implies same_shape(
                    cs[i + k],
                    #[trigger] r[k],
                ) by {
                    if k > 0 {
                        assert(r[k] == tail[k - 1]);
                        assert(same_shape(cs[(i + 1) + (k - 1)], tail[k - 1]));
                    }
                }
            }
        }
    }
}

fn edit_bounds_exec(padding: Length, size: Length, e: Edit) -> (r: (Length, Length))
    ensures
        r == edit_bounds(padding, size, e),
{
    let is_pure_insertion = e.old_end.bytes == e.start.bytes;
    if e.old_end.bytes <= padding.bytes {
        (length_add(e.new_end, length_sub(padding, e.old_end)), size)
    } else if e.start.bytes < padding.bytes {
        (e.new_end, length_sub(size, length_sub(e.old_end, padding)))
    } else if e.start.bytes == padding.bytes && is_pure_insertion {
        (e.new_end, size)
    } else {
        let total_bytes = u32_wrapping_add(padding.bytes, size.bytes);
        if e.start.bytes < total_bytes || (e.start.bytes == total_bytes && is_pure_insertion) {
            (
                padding,
                length_add(
                    length_sub(e.new_end, padding),
                    length_sub(size, length_sub(e.old_end, padding)),
                ),
            )
        } else {
            (padding, size)
        }
    }
}

fn child_edit_exec(e: Edit, left: Length, right: Length, child_size: Length) -> (r: Edit)
    ensures
        r == child_edit(e, left, right, child_size),
{
    let mut ce = Edit {
        start: length_sub(e.start, left),
        old_end: length_sub(e.old_end, left),
        new_end: length_sub(e.new_end, left),
    };
    if e.start.bytes < left.bytes {
        ce.start = length_zero();
    }
    if e.old_end.bytes < left.bytes {
        ce.old_end = length_zero();
    }
    if e.new_end.bytes < left.bytes {
        ce.new_end = length_zero();
    }
    if e.old_end.bytes > right.bytes {
        ce.old_end = child_size;
    }
    ce
}

fn edit_inline_exec(d: SubtreeInlineData, padding: Length, size: Length) -> (r: Subtree)
    ensures
        r@ == edit_inline(d, padding, size),
{
    if ts_subtree_can_inline(padding, size, d.lookahead_bytes as u32) {
        Subtree::Inline(
            SubtreeInlineData {
                padding_bytes: padding.bytes as u8,
                padding_rows: padding.extent.row as u8,
                padding_columns: padding.extent.column as u8,
                size_bytes: size.bytes as u8,
                has_changes: true,
                ..d
            },
        )
    } else {
        let mut h = heap_leaf(
            d.symbol as u16,
            padding,
            size,
            d.lookahead_bytes as u32,
            d.parse_state,
            TSSymbolMetadata { visible: d.visible, named: d.named },
            d.extra,
            false,
            d.is_keyword,
        );
        h.is_missing = d.is_missing;
        h.has_changes = true;
        proof {
            assert(heap_view(h) =~= SubtreeHeapView {
                is_missing: d.is_missing,
                has_changes: true,
                ..spec_heap_leaf(
                    d.symbol as u16,
                    padding,
                    size,
                    d.lookahead_bytes as u32,
                    d.parse_state,
                    TSSymbolMetadata { visible: d.visible, named: d.named },
                    d.extra,
                    false,
                    d.is_keyword,
                )
            });
        }
        Subtree::Heap(Rc::new(h))
    }
}

/// Applies an edit to a subtree and, as far as it reaches, to its descendants.
fn edit_node(s: Subtree, e: Edit) -> (r: Subtree)
    ensures
        r@ == spec_edit(s@, e),
    decreases s@,
{
    let ghost sv = s@;
    let padding0 = ts_subtree_padding(&s);
    let size0 = ts_subtree_size(&s);
    let lookahead_bytes = ts_subtree_lookahead_bytes(&s);
    let end_byte = u32_wrapping_add(u32_wrapping_add(padding0.bytes, size0.bytes), lookahead_bytes);
    let is_noop = e.old_end.bytes == e.start.bytes && e.new_end.bytes == e.start.bytes;
    let is_pure_insertion = e.old_end.bytes == e.start.bytes;
    if e.start.bytes > end_byte || (is_noop && e.start.bytes == end_byte) {
        return s;
    }
    let (padding, size) = edit_bounds_exec(padding0, size0, e);
    match ts_subtree_to_mut_unsafe(s) {
        MutableSubtree::Inline(d) => edit_inline_exec(d, padding, size),
        MutableSubtree::Heap(d) => {
            let mut d = d;
            let ghost h0 = heap_view(d);
            let ghost orig: Seq<SubtreeView> = spec_children(sv);
            let ghost result: Seq<SubtreeView> = edit_children(
                orig,
                0,
                spec_length_zero(),
                e,
                is_pure_insertion,
            );
            proof {
                lemma_views_of(d.children@);
                lemma_edit_children_len(orig, 0, spec_length_zero(), e, is_pure_insertion);
                assert(result.subrange(0, orig.len() as int) =~= result);
            }
            d.padding = padding;
            d.size = size;
            d.has_changes = true;
            let mut children: Vec<Subtree> = Vec::new();
            std::mem::swap(&mut children, &mut d.children);
            let n = children.len();
            let mut i: usize = 0;
            let mut child_right = length_zero();
            let mut cur = e;
            while i < n
                invariant_except_break
                    i <= n,
                    n == orig.len(),
                    children@.len() == n,
                    forall|j: int| i <= j < n ==> (#[trigger] children@[j])@ == orig[j],
                    forall|j: int| 0 <= j < i ==> (#[trigger] children@[j])@ == result[j],
                    result.subrange(i as int, n as int) == edit_children(
                        orig,
                        i as int,
                        child_right,
                        cur,
                        is_pure_insertion,
                    ),
                    cur.start == e.start,
                    cur.old_end == e.old_end,
                    orig == spec_children(sv),
                    sv == SubtreeView::Heap(h0),
                    sv == s@,
                    orig == h0.children,
                    result.len() == n,
                invariant
                    children@.len() == n,
                ensures
                    forall|j: int| 0 <= j < n ==> (#[trigger] children@[j])@ == result[j],
                decreases n - i,
            {
                proof {
                    lemma_edit_children_len(orig, i as int + 1, spec_length_add(child_right, spec_total_size(orig[i as int])), cur, is_pure_insertion);
                    lemma_edit_children_len(orig, i as int + 1, spec_length_add(child_right, spec_total_size(orig[i as int])), Edit { new_end: cur.start, ..cur }, is_pure_insertion);
                }
                let child_size = ts_subtree_total_size(&children[i]);
                let child_left = child_right;
                child_right = length_add(child_left, child_size);
                let child_lookahead = ts_subtree_lookahead_bytes(&children[i]);
                if u32_wrapping_add(child_right.bytes, child_lookahead) < cur.start.bytes {
                    proof {
                        assert(result[i as int] == result.subrange(i as int, n as int)[0]);
                        assert(result.subrange(i as int + 1, n as int) =~= result.subrange(
                            i as int,
                            n as int,
                        ).subrange(1, n - i));
                    }
                    i = i + 1;
                } else if child_left.bytes > cur.old_end.bytes || (child_left.bytes
                    == cur.old_end.bytes && child_size.bytes > 0 && i > 0) {
                    proof {
                        assert forall|j: int| 0 <= j < n implies (#[trigger] children@[j])@
                            == result[j] by {
                            if j >= i {
                                assert(result[j] == result.subrange(i as int, n as int)[j - i]);
                            }
                        }
                    }
                    break;
                } else {
                    let ce = child_edit_exec(cur, child_left, child_right, child_size);
                    let child_e = if child_right.bytes > cur.start.bytes || (child_right.bytes
                        == cur.start.bytes && is_pure_insertion) {
                        cur.new_end = cur.start;
                        ce
                    } else {
                        Edit { old_end: ce.start, new_end: ce.start, ..ce }
                    };
                    let mut child = empty_leaf();
                    std::mem::swap(&mut child, &mut children[i]);
                    assert(child@ == orig[i as int]);
                    proof {
                        assert(sv == SubtreeView::Heap(h0));
                        assert(decreases_to!(sv => h0));
                        assert(decreases_to!(h0 => h0.children));
                        assert(decreases_to!(h0.children => h0.children[i as int]));
                        assert(decreases_to!(sv => child@));
                    }
                    let edited = edit_node(child, child_e);
                    children.set(i, edited);
                    proof {
                        assert(result.subrange(i as int + 1, n as int) =~= result.subrange(
                            i as int,
                            n as int,
                        ).subrange(1, n - i));
                        assert(result[i as int] == result.subrange(i as int, n as int)[0]);
                    }
                    i = i + 1;
                }
            }
            d.children = children;
            proof {
                lemma_views_of(d.children@);
                assert(views_of(d.children@) =~= result);
                assert(heap_view(d) =~= SubtreeHeapView {
                    padding,
                    size,
                    has_changes: true,
                    children: result,
                    ..h0
                });
            }
            Subtree::Heap(Rc::new(d))
        },
    }
}

/// Applies an edit to a tree: each subtree that the edit reaches gets its new
/// padding and size and is marked as changed.
pub fn ts_subtree_edit(self_0: Subtree, edit: &TSInputEdit, pool: &mut SubtreePool) -> (r: Subtree)
    ensures
        r@ == spec_edit(self_0@, spec_edit_of(*edit)),
        edit_skips(self_0@, spec_edit_of(*edit)) ==> r@ == self_0@,
        !edit_skips(self_0@, spec_edit_of(*edit)) ==> spec_has_changes(r@),
        *final(pool) == *old(pool),
{
    let e = Edit {
        start: Length { bytes: edit.start_byte, extent: edit.start_point },
        old_end: Length { bytes: edit.old_end_byte, extent: edit.old_end_point },
        new_end: Length { bytes: edit.new_end_byte, extent: edit.new_end_point },
    };
    edit_node(self_0, e)
}

} // verus!
