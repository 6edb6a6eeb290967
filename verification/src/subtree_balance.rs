use vstd::prelude::*;

use std::rc::Rc;

use crate::array::VoidArray;
use crate::language::TSLanguage;
use crate::subtree::{
    spec_child_count,
    empty_leaf, heap_view, lemma_children_wf, lemma_views_of, spec_repeat_depth, spec_symbol,
    subtree_wf, ts_subtree_repeat_depth, views_of, Subtree, SubtreeHeapData, SubtreeHeapView,
    SubtreePool, SubtreeView, children_wf,
};
use crate::subtree_build::{
    lemma_rows_nonneg, lemma_set_children_sums, rows_of, spec_set_children, total_sizes,
    ts_subtree_set_children,
};
use crate::subtree::{spec_padding, spec_size, spec_total_size};
use crate::length::{spec_length_add, spec_length_zero};

verus! {

/// The leaves of a subtree, left to right: the subtree itself when it has no
/// children.
pub open spec fn spec_leaves(s: SubtreeView) -> Seq<SubtreeView>
    decreases s, 1int,
{
    match s {
        SubtreeView::Heap(h) => if h.children.len() == 0 {
            seq![s]
        } else {
            leaves_of(h.children)
        },
        SubtreeView::Inline(_) => seq![s],
    }
}

/// The leaves of a run of subtrees, left to right.
pub open spec fn leaves_of(cs: Seq<SubtreeView>) -> Seq<SubtreeView>
    decreases cs, 0int,
{
    if cs.len() == 0 {
        Seq::empty()
    } else {
        leaves_of(cs.drop_last()) + spec_leaves(cs.last())
    }
}

/// The number of nodes in a subtree, the subtree itself included.
pub open spec fn node_total(s: SubtreeView) -> nat
    decreases s, 1int,
{
    match s {
        SubtreeView::Heap(h) => 1 + nodes_of(h.children),
        SubtreeView::Inline(_) => 1,
    }
}

/// The number of nodes in a run of subtrees.
pub open spec fn nodes_of(cs: Seq<SubtreeView>) -> nat
    decreases cs, 0int,
{
    if cs.len() == 0 {
        0
    } else {
        nodes_of(cs.drop_last()) + node_total(cs.last())
    }
}

pub(crate) proof fn lemma_leaves_of_append(a: Seq<SubtreeView>, b: Seq<SubtreeView>)
    ensures
        leaves_of(a + b) == leaves_of(a) + leaves_of(b),
        nodes_of(a + b) == nodes_of(a) + nodes_of(b),
    decreases b.len(),
{
    if b.len() == 0 {
        assert(a + b =~= a);
        assert(leaves_of(a) + leaves_of(b) =~= leaves_of(a));
    } else {
        lemma_leaves_of_append(a, b.drop_last());
        assert((a + b).drop_last() =~= a + b.drop_last());
        assert((a + b).last() == b.last());
        assert(leaves_of(a) + leaves_of(b) =~= leaves_of(a) + leaves_of(b.drop_last()) + spec_leaves(
            b.last(),
        ));
    }
}

proof fn lemma_leaves_of_single(x: SubtreeView)
    ensures
        leaves_of(seq![x]) == spec_leaves(x),
        nodes_of(seq![x]) == node_total(x),
{
    let e = Seq::<SubtreeView>::empty();
    assert(seq![x].drop_last() =~= e);
    assert(seq![x].last() == x);
    assert(leaves_of(e) == e);
    assert(nodes_of(e) == 0);
    assert(e + spec_leaves(x) =~= spec_leaves(x));
}

/// Runs whose elements have, one for one, the same leaves and node counts
/// have the same leaves and node count.
proof fn lemma_leaves_of_pointwise(a: Seq<SubtreeView>, b: Seq<SubtreeView>)
    requires
        a.len() == b.len(),
        forall|i: int| 0 <= i < a.len() ==> spec_leaves(#[trigger] a[i]) == spec_leaves(b[i]),
        forall|i: int| 0 <= i < a.len() ==> node_total(#[trigger] a[i]) == node_total(b[i]),
    ensures
        leaves_of(a) == leaves_of(b),
        nodes_of(a) == nodes_of(b),
    decreases a.len(),
{
    if a.len() > 0 {
        assert forall|i: int| 0 <= i < a.len() - 1 implies spec_leaves(#[trigger] a.drop_last()[i])
            == spec_leaves(b.drop_last()[i]) && node_total(a.drop_last()[i]) == node_total(
            b.drop_last()[i],
        ) by {
            assert(a.drop_last()[i] == a[i]);
            assert(b.drop_last()[i] == b[i]);
        }
        lemma_leaves_of_pointwise(a.drop_last(), b.drop_last());
        assert(spec_leaves(a[a.len() - 1]) == spec_leaves(b[b.len() - 1]));
        assert(node_total(a[a.len() - 1]) == node_total(b[b.len() - 1]));
    }
}

/// The leaves and node count of a node, from those of its children.
proof fn lemma_heap_totals(h: SubtreeHeapView)
    ensures
        node_total(SubtreeView::Heap(h)) == 1 + nodes_of(h.children),
        h.children.len() > 0 ==> spec_leaves(SubtreeView::Heap(h)) == leaves_of(h.children),
{
}

/// Each subtree of a run has at most as many nodes as the run.
proof fn lemma_nodes_of_element(cs: Seq<SubtreeView>, i: int)
    requires
        0 <= i < cs.len(),
    ensures
        node_total(cs[i]) <= nodes_of(cs),
    decreases cs.len(),
{
    if i < cs.len() - 1 {
        lemma_nodes_of_element(cs.drop_last(), i);
        assert(cs.drop_last()[i] == cs[i]);
    }
}

/// A node with its children replaced by `cs` and its summary recomputed is
/// well formed when its children are.
pub(crate) proof fn lemma_set_children_wf(d: SubtreeHeapView, cs: Seq<SubtreeView>, l: &TSLanguage)
    requires
        cs.len() <= u32::MAX,
        d.external_scanner_state.len() <= u32::MAX,
        forall|i: int| 0 <= i < cs.len() ==> subtree_wf(#[trigger] cs[i]),
    ensures
        subtree_wf(SubtreeView::Heap(spec_set_children(d, cs, l))),
        spec_set_children(d, cs, l).children == cs,
        spec_set_children(d, cs, l).symbol == d.symbol,
{
    lemma_children_wf(cs);
}

proof fn lemma_wf_children(h: SubtreeHeapView)
    requires
        subtree_wf(SubtreeView::Heap(h)),
    ensures
        forall|i: int| 0 <= i < h.children.len() ==> subtree_wf(#[trigger] h.children[i]),
        h.children.len() <= u32::MAX,
        h.external_scanner_state.len() <= u32::MAX,
{
    lemma_children_wf(h.children);
}

/// Takes the children out of a node, leaving it childless.
fn take_children(d: &mut SubtreeHeapData) -> (cs: Vec<Subtree>)
    ensures
        cs@ == old(d).children@,
        final(d).children@.len() == 0,
        heap_view(*final(d)) == (SubtreeHeapView {
            children: Seq::empty(),
            ..heap_view(*old(d))
        }),
{
    let mut cs: Vec<Subtree> = Vec::new();
    std::mem::swap(&mut cs, &mut d.children);
    proof {
        assert(views_of(d.children@) =~= Seq::<SubtreeView>::empty());
        assert(heap_view(*d) =~= SubtreeHeapView { children: Seq::empty(), ..heap_view(*old(d)) });
    }
    cs
}

/// Recomputes the summary of a node from its own children.
fn refresh(d: &mut SubtreeHeapData, language: &TSLanguage)
    requires
        subtree_wf(SubtreeView::Heap(heap_view(*old(d)))),
    ensures
        heap_view(*final(d)) == spec_set_children(
            heap_view(*old(d)),
            heap_view(*old(d)).children,
            language,
        ),
        subtree_wf(SubtreeView::Heap(heap_view(*final(d)))),
{
    proof {
        lemma_wf_children(heap_view(*d));
        lemma_views_of(d.children@);
    }
    let ghost before = heap_view(*d);
    let cs = take_children(d);
    proof {
        assert forall|i: int| 0 <= i < cs@.len() implies subtree_wf(#[trigger] cs@[i]@) by {
            assert(before.children[i] == cs@[i]@);
        }
    }
    ts_subtree_set_children(d, cs, language);
    proof {
        assert(heap_view(*old(d)) == before);
        assert(spec_set_children(SubtreeHeapView { children: Seq::empty(), ..before }, before.children, language)
            =~= spec_set_children(before, before.children, language));
        lemma_set_children_wf(before, before.children, language);
    }
}

/// `after` is a well-formed subtree with the leaves, the number of nodes and
/// the symbol of `before`.
#[verifier::opaque]
pub open spec fn rebalanced(before: SubtreeView, after: SubtreeView) -> bool {
    &&& subtree_wf(after)
    &&& spec_leaves(after) == spec_leaves(before)
    &&& node_total(after) == node_total(before)
    &&& spec_symbol(after) == spec_symbol(before)
}

proof fn lemma_rebalanced_refl(a: SubtreeView)
    requires
        subtree_wf(a),
    ensures
        rebalanced(a, a),
{
    reveal(rebalanced);
}

proof fn lemma_rebalanced_trans(a: SubtreeView, b: SubtreeView, c: SubtreeView)
    requires
        rebalanced(a, b),
        rebalanced(b, c),
    ensures
        rebalanced(a, c),
{
    reveal(rebalanced);
}

proof fn lemma_rebalanced_wf(a: SubtreeView, b: SubtreeView)
    requires
        rebalanced(a, b),
    ensures
        subtree_wf(b),
        spec_symbol(b) == spec_symbol(a),
{
    reveal(rebalanced);
}

/// A node's view with other children.
pub open spec fn with_children(h: SubtreeHeapView, cs: Seq<SubtreeView>) -> SubtreeHeapView {
    SubtreeHeapView { children: cs, ..h }
}

/// `t` after `k` levels of the rotation of `ts_subtree__compress` for the
/// symbol `symbol`: where `t` has two children or more, its first child `c`
/// and `c`'s first child `g` have the symbol and two children or more, `c`
/// takes `g`'s last child as its first, `g` takes `c` as its last child and
/// is rotated `k - 1` levels further, then `g` takes `c`'s place in `t`; the
/// summaries of `c`, `g` and `t` are computed again from their new children.
/// Otherwise, or at `k == 0`, `t` as it is.
pub open spec fn spec_compress(t: SubtreeHeapView, k: nat, symbol: u16, l: &TSLanguage) -> SubtreeHeapView
    decreases k,
{
    if k == 0 || t.children.len() < 2 {
        t
    } else {
        match t.children[0] {
            SubtreeView::Heap(c) => if c.children.len() >= 2 && c.symbol == symbol {
                match c.children[0] {
                    SubtreeView::Heap(g) => if g.children.len() >= 2 && g.symbol == symbol {
                        let c2 = spec_set_children(
                            with_children(c, Seq::empty()),
                            seq![g.children[g.children.len() - 1]] + c.children.subrange(1, c.children.len() as int),
                            l,
                        );
                        let g1 = with_children(
                            g,
                            g.children.subrange(0, g.children.len() - 1) + seq![SubtreeView::Heap(c2)],
                        );
                        let g2 = spec_compress(g1, (k - 1) as nat, symbol, l);
                        let g3 = spec_set_children(g2, g2.children, l);
                        spec_set_children(
                            with_children(t, Seq::empty()),
                            seq![SubtreeView::Heap(g3)] + t.children.subrange(1, t.children.len() as int),
                            l,
                        )
                    } else {
                        t
                    },
                    SubtreeView::Inline(_) => t,
                }
            } else {
                t
            },
            SubtreeView::Inline(_) => t,
        }
    }
}

/// How many levels `ts_subtree__compress` rotates below `t`, at most `k`,
/// where `unique` says, for each node down `t`'s chain of first children
/// (its first child, that child's first child, and so on), whether nobody
/// else holds it: a level is rotated where `spec_compress` rotates it and
/// nobody else holds the child and the grandchild it moves.
pub open spec fn compress_levels(t: SubtreeHeapView, k: nat, unique: Seq<bool>, symbol: u16, l: &TSLanguage) -> nat
    decreases k,
{
    if k == 0 || t.children.len() < 2 || unique.len() < 2 || !(unique[0] && unique[1]) {
        0
    } else {
        match t.children[0] {
            SubtreeView::Heap(c) => if c.children.len() >= 2 && c.symbol == symbol {
                match c.children[0] {
                    SubtreeView::Heap(g) => if g.children.len() >= 2 && g.symbol == symbol {
                        let c2 = spec_set_children(
                            with_children(c, Seq::empty()),
                            seq![g.children[g.children.len() - 1]] + c.children.subrange(1, c.children.len() as int),
                            l,
                        );
                        let g1 = with_children(
                            g,
                            g.children.subrange(0, g.children.len() - 1) + seq![SubtreeView::Heap(c2)],
                        );
                        1 + compress_levels(g1, (k - 1) as nat, unique.subrange(2, unique.len() as int), symbol, l)
                    } else {
                        0
                    },
                    SubtreeView::Inline(_) => 0,
                }
            } else {
                0
            },
            SubtreeView::Inline(_) => 0,
        }
    }
}

proof fn lemma_levels_bound(t: SubtreeHeapView, k: nat, unique: Seq<bool>, symbol: u16, l: &TSLanguage)
    ensures
        compress_levels(t, k, unique, symbol, l) <= k,
        2 * compress_levels(t, k, unique, symbol, l) <= unique.len(),
        forall|i: int|
            0 <= i < 2 * compress_levels(t, k, unique, symbol, l) ==> #[trigger] unique[i],
    decreases k,
{
    if compress_levels(t, k, unique, symbol, l) > 0 {
        let c = t.children[0]->Heap_0;
        let g = c.children[0]->Heap_0;
        let c2 = spec_set_children(
            with_children(c, Seq::empty()),
            seq![g.children[g.children.len() - 1]] + c.children.subrange(1, c.children.len() as int),
            l,
        );
        let g1 = with_children(
            g,
            g.children.subrange(0, g.children.len() - 1) + seq![SubtreeView::Heap(c2)],
        );
        let rest = unique.subrange(2, unique.len() as int);
        assert(compress_levels(t, k, unique, symbol, l) == 1 + compress_levels(g1, (k - 1) as nat, rest, symbol, l));
        lemma_levels_bound(g1, (k - 1) as nat, rest, symbol, l);
        assert forall|i: int| 0 <= i < 2 * compress_levels(t, k, unique, symbol, l) implies #[trigger] unique[i] by {
            if i >= 2 {
                assert(unique[i] == rest[i - 2]);
            }
        }
    }
}

/// Which nodes nobody else holds, down a node's chain of first children,
/// after `j` levels of rotation: the grandchildren that moved up, then the
/// rest of the chain as it was.
pub open spec fn answers_after(unique: Seq<bool>, j: nat) -> Seq<bool> {
    Seq::new(j, |k: int| unique[2 * k + 1]) + unique.subrange(2 * j as int, unique.len() as int)
}

/// The rounds of rotation at a node: rounds of `ts_subtree__compress` of
/// `i` levels, then half as many, and so on down to one, each with what
/// `unique` says of the chain of first children at that round.
pub open spec fn spec_rounds(t: SubtreeHeapView, i: nat, unique: Seq<bool>, l: &TSLanguage) -> SubtreeHeapView
    decreases i,
{
    if i == 0 {
        t
    } else {
        let j = compress_levels(t, i, unique, t.symbol, l);
        spec_rounds(spec_compress(t, j, t.symbol, l), i / 2, answers_after(unique, j), l)
    }
}

/// What balancing does at a node that nobody else holds, before it goes on
/// to the children: where the node repeats and its first child repeats
/// deeper than its last, rounds of half the difference, a quarter, and so on
/// (see `spec_rounds`); otherwise nothing.
pub open spec fn spec_node_rounds(t: SubtreeHeapView, unique: Seq<bool>, l: &TSLanguage) -> SubtreeHeapView {
    if t.repeat_depth > 0 && t.children.len() > 0 && spec_repeat_depth(t.children[0]) > spec_repeat_depth(
        t.children[t.children.len() - 1],
    ) {
        spec_rounds(
            t,
            ((spec_repeat_depth(t.children[0]) - spec_repeat_depth(t.children[t.children.len() - 1])) / 2) as nat,
            unique,
            l,
        )
    } else {
        t
    }
}

/// Whether `r` is the heap node `s` after its rounds of rotation, with
/// `unique` answering for `s`'s chain of first children, and children that
/// each keep what they replace (see `rounds_then_children`).
pub open spec fn balanced_root(s: SubtreeView, unique: Seq<bool>, l: &TSLanguage, r: SubtreeView) -> bool {
    &&& s is Heap
    &&& r is Heap
    &&& rounds_then_children(s->Heap_0, unique, l, r->Heap_0)
}

/// Whether `h` is `h0` after its rounds of rotation (see
/// `spec_node_rounds`), with children that each keep the leaves, the number
/// of nodes and the symbol of the child they replace.
pub open spec fn rounds_then_children(h0: SubtreeHeapView, unique: Seq<bool>, l: &TSLanguage, h: SubtreeHeapView) -> bool {
    let m = spec_node_rounds(h0, unique, l);
    &&& h == with_children(m, h.children)
    &&& h.children.len() == m.children.len()
    &&& forall|i: int|
        0 <= i < h.children.len() ==> {
            &&& spec_leaves(#[trigger] h.children[i]) == spec_leaves(m.children[i])
            &&& node_total(h.children[i]) == node_total(m.children[i])
            &&& spec_symbol(h.children[i]) == spec_symbol(m.children[i])
        }
}

/// Whether each node with children, down the whole subtree, spans what its
/// children span one after the other, and their lines fit in `u32`.
pub open spec fn sizes_summed(t: SubtreeView) -> bool
    decreases t, 1int,
{
    match t {
        SubtreeView::Heap(h) => sizes_summed_all(h.children) && (h.children.len() > 0 ==> {
            &&& rows_of(h.children) <= u32::MAX
            &&& h.padding.extent.row + h.size.extent.row == rows_of(h.children)
            &&& spec_total_size(t) == total_sizes(h.children)
        }),
        SubtreeView::Inline(_) => true,
    }
}

pub open spec fn sizes_summed_all(cs: Seq<SubtreeView>) -> bool
    decreases cs, 0int,
{
    if cs.len() == 0 {
        true
    } else {
        sizes_summed_all(cs.drop_last()) && sizes_summed(cs.last())
    }
}

proof fn lemma_summed_all(cs: Seq<SubtreeView>)
    ensures
        sizes_summed_all(cs) <==> forall|i: int| 0 <= i < cs.len() ==> sizes_summed(#[trigger] cs[i]),
    decreases cs.len(),
{
    if cs.len() > 0 {
        let d = cs.drop_last();
        lemma_summed_all(d);
        if sizes_summed_all(cs) {
            assert forall|i: int| 0 <= i < cs.len() implies sizes_summed(#[trigger] cs[i]) by {
                if i < cs.len() - 1 {
                    assert(d[i] == cs[i]);
                }
            }
        }
        if forall|i: int| 0 <= i < cs.len() ==> sizes_summed(#[trigger] cs[i]) {
            assert forall|i: int| 0 <= i < d.len() implies sizes_summed(#[trigger] d[i]) by {
                assert(d[i] == cs[i]);
            }
            assert(sizes_summed(cs[cs.len() - 1]));
        }
    }
}

/// The rows that one subtree spans.
pub open spec fn rows_one(t: SubtreeView) -> int {
    spec_padding(t).extent.row + spec_size(t).extent.row
}

proof fn lemma_rows_append(a: Seq<SubtreeView>, b: Seq<SubtreeView>)
    ensures
        rows_of(a + b) == rows_of(a) + rows_of(b),
    decreases b.len(),
{
    if b.len() == 0 {
        assert(a + b =~= a);
    } else {
        lemma_rows_append(a, b.drop_last());
        assert((a + b).drop_last() =~= a + b.drop_last());
        assert((a + b).last() == b.last());
    }
}

proof fn lemma_total_rows(cs: Seq<SubtreeView>)
    requires
        rows_of(cs) <= u32::MAX,
    ensures
        total_sizes(cs).extent.row == rows_of(cs),
    decreases cs.len(),
{
    if cs.len() > 0 {
        lemma_rows_nonneg(cs.drop_last());
        lemma_total_rows(cs.drop_last());
    }
}

proof fn lemma_total_sizes_append(a: Seq<SubtreeView>, b: Seq<SubtreeView>)
    requires
        rows_of(a) + rows_of(b) <= u32::MAX,
    ensures
        total_sizes(a + b) == spec_length_add(total_sizes(a), total_sizes(b)),
    decreases b.len(),
{
    lemma_rows_nonneg(a);
    lemma_rows_nonneg(b);
    if b.len() == 0 {
        assert(a + b =~= a);
        crate::length::lemma_length_zero_identity(total_sizes(a));
    } else {
        let bd = b.drop_last();
        lemma_rows_nonneg(bd);
        lemma_total_sizes_append(a, bd);
        assert((a + b).drop_last() =~= a + bd);
        assert((a + b).last() == b.last());
        lemma_total_rows(a);
        lemma_total_rows(bd);
        let tl = spec_total_size(b.last());
        assert(tl.extent.row <= rows_one(b.last()));
        crate::length::lemma_length_add_assoc(total_sizes(a), total_sizes(bd), tl);
    }
}

proof fn lemma_single(x: SubtreeView)
    ensures
        total_sizes(seq![x]) == spec_total_size(x),
        rows_of(seq![x]) == rows_one(x),
{
    let s1 = seq![x];
    assert(s1.drop_last() =~= Seq::<SubtreeView>::empty());
    assert(total_sizes(s1.drop_last()) == spec_length_zero());
    assert(rows_of(s1.drop_last()) == 0);
    assert(s1.last() == x);
    crate::length::lemma_length_zero_identity(spec_total_size(x));
}

proof fn lemma_sums_pointwise(a: Seq<SubtreeView>, b: Seq<SubtreeView>)
    requires
        a.len() == b.len(),
        forall|i: int|
            0 <= i < a.len() ==> spec_total_size(#[trigger] a[i]) == spec_total_size(b[i]) && rows_one(a[i])
                == rows_one(b[i]),
    ensures
        total_sizes(a) == total_sizes(b),
        rows_of(a) == rows_of(b),
    decreases a.len(),
{
    if a.len() > 0 {
        let (da, db) = (a.drop_last(), b.drop_last());
        assert forall|i: int| 0 <= i < da.len() implies spec_total_size(#[trigger] da[i]) == spec_total_size(
            db[i],
        ) && rows_one(da[i]) == rows_one(db[i]) by {
            assert(da[i] == a[i] && db[i] == b[i]);
        }
        lemma_sums_pointwise(da, db);
        assert(spec_total_size(a[a.len() - 1]) == spec_total_size(b[b.len() - 1]));
        assert(rows_one(a[a.len() - 1]) == rows_one(b[b.len() - 1]));
    }
}

/// One round of `ts_subtree__compress` keeps a node with summed sizes so,
/// and keeps what it spans.
proof fn lemma_compress_round(t: SubtreeHeapView, k: nat, symbol: u16, l: &TSLanguage)
    requires
        sizes_summed(SubtreeView::Heap(t)),
    ensures
        sizes_summed(SubtreeView::Heap(spec_compress(t, k, symbol, l))),
        spec_total_size(SubtreeView::Heap(spec_compress(t, k, symbol, l))) == spec_total_size(SubtreeView::Heap(t)),
        rows_one(SubtreeView::Heap(spec_compress(t, k, symbol, l))) == rows_one(SubtreeView::Heap(t)),
{
    let r = spec_compress(t, k, symbol, l);
    if t.children.len() > 0 {
        lemma_compress_sums(t, k, symbol, l);
        if r != t {
            lemma_set_children_sums(with_children(t, Seq::empty()), r.children, l);
        }
    } else {
        assert(r == t);
    }
}

/// The rotation of `ts_subtree__compress` keeps what the children of a node
/// span, and keeps each of them, and all below, with summed sizes; a node
/// it rotates has its summary computed again from its new children.
proof fn lemma_compress_sums(t: SubtreeHeapView, k: nat, symbol: u16, l: &TSLanguage)
    requires
        sizes_summed_all(t.children),
        rows_of(t.children) <= u32::MAX,
    ensures
        sizes_summed_all(spec_compress(t, k, symbol, l).children),
        rows_of(spec_compress(t, k, symbol, l).children) == rows_of(t.children),
        total_sizes(spec_compress(t, k, symbol, l).children) == total_sizes(t.children),
        spec_compress(t, k, symbol, l).children.len() == t.children.len(),
        spec_compress(t, k, symbol, l) == t || spec_compress(t, k, symbol, l) == spec_set_children(
            with_children(t, Seq::empty()),
            spec_compress(t, k, symbol, l).children,
            l,
        ),
    decreases k,
{
    let r = spec_compress(t, k, symbol, l);
    if k == 0 || t.children.len() < 2 {
        return;
    }
    if let SubtreeView::Heap(c) = t.children[0] {
        if c.children.len() >= 2 && c.symbol == symbol {
            if let SubtreeView::Heap(g) = c.children[0] {
                if g.children.len() >= 2 && g.symbol == symbol {
                    let n = t.children.len() as int;
                    let m = c.children.len() as int;
                    let p = g.children.len() as int;
                    let rr = t.children.subrange(1, n);
                    let cr = c.children.subrange(1, m);
                    let gf = g.children.subrange(0, p - 1);
                    let gl = g.children[p - 1];
                    assert(t.children =~= seq![SubtreeView::Heap(c)] + rr);
                    assert(c.children =~= seq![SubtreeView::Heap(g)] + cr);
                    assert(g.children =~= gf + seq![gl]);
                    lemma_summed_all(t.children);
                    assert(sizes_summed(SubtreeView::Heap(c)));
                    lemma_summed_all(c.children);
                    assert(sizes_summed(SubtreeView::Heap(g)));
                    lemma_summed_all(g.children);
                    lemma_summed_all(rr);
                    lemma_summed_all(cr);
                    lemma_summed_all(gf);
                    assert forall|i: int| 0 <= i < rr.len() implies sizes_summed(#[trigger] rr[i]) by {
                        assert(rr[i] == t.children[i + 1]);
                    }
                    assert forall|i: int| 0 <= i < cr.len() implies sizes_summed(#[trigger] cr[i]) by {
                        assert(cr[i] == c.children[i + 1]);
                    }
                    assert forall|i: int| 0 <= i < gf.len() implies sizes_summed(#[trigger] gf[i]) by {
                        assert(gf[i] == g.children[i]);
                    }
                    assert(sizes_summed(gl));
                    lemma_rows_nonneg(rr);
                    lemma_rows_nonneg(cr);
                    lemma_rows_nonneg(gf);
                    lemma_single(SubtreeView::Heap(c));
                    lemma_single(SubtreeView::Heap(g));
                    lemma_single(gl);
                    lemma_rows_append(seq![SubtreeView::Heap(c)], rr);
                    lemma_rows_append(seq![SubtreeView::Heap(g)], cr);
                    lemma_rows_append(gf, seq![gl]);
                    // c2: `c` with `g`'s last child first.
                    let cs2 = seq![gl] + cr;
                    lemma_rows_append(seq![gl], cr);
                    let c2 = spec_set_children(with_children(c, Seq::empty()), cs2, l);
                    lemma_set_children_sums(with_children(c, Seq::empty()), cs2, l);
                    lemma_summed_all(cs2);
                    assert forall|i: int| 0 <= i < cs2.len() implies sizes_summed(#[trigger] cs2[i]) by {
                        if i > 0 {
                            assert(cs2[i] == cr[i - 1]);
                        }
                    }
                    assert(c2.children == cs2);
                    assert(sizes_summed(SubtreeView::Heap(c2)));
                    // g1: `g` with `c2` last.
                    let g1 = with_children(g, gf + seq![SubtreeView::Heap(c2)]);
                    lemma_single(SubtreeView::Heap(c2));
                    lemma_rows_append(gf, seq![SubtreeView::Heap(c2)]);
                    lemma_summed_all(g1.children);
                    assert forall|i: int| 0 <= i < g1.children.len() implies sizes_summed(
                        #[trigger] g1.children[i],
                    ) by {
                        if i < gf.len() {
                            assert(g1.children[i] == gf[i]);
                        }
                    }
                    lemma_compress_sums(g1, (k - 1) as nat, symbol, l);
                    let g2 = spec_compress(g1, (k - 1) as nat, symbol, l);
                    let g3 = spec_set_children(g2, g2.children, l);
                    lemma_set_children_sums(g2, g2.children, l);
                    assert(g3.children == g2.children);
                    assert(sizes_summed(SubtreeView::Heap(g3)));
                    // What `g3` spans is what `c` spanned.
                    lemma_total_rows(gf);
                    lemma_total_rows(cr);
                    lemma_total_sizes_append(gf, seq![SubtreeView::Heap(c2)]);
                    lemma_total_sizes_append(seq![gl], cr);
                    lemma_total_sizes_append(gf, seq![gl]);
                    lemma_total_sizes_append(seq![SubtreeView::Heap(g)], cr);
                    crate::length::lemma_length_add_assoc(
                        total_sizes(gf),
                        spec_total_size(gl),
                        total_sizes(cr),
                    );
                    assert(spec_total_size(SubtreeView::Heap(g3)) == spec_total_size(SubtreeView::Heap(c)));
                    // The new children of `t`.
                    let nc = seq![SubtreeView::Heap(g3)] + rr;
                    lemma_single(SubtreeView::Heap(g3));
                    lemma_rows_append(seq![SubtreeView::Heap(g3)], rr);
                    lemma_total_rows(rr);
                    lemma_total_sizes_append(seq![SubtreeView::Heap(g3)], rr);
                    lemma_total_sizes_append(seq![SubtreeView::Heap(c)], rr);
                    lemma_summed_all(nc);
                    assert forall|i: int| 0 <= i < nc.len() implies sizes_summed(#[trigger] nc[i]) by {
                        if i > 0 {
                            assert(nc[i] == rr[i - 1]);
                        }
                    }
                    assert(r == spec_set_children(with_children(t, Seq::empty()), nc, l));
                    assert(r.children == nc);
                }
            }
        }
    }
}

/// Puts children back into a node that `take_children` emptied.
fn put_children(d: &mut SubtreeHeapData, cs: Vec<Subtree>)
    ensures
        heap_view(*final(d)) == with_children(heap_view(*old(d)), views_of(cs@)),
        final(d).children@ == cs@,
{
    d.children = cs;
    proof {
        assert(heap_view(*d) =~= with_children(heap_view(*old(d)), views_of(cs@)));
    }
}

/// `Rc::strong_count`: how many handles hold a heap node. The count depends
/// on handles held outside the value, so nothing is stated of it.
#[verifier::external_body]
fn strong_count(rc: &Rc<SubtreeHeapData>) -> (n: usize) {
    Rc::strong_count(rc)
}

/// A copy of a node: the same fields, and other handles to the same
/// children.
fn copy_heap(d: &SubtreeHeapData) -> (r: SubtreeHeapData)
    ensures
        heap_view(r) == heap_view(*d),
{
    let mut children: Vec<Subtree> = Vec::new();
    let mut i: usize = 0;
    while i < d.children.len()
        invariant
            i <= d.children@.len(),
            children@ == d.children@.subrange(0, i as int),
        decreases d.children@.len() - i,
    {
        children.push(crate::subtree::ts_subtree_retain(&d.children[i]));
        i = i + 1;
        proof {
            assert(children@ =~= d.children@.subrange(0, i as int));
        }
    }
    proof {
        assert(children@ =~= d.children@);
    }
    let r = SubtreeHeapData {
        padding: d.padding,
        size: d.size,
        lookahead_bytes: d.lookahead_bytes,
        error_cost: d.error_cost,
        symbol: d.symbol,
        parse_state: d.parse_state,
        visible: d.visible,
        named: d.named,
        extra: d.extra,
        fragile_left: d.fragile_left,
        fragile_right: d.fragile_right,
        has_changes: d.has_changes,
        has_external_tokens: d.has_external_tokens,
        is_missing: d.is_missing,
        is_keyword: d.is_keyword,
        children,
        visible_child_count: d.visible_child_count,
        named_child_count: d.named_child_count,
        node_count: d.node_count,
        repeat_depth: d.repeat_depth,
        dynamic_precedence: d.dynamic_precedence,
        production_id: d.production_id,
        first_leaf: d.first_leaf,
        external_scanner_state: crate::subtree::ts_external_scanner_state_copy(&d.external_scanner_state),
        lookahead_char: d.lookahead_char,
    };
    proof {
        assert(heap_view(r) =~= heap_view(*d));
    }
    r
}

/// Takes the first of `cs` out when `unique` says that nobody else holds it
/// and it is a heap node with at least two children and the symbol `symbol`,
/// and leaves an empty leaf in its place; otherwise leaves `cs` as it was.
/// Where another handle holds the node after all, a copy of it is taken.
fn take_first(cs: &mut Vec<Subtree>, symbol: u16, unique: bool) -> (r: Option<SubtreeHeapData>)
    requires
        old(cs)@.len() > 0,
    ensures
        final(cs)@.len() == old(cs)@.len(),
        forall|j: int| 0 < j < old(cs)@.len() ==> #[trigger] final(cs)@[j] == old(cs)@[j],
        match r {
            Some(c) => {
                &&& SubtreeView::Heap(heap_view(c)) == old(cs)@[0]@
                &&& c.children@.len() >= 2
                &&& c.symbol == symbol
                &&& final(cs)@[0] == crate::subtree::spec_empty_leaf()
            },
            None => final(cs)@[0]@ == old(cs)@[0]@,
        },
        (r is Some) == (unique && match old(cs)@[0]@ {
            SubtreeView::Heap(h) => h.children.len() >= 2 && h.symbol == symbol,
            SubtreeView::Inline(_) => false,
        }),
{
    if !unique {
        return None;
    }
    let mut slot = empty_leaf();
    std::mem::swap(&mut slot, &mut cs[0]);
    let ghost sv0 = slot@;
    match slot {
        Subtree::Inline(leaf) => {
            cs.set(0, Subtree::Inline(leaf));
            None
        },
        Subtree::Heap(rc) => {
            let ghost hv = sv0->Heap_0;
            proof {
                lemma_views_of(rc.children@);
            }
            if rc.children.len() < 2 || rc.symbol != symbol {
                cs.set(0, Subtree::Heap(rc));
                None
            } else {
                let c = match Rc::try_unwrap(rc) {
                    Ok(c) => c,
                    Err(rc) => copy_heap(&rc),
                };
                proof {
                    assert(heap_view(c) == hv);
                    lemma_views_of(c.children@);
                }
                Some(c)
            }
        },
    }
}

/// Rotates left-leaning chains of repetition nodes with the symbol `symbol`,
/// at most `count` levels deep below `tree`: where `tree`'s first child and
/// that child's first child are both such nodes with at least two children
/// and held by nobody else, the grandchild takes the child's place, and the
/// child becomes the grandchild's last child. `unique` says, for each node
/// down `tree`'s chain of first children, whether nobody else holds it. It
/// returns how many levels it rotated (see `compress_levels` and
/// `spec_compress`). The leaves and the number of nodes stay the same.
pub fn ts_subtree__compress(
    tree: &mut SubtreeHeapData,
    count: u32,
    symbol: u16,
    language: &TSLanguage,
    unique: &[bool],
) -> (levels: u32)
    requires
        subtree_wf(SubtreeView::Heap(heap_view(*old(tree)))),
    ensures
        levels == compress_levels(heap_view(*old(tree)), count as nat, unique@, symbol, language),
        heap_view(*final(tree)) == spec_compress(heap_view(*old(tree)), levels as nat, symbol, language),
        rebalanced(
            SubtreeView::Heap(heap_view(*old(tree))),
            SubtreeView::Heap(heap_view(*final(tree))),
        ),
        heap_view(*old(tree)).children.len() > 0 ==> heap_view(*final(tree)).children.len() > 0,
    decreases count, 2int,
{
    if count == 0 || tree.children.len() < 2 {
        proof {
            lemma_rebalanced_refl(SubtreeView::Heap(heap_view(*tree)));
            assert(spec_compress(heap_view(*tree), 0, symbol, language) == heap_view(*tree));
        }
        return 0;
    }
    let ghost t0 = heap_view(*tree);
    proof {
        lemma_views_of(tree.children@);
    }
    let mut tcs = take_children(tree);
    let ghost tcs0 = tcs@;
    let first = take_first(&mut tcs, symbol, unique.len() >= 1 && unique[0]);
    match first {
        None => {
            proof {
                lemma_views_of(tcs@);
                assert(views_of(tcs@) =~= t0.children);
            }
            put_children(tree, tcs);
            proof {
                assert(with_children(with_children(t0, Seq::empty()), t0.children) =~= t0);
                lemma_rebalanced_refl(SubtreeView::Heap(t0));
                assert(spec_compress(t0, 0, symbol, language) == t0);
                assert(tcs0[0]@ == t0.children[0]);
            }
            0
        },
        Some(child) => {
            proof {
                lemma_wf_children(t0);
                assert(t0.children[0] == tcs0[0]@);
            }
            compress_at(tree, tcs, child, count, symbol, language, unique, Ghost(t0))
        },
    }
}

/// Puts `child`, emptied with its children in `ccs`, back as the first child
/// of `tree`, emptied with its children in `tcs`: both as they were.
fn restore_first(
    tree: &mut SubtreeHeapData,
    tcs: Vec<Subtree>,
    child: SubtreeHeapData,
    ccs: Vec<Subtree>,
    Ghost(t0): Ghost<SubtreeHeapView>,
    Ghost(c0): Ghost<SubtreeHeapView>,
)
    requires
        subtree_wf(SubtreeView::Heap(t0)),
        t0.children.len() >= 1,
        heap_view(*old(tree)) == with_children(t0, Seq::empty()),
        tcs@.len() == t0.children.len(),
        forall|j: int| 0 < j < tcs@.len() ==> (#[trigger] tcs@[j])@ == t0.children[j],
        t0.children[0] == SubtreeView::Heap(c0),
        heap_view(child) == with_children(c0, Seq::empty()),
        ccs@.len() == c0.children.len(),
        forall|j: int| 0 <= j < ccs@.len() ==> (#[trigger] ccs@[j])@ == c0.children[j],
    ensures
        rebalanced(SubtreeView::Heap(t0), SubtreeView::Heap(heap_view(*final(tree)))),
        heap_view(*final(tree)).children.len() > 0,
        heap_view(*final(tree)) == t0,
{
    let mut tcs = tcs;
    let mut child = child;
    proof {
        lemma_views_of(ccs@);
        assert(views_of(ccs@) =~= c0.children);
    }
    put_children(&mut child, ccs);
    proof {
        assert(with_children(with_children(c0, Seq::empty()), c0.children) =~= c0);
    }
    let ghost cv = heap_view(child);
    assert(cv == c0);
    tcs.set(0, Subtree::Heap(Rc::new(child)));
    proof {
        assert(tcs@[0]@ == SubtreeView::Heap(cv));
        lemma_views_of(tcs@);
        assert(views_of(tcs@) =~= t0.children);
    }
    put_children(tree, tcs);
    proof {
        assert(with_children(with_children(t0, Seq::empty()), t0.children) =~= t0);
        lemma_rebalanced_refl(SubtreeView::Heap(t0));
    }
}

/// `ts_subtree__compress` once `tree`'s first child has been taken out of `tcs` as `child`.
#[verifier::rlimit(100)]
#[verifier::spinoff_prover]
fn compress_at(
    tree: &mut SubtreeHeapData,
    tcs: Vec<Subtree>,
    child: SubtreeHeapData,
    count: u32,
    symbol: u16,
    language: &TSLanguage,
    unique: &[bool],
    Ghost(t0): Ghost<SubtreeHeapView>,
) -> (levels: u32)
    requires
        unique@.len() >= 1,
        unique@[0],
        count > 0,
        subtree_wf(SubtreeView::Heap(t0)),
        t0.children.len() >= 2,
        heap_view(*old(tree)) == with_children(t0, Seq::empty()),
        tcs@.len() == t0.children.len(),
        forall|j: int| 0 < j < tcs@.len() ==> (#[trigger] tcs@[j])@ == t0.children[j],
        t0.children[0] == SubtreeView::Heap(heap_view(child)),
        child.children@.len() >= 2,
        child.symbol == symbol,
    ensures
        rebalanced(SubtreeView::Heap(t0), SubtreeView::Heap(heap_view(*final(tree)))),
        heap_view(*final(tree)).children.len() > 0,
        levels == compress_levels(t0, count as nat, unique@, symbol, language),
        heap_view(*final(tree)) == spec_compress(t0, levels as nat, symbol, language),
    decreases count, 1int,
{
    let mut tcs = tcs;
    let mut child = child;
    let ghost c0 = heap_view(child);
    proof {
        lemma_wf_children(t0);
        lemma_views_of(child.children@);
    }
    let mut ccs = take_children(&mut child);
    let ghost ccs0 = ccs@;
    let second = take_first(&mut ccs, symbol, unique.len() >= 2 && unique[1]);
    match second {
        None => {
            restore_first(tree, tcs, child, ccs, Ghost(t0), Ghost(c0));
            proof {
                assert(spec_compress(t0, 0, symbol, language) == t0);
                assert(ccs0[0]@ == c0.children[0]);
            }
            0
        },
        Some(gc) => {
            proof {
                lemma_wf_children(c0);
                assert(c0.children[0] == ccs0[0]@);
            }
            rotate(tree, tcs, child, ccs, gc, count, symbol, language, unique, Ghost(t0), Ghost(c0))
        },
    }
}

/// The rotation of `ts_subtree__compress` at one level: `tree` (emptied, its children in
/// `tcs` with the first taken out as `child`), `child` (emptied, its children
/// in `ccs` with the first taken out as `gc`).
#[verifier::rlimit(40)]
fn rotate(
    tree: &mut SubtreeHeapData,
    tcs: Vec<Subtree>,
    child: SubtreeHeapData,
    ccs: Vec<Subtree>,
    gc: SubtreeHeapData,
    count: u32,
    symbol: u16,
    language: &TSLanguage,
    unique: &[bool],
    Ghost(t0): Ghost<SubtreeHeapView>,
    Ghost(c0): Ghost<SubtreeHeapView>,
) -> (levels: u32)
    requires
        unique@.len() >= 2,
        unique@[0],
        unique@[1],
        count > 0,
        subtree_wf(SubtreeView::Heap(t0)),
        subtree_wf(SubtreeView::Heap(c0)),
        t0.children.len() >= 2,
        heap_view(*old(tree)) == with_children(t0, Seq::empty()),
        tcs@.len() == t0.children.len(),
        forall|j: int| 0 < j < tcs@.len() ==> (#[trigger] tcs@[j])@ == t0.children[j],
        t0.children[0] == SubtreeView::Heap(c0),
        c0.children.len() >= 2,
        heap_view(child) == with_children(c0, Seq::empty()),
        ccs@.len() == c0.children.len(),
        forall|j: int| 0 < j < ccs@.len() ==> (#[trigger] ccs@[j])@ == c0.children[j],
        c0.children[0] == SubtreeView::Heap(heap_view(gc)),
        gc.children@.len() >= 2,
        gc.symbol == symbol,
        c0.symbol == symbol,
    ensures
        rebalanced(SubtreeView::Heap(t0), SubtreeView::Heap(heap_view(*final(tree)))),
        heap_view(*final(tree)).children.len() > 0,
        levels == compress_levels(t0, count as nat, unique@, symbol, language),
        heap_view(*final(tree)) == spec_compress(t0, levels as nat, symbol, language),
    decreases count, 0int,
{
    let mut tcs = tcs;
    let mut child = child;
    let mut ccs = ccs;
    let mut gc = gc;
    let ghost g0 = heap_view(gc);
    proof {
        lemma_wf_children(t0);
        lemma_wf_children(c0);
        lemma_wf_children(g0);
        lemma_views_of(gc.children@);
    }
    let gl = gc.children.pop().unwrap();
    ccs.set(0, gl);
    proof {
        lemma_views_of(ccs@);
        assert(views_of(ccs@) =~= seq![g0.children[g0.children.len() - 1]] + c0.children.subrange(
            1,
            c0.children.len() as int,
        ));
        assert forall|i: int| 0 <= i < ccs@.len() implies subtree_wf(#[trigger] ccs@[i]@) by {
            if i == 0 {
                assert(ccs@[0]@ == g0.children[g0.children.len() - 1]);
            } else {
                assert(ccs@[i]@ == c0.children[i]);
            }
        }
    }
    let ghost c1cs = views_of(ccs@);
    ts_subtree_set_children(&mut child, ccs, language);
    let ghost c2 = heap_view(child);
    proof {
        lemma_set_children_wf(with_children(c0, Seq::empty()), c1cs, language);
        assert(c2.children == c1cs);
    }
    gc.children.push(Subtree::Heap(Rc::new(child)));
    let ghost g1 = heap_view(gc);
    proof {
        lemma_views_of(gc.children@);
        assert(g1.children =~= g0.children.subrange(0, g0.children.len() - 1) + seq![
            SubtreeView::Heap(c2)
        ]);
        assert(g1 == with_children(g0, g1.children));
        assert forall|i: int| 0 <= i < g1.children.len() implies subtree_wf(
            #[trigger] g1.children[i],
        ) by {
            if i < g1.children.len() - 1 {
                assert(g1.children[i] == g0.children[i]);
            }
        }
        lemma_children_wf(g1.children);
    }
    let rest = vstd::slice::slice_subrange(unique, 2, unique.len());
    let below = ts_subtree__compress(&mut gc, count - 1, symbol, language, rest);
    let ghost g2 = heap_view(gc);
    proof {
        lemma_levels_bound(g1, (count - 1) as nat, rest@, symbol, language);
        assert(rest@ == unique@.subrange(2, unique@.len() as int));
    }
    proof {
        reveal(rebalanced);
    }
    refresh(&mut gc, language);
    let ghost g3 = heap_view(gc);
    tcs.set(0, Subtree::Heap(Rc::new(gc)));
    proof {
        lemma_views_of(tcs@);
        assert(views_of(tcs@) =~= seq![SubtreeView::Heap(g3)] + t0.children.subrange(
            1,
            t0.children.len() as int,
        ));
        assert forall|i: int| 0 <= i < tcs@.len() implies subtree_wf(#[trigger] tcs@[i]@) by {
            if i > 0 {
                assert(tcs@[i]@ == t0.children[i]);
            }
        }
    }
    let ghost t1cs = views_of(tcs@);
    ts_subtree_set_children(tree, tcs, language);
    proof {
        lemma_set_children_wf(with_children(t0, Seq::empty()), t1cs, language);
        lemma_rotation(t0, c0, g0, c2, g2, g3, heap_view(*tree));
        reveal(rebalanced);
        let j = below as nat;
        assert(t1cs =~= seq![SubtreeView::Heap(g3)] + t0.children.subrange(1, t0.children.len() as int));
        assert(spec_compress(t0, j + 1, symbol, language) == heap_view(*tree));
        assert(compress_levels(t0, count as nat, unique@, symbol, language) == j + 1);
    }
    below + 1
}

/// The rotation of `ts_subtree__compress` keeps the leaves and the number of nodes: `t`'s
/// first child `c` has a first child `g`; afterwards `g` (rotated further
/// into `g2`, then refreshed into `g3`) is `t`'s first child, and `c` (as
/// `c2`) is `g`'s last child, with `g`'s former last child as its first.
proof fn lemma_rotation(
    t0: SubtreeHeapView,
    c0: SubtreeHeapView,
    g0: SubtreeHeapView,
    c2: SubtreeHeapView,
    g2: SubtreeHeapView,
    g3: SubtreeHeapView,
    t2: SubtreeHeapView,
)
    requires
        t0.children.len() >= 1,
        t0.children[0] == SubtreeView::Heap(c0),
        c0.children.len() >= 2,
        c0.children[0] == SubtreeView::Heap(g0),
        g0.children.len() >= 2,
        c2.children == seq![g0.children[g0.children.len() - 1]] + c0.children.subrange(
            1,
            c0.children.len() as int,
        ),
        spec_leaves(SubtreeView::Heap(g2)) == spec_leaves(
            SubtreeView::Heap(
                SubtreeHeapView {
                    children: g0.children.subrange(0, g0.children.len() - 1) + seq![
                        SubtreeView::Heap(c2)
                    ],
                    ..g0
                },
            ),
        ),
        node_total(SubtreeView::Heap(g2)) == node_total(
            SubtreeView::Heap(
                SubtreeHeapView {
                    children: g0.children.subrange(0, g0.children.len() - 1) + seq![
                        SubtreeView::Heap(c2)
                    ],
                    ..g0
                },
            ),
        ),
        g2.children.len() > 0,
        g3.children == g2.children,
        t2.children == seq![SubtreeView::Heap(g3)] + t0.children.subrange(
            1,
            t0.children.len() as int,
        ),
    ensures
        spec_leaves(SubtreeView::Heap(t2)) == spec_leaves(SubtreeView::Heap(t0)),
        node_total(SubtreeView::Heap(t2)) == node_total(SubtreeView::Heap(t0)),
{
    let n = t0.children.len() as int;
    let tr = t0.children.subrange(1, n);
    let cr = c0.children.subrange(1, c0.children.len() as int);
    let gf = g0.children.subrange(0, g0.children.len() - 1);
    let glv = g0.children[g0.children.len() - 1];
    let g1 = SubtreeHeapView { children: gf + seq![SubtreeView::Heap(c2)], ..g0 };
    assert(t0.children =~= seq![SubtreeView::Heap(c0)] + tr);
    assert(c0.children =~= seq![SubtreeView::Heap(g0)] + cr);
    assert(g0.children =~= gf + seq![glv]);
    lemma_leaves_of_append(seq![SubtreeView::Heap(c0)], tr);
    lemma_leaves_of_single(SubtreeView::Heap(c0));
    lemma_leaves_of_append(seq![SubtreeView::Heap(g0)], cr);
    lemma_leaves_of_single(SubtreeView::Heap(g0));
    lemma_leaves_of_append(gf, seq![glv]);
    lemma_leaves_of_single(glv);
    lemma_leaves_of_append(seq![glv], cr);
    lemma_leaves_of_append(gf, seq![SubtreeView::Heap(c2)]);
    lemma_leaves_of_single(SubtreeView::Heap(c2));
    lemma_leaves_of_append(seq![SubtreeView::Heap(g3)], tr);
    lemma_leaves_of_single(SubtreeView::Heap(g3));
    assert(spec_leaves(SubtreeView::Heap(g3)) == spec_leaves(SubtreeView::Heap(g2)));
    assert(node_total(SubtreeView::Heap(g3)) == node_total(SubtreeView::Heap(g2)));
    assert(spec_leaves(SubtreeView::Heap(g1)) == leaves_of(gf) + leaves_of(seq![glv])
        + leaves_of(cr));
    assert(spec_leaves(SubtreeView::Heap(t2)) =~= spec_leaves(SubtreeView::Heap(t0)));
}

/// What `unique` says of a node's chain of first children after `j` levels
/// of rotation (see `answers_after`).
fn answers_after_exec(unique: &Vec<bool>, j: u32) -> (r: Vec<bool>)
    requires
        2 * j <= unique@.len(),
    ensures
        r@ == answers_after(unique@, j as nat),
{
    let mut r: Vec<bool> = Vec::new();
    let n = unique.len();
    let mut k: u32 = 0;
    while k < j
        invariant
            k <= j,
            n == unique@.len(),
            2 * j <= unique@.len(),
            r@ == Seq::new(k as nat, |m: int| unique@[2 * m + 1]),
        decreases j - k,
    {
        r.push(unique[2 * (k as usize) + 1]);
        k = k + 1;
        proof {
            assert(r@ =~= Seq::new(k as nat, |m: int| unique@[2 * m + 1]));
        }
    }
    let ghost head = r@;
    let mut i: usize = 2 * (j as usize);
    while i < unique.len()
        invariant
            2 * j <= i <= unique@.len(),
            r@ == head + unique@.subrange(2 * j as int, i as int),
        decreases unique@.len() - i,
    {
        r.push(unique[i]);
        i = i + 1;
        proof {
            assert(r@ =~= head + unique@.subrange(2 * j as int, i as int));
        }
    }
    r
}

/// Whether nobody else holds each node down `d`'s chain of first children,
/// for at most `max` of them, as the reference counts tell.
fn spine_answers(d: &SubtreeHeapData, max: u32) -> (r: Vec<bool>)
    ensures
        r@.len() <= max,
{
    let mut r: Vec<bool> = Vec::new();
    if d.children.len() == 0 {
        return r;
    }
    let mut cur: &Subtree = &d.children[0];
    while r.len() < max as usize
        invariant
            r@.len() <= max,
        decreases max - r@.len(),
    {
        match cur {
            Subtree::Heap(rc) => {
                r.push(strong_count(rc) == 1);
                if rc.children.len() == 0 {
                    break;
                }
                cur = &rc.children[0];
            },
            Subtree::Inline(_) => {
                break;
            },
        }
    }
    r
}

/// The rounds of rotation at a node that nobody else holds (see
/// `spec_node_rounds`): where the node repeats and its first child repeats
/// deeper than its last, `ts_subtree__compress` rotates it in rounds of half
/// the difference, a quarter, and so on. `unique` says, for each node down
/// the node's chain of first children, whether nobody else holds it; after
/// each round it follows the nodes that moved.
#[verifier::rlimit(40)]
pub fn ts_subtree__balance_rounds(d: &mut SubtreeHeapData, language: &TSLanguage, unique: Vec<bool>)
    requires
        subtree_wf(SubtreeView::Heap(heap_view(*old(d)))),
        heap_view(*old(d)).children.len() > 0,
    ensures
        heap_view(*final(d)) == spec_node_rounds(heap_view(*old(d)), unique@, language),
        rebalanced(SubtreeView::Heap(heap_view(*old(d))), SubtreeView::Heap(heap_view(*final(d)))),
        heap_view(*final(d)).children.len() > 0,
        sizes_summed(SubtreeView::Heap(heap_view(*old(d)))) ==> sizes_summed(
            SubtreeView::Heap(heap_view(*final(d))),
        ) && spec_total_size(SubtreeView::Heap(heap_view(*final(d)))) == spec_total_size(
            SubtreeView::Heap(heap_view(*old(d))),
        ) && rows_one(SubtreeView::Heap(heap_view(*final(d)))) == rows_one(
            SubtreeView::Heap(heap_view(*old(d))),
        ),
{
    let ghost h0 = heap_view(*d);
    let ghost sv = SubtreeView::Heap(h0);
    proof {
        lemma_rebalanced_refl(sv);
        lemma_views_of(d.children@);
    }
    if d.repeat_depth > 0 {
        let n_children = d.children.len();
        let first_depth = ts_subtree_repeat_depth(&d.children[0]);
        let last_depth = ts_subtree_repeat_depth(&d.children[n_children - 1]);
        if first_depth > last_depth {
            let mut i: u32 = (first_depth - last_depth) / 2;
            let mut u = unique;
            proof {
                assert(h0.children[0] == d.children@[0]@);
                assert(h0.children[h0.children.len() - 1] == d.children@[n_children - 1]@);
            }
            while i > 0
                invariant
                    rebalanced(sv, SubtreeView::Heap(heap_view(*d))),
                    heap_view(*d).children.len() > 0,
                    sizes_summed(sv) ==> sizes_summed(SubtreeView::Heap(heap_view(*d))) && spec_total_size(
                        SubtreeView::Heap(heap_view(*d)),
                    ) == spec_total_size(sv) && rows_one(SubtreeView::Heap(heap_view(*d))) == rows_one(sv),
                    spec_node_rounds(h0, unique@, language) == spec_rounds(heap_view(*d), i as nat, u@, language),
                decreases i,
            {
                let symbol = d.symbol;
                let ghost before = SubtreeView::Heap(heap_view(*d));
                let ghost hb = heap_view(*d);
                proof {
                    lemma_rebalanced_wf(sv, before);
                }
                let levels = ts_subtree__compress(d, i, symbol, language, u.as_slice());
                proof {
                    lemma_rebalanced_trans(sv, before, SubtreeView::Heap(heap_view(*d)));
                    lemma_levels_bound(hb, i as nat, u@, symbol, language);
                    if sizes_summed(sv) {
                        lemma_compress_round(hb, levels as nat, symbol, language);
                    }
                }
                u = answers_after_exec(&u, levels);
                i = i / 2;
            }
        }
    }
}

/// Balances the repetition nodes of a subtree held by nobody else, and of its
/// descendants held by nobody else: where a repetition node's first child
/// repeats deeper than its last, `ts_subtree__compress` rotates it, in rounds of half the
/// difference, a quarter, and so on. Shared subtrees are left as they are;
/// whether a node is shared is the reference count's to tell. Leaves and
/// nodes without children come back as they were.
#[verifier::rlimit(100)]
#[verifier::spinoff_prover]
fn balance_node(s: Subtree, language: &TSLanguage) -> (r: Subtree)
    requires
        subtree_wf(s@),
    ensures
        sizes_summed(s@) ==> sizes_summed(r@) && spec_total_size(r@) == spec_total_size(s@) && rows_one(
            r@,
        ) == rows_one(s@),
        s is Inline ==> r == s,
        spec_child_count(s@) == 0 ==> r@ == s@,
        (r is Inline) == (s is Inline),
        spec_child_count(s@) > 0 ==> spec_child_count(r@) > 0,
        subtree_wf(r@),
        spec_leaves(r@) == spec_leaves(s@),
        node_total(r@) == node_total(s@),
        spec_symbol(r@) == spec_symbol(s@),
        r@ == s@ || exists|u: Seq<bool>| #[trigger] balanced_root(s@, u, language, r@),
    decreases node_total(s@),
{
    let ghost sv = s@;
    let rc = match s {
        Subtree::Inline(_) => {
            return s;
        },
        Subtree::Heap(rc) => rc,
    };
    if rc.children.len() == 0 {
        return Subtree::Heap(rc);
    }
    if strong_count(&rc) != 1 {
        return Subtree::Heap(rc);
    }
    let mut d = match Rc::try_unwrap(rc) {
        Ok(d) => d,
        Err(rc) => copy_heap(&rc),
    };
    proof {
        assert(sv == SubtreeView::Heap(heap_view(d)));
        lemma_rebalanced_refl(sv);
    }
    let first_depth = ts_subtree_repeat_depth(&d.children[0]);
    let unique = spine_answers(&d, first_depth);
    let ghost answers = unique@;
    ts_subtree__balance_rounds(&mut d, language, unique);
    let ghost d0 = heap_view(d);
    assert(rebalanced(sv, SubtreeView::Heap(d0)));
    proof {
        reveal(rebalanced);
        lemma_heap_totals(d0);
        assert(node_total(sv) == 1 + nodes_of(d0.children));
        assert(spec_leaves(sv) == leaves_of(d0.children));
        assert(subtree_wf(SubtreeView::Heap(d0)));
        assert(d0.symbol == spec_symbol(sv));
    }
    let mut children: Vec<Subtree> = Vec::new();
    std::mem::swap(&mut children, &mut d.children);
    let ghost cv = d0.children;
    proof {
        lemma_views_of(children@);
        lemma_wf_children(d0);
    }
    let n = children.len();
    let mut k: usize = 0;
    while k < n
        invariant
            k <= n,
            n == children@.len(),
            cv.len() == n,
            cv == d0.children,
            node_total(SubtreeView::Heap(d0)) == node_total(sv),
            node_total(sv) == 1 + nodes_of(cv),
            forall|j: int| k <= j < n ==> (#[trigger] children@[j])@ == cv[j],
            forall|j: int| 0 <= j < n ==> subtree_wf(#[trigger] cv[j]),
            sv == s@,
            forall|j: int|
                0 <= j < k ==> {
                    &&& subtree_wf((#[trigger] children@[j])@)
                    &&& spec_leaves(children@[j]@) == spec_leaves(cv[j])
                    &&& node_total(children@[j]@) == node_total(cv[j])
                    &&& spec_symbol(children@[j]@) == spec_symbol(cv[j])
                    &&& sizes_summed(cv[j]) ==> sizes_summed(children@[j]@) && spec_total_size(children@[j]@)
                        == spec_total_size(cv[j]) && rows_one(children@[j]@) == rows_one(cv[j])
                },
        decreases n - k,
    {
        let mut child = empty_leaf();
        std::mem::swap(&mut child, &mut children[k]);
        proof {
            lemma_nodes_of_element(cv, k as int);
            assert(child@ == cv[k as int]);
        }
        let balanced = balance_node(child, language);
        children.set(k, balanced);
        k = k + 1;
    }
    d.children = children;
    proof {
        lemma_views_of(d.children@);
        let nv = views_of(d.children@);
        lemma_leaves_of_pointwise(nv, cv);
        assert forall|j: int| 0 <= j < nv.len() implies subtree_wf(#[trigger] nv[j]) by {
            assert(nv[j] == d.children@[j]@);
        }
        lemma_children_wf(nv);
        assert(heap_view(d) =~= SubtreeHeapView { children: nv, ..d0 });
        lemma_heap_totals(heap_view(d));
        assert(spec_leaves(SubtreeView::Heap(heap_view(d))) == leaves_of(nv));
        assert(node_total(SubtreeView::Heap(heap_view(d))) == 1 + nodes_of(nv));
        if sizes_summed(sv) {
            assert(sizes_summed(SubtreeView::Heap(d0)));
            lemma_summed_all(cv);
            assert forall|i: int| 0 <= i < nv.len() implies sizes_summed(#[trigger] nv[i])
                && spec_total_size(nv[i]) == spec_total_size(cv[i]) && rows_one(nv[i]) == rows_one(cv[i]) by {
                assert(nv[i] == d.children@[i]@);
                assert(sizes_summed(cv[i]));
            }
            lemma_summed_all(nv);
            lemma_sums_pointwise(nv, cv);
            assert(sizes_summed(SubtreeView::Heap(heap_view(d))));
        }
        let h = heap_view(d);
        assert forall|i: int| 0 <= i < h.children.len() implies {
            &&& spec_leaves(#[trigger] h.children[i]) == spec_leaves(d0.children[i])
            &&& node_total(h.children[i]) == node_total(d0.children[i])
            &&& spec_symbol(h.children[i]) == spec_symbol(d0.children[i])
        } by {
            assert(h.children[i] == d.children@[i]@);
        }
        assert(rounds_then_children(sv->Heap_0, answers, language, h));
        assert(balanced_root(sv, answers, language, SubtreeView::Heap(h)));
    }
    Subtree::Heap(Rc::new(d))
}

/// Balances a tree (see `balance_node`). The pool's tree stack is left empty.
/// A tree whose nodes span what their children span keeps its total size.
/// Which nodes are rotated depends on which ones nobody else holds, which
/// the reference counts tell: the root is left as it is where another
/// handle holds it or it has no children; otherwise it goes through its
/// rounds of rotation exactly as `ts_subtree__balance_rounds` states for
/// the answers the counts gave, and then each child is balanced in turn.
pub fn ts_subtree_balance(self_0: Subtree, pool: &mut SubtreePool, language: &TSLanguage) -> (r:
    Subtree)
    requires
        subtree_wf(self_0@),
    ensures
        subtree_wf(r@),
        spec_leaves(r@) == spec_leaves(self_0@),
        node_total(r@) == node_total(self_0@),
        spec_symbol(r@) == spec_symbol(self_0@),
        r@ == self_0@ || exists|u: Seq<bool>| #[trigger] balanced_root(self_0@, u, language, r@),
        sizes_summed(self_0@) ==> sizes_summed(r@) && spec_total_size(r@) == spec_total_size(self_0@),
        final(pool).tree_stack.contents@.len() == 0,
        final(pool).tree_stack.capacity == old(pool).tree_stack.capacity,
        final(pool).free_trees == old(pool).free_trees,
{
    pool.tree_stack.contents = Vec::new();
    balance_node(self_0, language)
}

} // verus!
