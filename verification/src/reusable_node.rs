use vstd::prelude::*;

use crate::array::{array__delete, array_push, VoidArray};
use crate::subtree::{
    opt_view, spec_child_count, spec_children, spec_has_external_tokens, spec_total_size,
    subtree_wf, ts_subtree_child, ts_subtree_child_count, ts_subtree_has_external_tokens,
    ts_subtree_retain, ts_subtree_total_bytes, Subtree, SubtreeView,
};
use crate::subtree_ops::{external_tokens_wf, spec_last_external_token, ts_subtree_last_external_token};
use crate::tree_cursor::lemma_child_facts;

verus! {

/// A step of the walk over an old tree: a subtree, its index among its
/// parent's children, and the byte where it starts.
pub struct StackEntry {
    pub tree: Subtree,
    pub child_index: u32,
    pub byte_offset: u32,
}

pub type StackEntryArray = VoidArray<StackEntry>;

/// A walk over an old tree, leaf by leaf, for subtrees a new parse can
/// reuse; with the last subtree passed that had external tokens.
pub struct ReusableNode {
    pub stack: StackEntryArray,
    pub last_external_token: Option<Subtree>,
}

/// A step as plain values.
pub struct ReusableEntry {
    pub tree: SubtreeView,
    pub child_index: u32,
    pub byte_offset: u32,
}

pub open spec fn reusable_view(s: Seq<StackEntry>) -> Seq<ReusableEntry> {
    Seq::new(
        s.len(),
        |i: int| ReusableEntry { tree: s[i].tree@, child_index: s[i].child_index, byte_offset: s[i].byte_offset },
    )
}

/// Each step of a walk is a child of the step before, at its child index.
#[verifier::opaque]
pub open spec fn reusable_links(s: Seq<ReusableEntry>) -> bool {
    forall|k: int|
        1 <= k < s.len() ==> {
            &&& (#[trigger] s[k]).child_index < spec_child_count(s[k - 1].tree)
            &&& s[k].tree == spec_children(s[k - 1].tree)[s[k].child_index as int]
        }
}

/// The steps of a walk link up below a well-formed first subtree.
pub open spec fn reusable_wf(s: Seq<ReusableEntry>) -> bool {
    &&& s.len() > 0 ==> subtree_wf(s[0].tree) && external_tokens_wf(s[0].tree)
    &&& reusable_links(s)
}

proof fn lemma_view_push(s: Seq<StackEntry>, e: StackEntry)
    ensures
        reusable_view(s.push(e)) == reusable_view(s).push(
            ReusableEntry { tree: e.tree@, child_index: e.child_index, byte_offset: e.byte_offset },
        ),
{
    assert(reusable_view(s.push(e)) =~= reusable_view(s).push(
        ReusableEntry { tree: e.tree@, child_index: e.child_index, byte_offset: e.byte_offset },
    ));
}

proof fn lemma_view_drop_last(s: Seq<StackEntry>)
    requires
        s.len() > 0,
    ensures
        reusable_view(s.drop_last()) == reusable_view(s).drop_last(),
{
    assert(reusable_view(s.drop_last()) =~= reusable_view(s).drop_last());
}

pub(crate) proof fn lemma_reusable_steps_wf(s: Seq<ReusableEntry>, k: int)
    requires
        reusable_wf(s),
        0 <= k < s.len(),
    ensures
        subtree_wf(s[k].tree),
        external_tokens_wf(s[k].tree),
    decreases k,
{
    reveal(reusable_links);
    if k > 0 {
        lemma_reusable_steps_wf(s, k - 1);
        lemma_child_facts(s[k - 1].tree, s[k].child_index as int);
        if let SubtreeView::Heap(h) = s[k - 1].tree {
            assert(external_tokens_wf(h.children[s[k].child_index as int]));
        }
    }
}

proof fn lemma_reusable_take(s: Seq<ReusableEntry>, m: int)
    requires
        reusable_wf(s),
        0 <= m <= s.len(),
    ensures
        reusable_wf(s.take(m)),
{
    reveal(reusable_links);
    let t = s.take(m);
    assert forall|k: int| 1 <= k < t.len() implies {
        &&& (#[trigger] t[k]).child_index < spec_child_count(t[k - 1].tree)
        &&& t[k].tree == spec_children(t[k - 1].tree)[t[k].child_index as int]
    } by {
        assert(t[k] == s[k] && t[k - 1] == s[k - 1]);
    }
}

proof fn lemma_reusable_push(s: Seq<ReusableEntry>, e: ReusableEntry)
    requires
        reusable_wf(s),
        s.len() > 0,
        e.child_index < spec_child_count(s.last().tree),
        e.tree == spec_children(s.last().tree)[e.child_index as int],
    ensures
        reusable_wf(s.push(e)),
{
    reveal(reusable_links);
    let t = s.push(e);
    assert forall|k: int| 1 <= k < t.len() implies {
        &&& (#[trigger] t[k]).child_index < spec_child_count(t[k - 1].tree)
        &&& t[k].tree == spec_children(t[k - 1].tree)[t[k].child_index as int]
    } by {
        if k < s.len() {
            assert(t[k] == s[k] && t[k - 1] == s[k - 1]);
        }
    }
}

/// A walk with no steps and no last external token.
pub fn reusable_node_new() -> (r: ReusableNode)
    ensures
        r.stack.contents@.len() == 0,
        r.last_external_token is None,
        r.stack.wf(),
{
    ReusableNode { stack: VoidArray::new(), last_external_token: None }
}

/// Drops the steps and the last external token.
pub fn reusable_node_clear(self_0: &mut ReusableNode)
    requires
        old(self_0).stack.wf(),
    ensures
        final(self_0).stack.contents@.len() == 0,
        final(self_0).last_external_token is None,
        final(self_0).stack.wf(),
{
    self_0.stack.contents = Vec::new();
    self_0.last_external_token = None;
}

/// Starts a walk at `tree`, at byte 0.
pub fn reusable_node_reset(self_0: &mut ReusableNode, tree: Subtree)
    requires
        old(self_0).stack.wf(),
    ensures
        reusable_view(final(self_0).stack.contents@) == seq![
            ReusableEntry { tree: tree@, child_index: 0, byte_offset: 0 }
        ],
        final(self_0).last_external_token is None,
        final(self_0).stack.wf(),
{
    reusable_node_clear(self_0);
    let ghost t = tree@;
    array_push(&mut self_0.stack, StackEntry { tree, child_index: 0, byte_offset: 0 });
    proof {
        assert(reusable_view(self_0.stack.contents@) =~= seq![
            ReusableEntry { tree: t, child_index: 0, byte_offset: 0 }
        ]);
    }
}

/// The subtree the walk is at; `None` when it has no steps.
pub fn reusable_node_tree(self_0: &ReusableNode) -> (r: Option<Subtree>)
    ensures
        self_0.stack.contents@.len() > 0 ==> r == Some(self_0.stack.contents@.last().tree),
        self_0.stack.contents@.len() == 0 ==> r is None,
{
    let n = self_0.stack.contents.len();
    if n > 0 {
        Some(ts_subtree_retain(&self_0.stack.contents[n - 1].tree))
    } else {
        None
    }
}

/// The byte where the subtree the walk is at starts; `u32::MAX` when it has
/// no steps.
pub fn reusable_node_byte_offset(self_0: &ReusableNode) -> (r: u32)
    ensures
        self_0.stack.contents@.len() > 0 ==> r == self_0.stack.contents@.last().byte_offset,
        self_0.stack.contents@.len() == 0 ==> r == u32::MAX,
{
    let n = self_0.stack.contents.len();
    if n > 0 {
        self_0.stack.contents[n - 1].byte_offset
    } else {
        4294967295
    }
}

/// Releases the steps.
pub fn reusable_node_delete(self_0: &mut ReusableNode)
    ensures
        final(self_0).stack.contents@.len() == 0,
        final(self_0).stack.capacity == 0,
{
    array__delete(&mut self_0.stack);
}

/// The steps after moving past the last of `s`, at byte `byte_offset`: up to
/// the nearest ancestor with a later child, then to that child; none when
/// there is no such ancestor.
pub open spec fn spec_advance_from(s: Seq<ReusableEntry>, byte_offset: u32) -> Seq<ReusableEntry>
    decreases s.len(),
{
    if s.len() == 0 {
        s
    } else {
        let next = s.last().child_index + 1;
        let rest = s.drop_last();
        if rest.len() == 0 {
            rest
        } else if spec_child_count(rest.last().tree) > next {
            rest.push(
                ReusableEntry {
                    tree: spec_children(rest.last().tree)[next],
                    child_index: next as u32,
                    byte_offset,
                },
            )
        } else {
            spec_advance_from(rest, byte_offset)
        }
    }
}

/// Where the subtree after the last step starts.
pub open spec fn spec_end_offset(s: Seq<ReusableEntry>) -> u32 {
    crate::length::wadd(s.last().byte_offset, spec_total_size(s.last().tree).bytes)
}

proof fn lemma_advance_wf(s: Seq<ReusableEntry>, byte_offset: u32)
    requires
        reusable_wf(s),
    ensures
        reusable_wf(spec_advance_from(s, byte_offset)),
    decreases s.len(),
{
    if s.len() > 0 {
        let rest = s.drop_last();
        lemma_reusable_take(s, s.len() - 1);
        assert(s.take(s.len() - 1) =~= rest);
        let next = s.last().child_index + 1;
        if rest.len() > 0 {
            lemma_reusable_steps_wf(rest, rest.len() - 1);
            assert(rest.last() == rest[rest.len() - 1]);
            if spec_child_count(rest.last().tree) > next {
                lemma_reusable_push(
                    rest,
                    ReusableEntry {
                        tree: spec_children(rest.last().tree)[next],
                        child_index: next as u32,
                        byte_offset,
                    },
                );
            } else {
                lemma_advance_wf(rest, byte_offset);
            }
        }
    }
}

/// Moves the walk past the subtree it is at (see `spec_advance_from`),
/// keeping the last external token of that subtree, if it has one.
pub fn reusable_node_advance(self_0: &mut ReusableNode)
    requires
        old(self_0).stack.wf(),
        old(self_0).stack.contents@.len() > 0,
        reusable_wf(reusable_view(old(self_0).stack.contents@)),
    ensures
        ({
            let s = reusable_view(old(self_0).stack.contents@);
            reusable_view(final(self_0).stack.contents@) == spec_advance_from(s, spec_end_offset(s))
        }),
        reusable_wf(reusable_view(final(self_0).stack.contents@)),
        final(self_0).stack.wf(),
        spec_has_external_tokens(reusable_view(old(self_0).stack.contents@).last().tree) ==> opt_view(
            final(self_0).last_external_token,
        ) == spec_last_external_token(reusable_view(old(self_0).stack.contents@).last().tree),
        !spec_has_external_tokens(reusable_view(old(self_0).stack.contents@).last().tree)
            ==> final(self_0).last_external_token == old(self_0).last_external_token,
{
    let ghost s0 = reusable_view(self_0.stack.contents@);
    let n = self_0.stack.contents.len();
    proof {
        lemma_reusable_steps_wf(s0, n - 1);
        assert(s0.last() == s0[n - 1]);
    }
    let byte_offset = self_0.stack.contents[n - 1].byte_offset.wrapping_add(
        ts_subtree_total_bytes(&self_0.stack.contents[n - 1].tree),
    );
    if ts_subtree_has_external_tokens(&self_0.stack.contents[n - 1].tree) {
        self_0.last_external_token = ts_subtree_last_external_token(&self_0.stack.contents[n - 1].tree);
    }
    proof {
        assert(byte_offset == spec_end_offset(s0));
    }
    climb_to_next(self_0, byte_offset);
}

/// Pops steps up to the nearest one with a later child and moves to that
/// child, at `byte_offset` (see `spec_advance_from`).
fn climb_to_next(self_0: &mut ReusableNode, byte_offset: u32)
    requires
        old(self_0).stack.wf(),
        old(self_0).stack.contents@.len() > 0,
        reusable_wf(reusable_view(old(self_0).stack.contents@)),
    ensures
        reusable_view(final(self_0).stack.contents@) == spec_advance_from(
            reusable_view(old(self_0).stack.contents@),
            byte_offset,
        ),
        reusable_wf(reusable_view(final(self_0).stack.contents@)),
        final(self_0).stack.wf(),
        final(self_0).last_external_token == old(self_0).last_external_token,
    decreases old(self_0).stack.contents@.len(),
{
    let ghost before = reusable_view(self_0.stack.contents@);
    let ghost raw = self_0.stack.contents@;
    proof {
        lemma_advance_wf(before, byte_offset);
    }
    let popped = self_0.stack.contents.pop().unwrap();
    proof {
        lemma_view_drop_last(raw);
        assert(popped.child_index == before.last().child_index);
        lemma_reusable_take(before, before.len() - 1);
        assert(before.take(before.len() - 1) =~= before.drop_last());
    }
    let m = self_0.stack.contents.len();
    if m == 0 {
        return;
    }
    proof {
        let rest = before.drop_last();
        assert(rest.last() == rest[m - 1]);
        lemma_reusable_steps_wf(rest, m - 1);
        reveal(reusable_links);
        assert(before[before.len() - 1].child_index < spec_child_count(before[before.len() - 2].tree));
    }
    let next_index = popped.child_index + 1;
    if ts_subtree_child_count(&self_0.stack.contents[m - 1].tree) > next_index {
        let child = ts_subtree_retain(ts_subtree_child(&self_0.stack.contents[m - 1].tree, next_index as usize));
        let entry = StackEntry { tree: child, child_index: next_index, byte_offset };
        proof {
            lemma_view_push(self_0.stack.contents@, entry);
        }
        array_push(&mut self_0.stack, entry);
        return;
    }
    climb_to_next(self_0, byte_offset);
}

/// Moves the walk into the first child of the subtree it is at, at the same
/// byte; `false`, and no move, for a subtree without children.
pub fn reusable_node_descend(self_0: &mut ReusableNode) -> (r: bool)
    requires
        old(self_0).stack.wf(),
        old(self_0).stack.contents@.len() > 0,
        old(self_0).stack.contents@.len() < u32::MAX,
        reusable_wf(reusable_view(old(self_0).stack.contents@)),
    ensures
        ({
            let s = reusable_view(old(self_0).stack.contents@);
            &&& r == (spec_child_count(s.last().tree) > 0)
            &&& r ==> reusable_view(final(self_0).stack.contents@) == s.push(
                ReusableEntry {
                    tree: spec_children(s.last().tree)[0],
                    child_index: 0,
                    byte_offset: s.last().byte_offset,
                },
            )
            &&& !r ==> final(self_0).stack == old(self_0).stack
        }),
        reusable_wf(reusable_view(final(self_0).stack.contents@)),
        final(self_0).stack.wf(),
        final(self_0).stack.contents@.len() > 0,
        final(self_0).last_external_token == old(self_0).last_external_token,
{
    let ghost s0 = reusable_view(self_0.stack.contents@);
    let n = self_0.stack.contents.len();
    proof {
        assert(s0.last() == s0[n - 1]);
        lemma_reusable_steps_wf(s0, n - 1);
    }
    if ts_subtree_child_count(&self_0.stack.contents[n - 1].tree) > 0 {
        let child = ts_subtree_retain(ts_subtree_child(&self_0.stack.contents[n - 1].tree, 0));
        let byte_offset = self_0.stack.contents[n - 1].byte_offset;
        let entry = StackEntry { tree: child, child_index: 0, byte_offset };
        proof {
            lemma_view_push(self_0.stack.contents@, entry);
            lemma_reusable_push(s0, ReusableEntry { tree: child@, child_index: 0, byte_offset });
        }
        array_push(&mut self_0.stack, entry);
        true
    } else {
        false
    }
}

/// The steps from `t` down to its first leaf, each a first child, all at
/// byte `byte_offset`; none when `t` has no children.
pub open spec fn spec_leftmost_steps(t: SubtreeView, byte_offset: u32) -> Seq<ReusableEntry>
    decreases t,
{
    match t {
        SubtreeView::Heap(h) => if h.children.len() > 0 {
            seq![ReusableEntry { tree: h.children[0], child_index: 0, byte_offset }]
                + spec_leftmost_steps(h.children[0], byte_offset)
        } else {
            Seq::empty()
        },
        SubtreeView::Inline(_) => Seq::empty(),
    }
}

/// The steps of `s` followed by those down to the first leaf of its last
/// subtree.
pub open spec fn spec_down_to_leaf(s: Seq<ReusableEntry>) -> Seq<ReusableEntry> {
    s + spec_leftmost_steps(s.last().tree, s.last().byte_offset)
}

/// Moves the walk down to the first leaf of the subtree it is at (see
/// `spec_down_to_leaf`), then past it as `reusable_node_advance` does.
pub fn reusable_node_advance_past_leaf(self_0: &mut ReusableNode)
    requires
        old(self_0).stack.wf(),
        old(self_0).stack.contents@.len() > 0,
        reusable_wf(reusable_view(old(self_0).stack.contents@)),
        old(self_0).stack.contents@.len() + crate::subtree_balance::node_total(
            reusable_view(old(self_0).stack.contents@).last().tree,
        ) < u32::MAX,
    ensures
        ({
            let d = spec_down_to_leaf(reusable_view(old(self_0).stack.contents@));
            &&& reusable_view(final(self_0).stack.contents@) == spec_advance_from(d, spec_end_offset(d))
            &&& spec_has_external_tokens(d.last().tree) ==> opt_view(final(self_0).last_external_token)
                == spec_last_external_token(d.last().tree)
            &&& !spec_has_external_tokens(d.last().tree) ==> final(self_0).last_external_token
                == old(self_0).last_external_token
        }),
        reusable_wf(reusable_view(final(self_0).stack.contents@)),
        final(self_0).stack.wf(),
{
    let ghost d = spec_down_to_leaf(reusable_view(self_0.stack.contents@));
    let ghost token0 = self_0.last_external_token;
    loop
        invariant
            self_0.stack.wf(),
            self_0.stack.contents@.len() > 0,
            reusable_wf(reusable_view(self_0.stack.contents@)),
            self_0.stack.contents@.len() + crate::subtree_balance::node_total(
                reusable_view(self_0.stack.contents@).last().tree,
            ) < u32::MAX,
            spec_down_to_leaf(reusable_view(self_0.stack.contents@)) == d,
            self_0.last_external_token == token0,
        ensures
            self_0.stack.wf(),
            self_0.stack.contents@.len() > 0,
            reusable_wf(reusable_view(self_0.stack.contents@)),
            reusable_view(self_0.stack.contents@) == d,
            self_0.last_external_token == token0,
        decreases crate::subtree_balance::node_total(reusable_view(self_0.stack.contents@).last().tree),
    {
        let ghost s = reusable_view(self_0.stack.contents@);
        if !reusable_node_descend(self_0) {
            proof {
                assert(spec_leftmost_steps(s.last().tree, s.last().byte_offset) =~= Seq::<ReusableEntry>::empty());
                assert(spec_down_to_leaf(s) =~= s);
            }
            break;
        }
        proof {
            let t = s.last().tree;
            lemma_reusable_steps_wf(s, s.len() - 1);
            crate::tree_cursor::lemma_nodes_split(spec_children(t), 0, 0);
            assert(spec_children(t).subrange(0, spec_children(t).len() as int) =~= spec_children(t));
            let s2 = reusable_view(self_0.stack.contents@);
            assert(s2.last().tree == spec_children(t)[0]);
            assert(s2.last() == s2[s2.len() - 1]);
            assert(spec_down_to_leaf(s2) =~= spec_down_to_leaf(s));
        }
    }
    reusable_node_advance(self_0);
}

} // verus!
