use vstd::prelude::*;

use crate::language::{
    spec_alias_at, spec_field_map, TSLanguage, ts_language_alias_at, ts_language_field_map,
};
use crate::length::{length_add, u32_wrapping_add, wadd, Length};
use crate::node::{
    lemma_node_valid_wf, node_valid, node_view, spec_child_alias, spec_child_start,
    spec_node_alias, spec_node_start, spec_structural_index, ts_node_new, ts_node_start_byte,
    ts_node_start_point, ts_node_subtree, TSNode,
};
use crate::subtree::{
    lemma_children_wf, spec_child_count, spec_children, spec_extra, spec_size, spec_visible,
    spec_visible_child_count, subtree_wf, ts_subtree_child, ts_subtree_child_count,
    ts_subtree_extra, ts_subtree_padding, ts_subtree_size, ts_subtree_visible,
    ts_subtree_visible_child_count, Subtree, SubtreeView,
};
use crate::tree::{subtree_at, TSTree};
use crate::subtree_balance::{lemma_leaves_of_append, node_total, nodes_of};
use crate::subtree_string::spec_child_field;

verus! {

/// A step of a cursor's path: a subtree, where it starts, its index among
/// its parent's children and its index among the structural ones (counted
/// only for productions with aliases).
pub struct TreeCursorEntry<'t> {
    pub subtree: &'t Subtree,
    pub position: Length,
    pub child_index: u32,
    pub structural_child_index: u32,
}

/// A cursor that walks a tree from a node: the path from that node down to
/// the current one, with the node's own path in the tree.
pub struct TreeCursor<'t, 'l> {
    pub tree: &'t TSTree<'l>,
    pub root_path: Vec<u32>,
    pub stack: TreeCursorEntryArray<'t>,
}

/// The steps of a cursor, from its node down.
pub type TreeCursorEntryArray<'t> = Vec<TreeCursorEntry<'t>>;

/// The public name of a tree cursor.
pub type TSTreeCursor<'t, 'l> = TreeCursor<'t, 'l>;

/// A cursor step as plain values.
pub struct EntryView {
    pub subtree: SubtreeView,
    pub position: Length,
    pub child_index: u32,
    pub structural_child_index: u32,
}

pub open spec fn entry_view(e: TreeCursorEntry) -> EntryView {
    EntryView {
        subtree: e.subtree@,
        position: e.position,
        child_index: e.child_index,
        structural_child_index: e.structural_child_index,
    }
}

pub open spec fn stack_view(s: Seq<TreeCursorEntry>) -> Seq<EntryView> {
    Seq::new(s.len(), |i: int| entry_view(s[i]))
}

/// The steps of a cursor link up: the first is the subtree at the cursor's
/// root path, and each later one is a child of the step before, at its child
/// index.
#[verifier::opaque]
pub open spec fn stack_links(root: SubtreeView, root_path: Seq<u32>, s: Seq<EntryView>) -> bool {
    &&& subtree_at(root, root_path) == Some(s[0].subtree)
    &&& forall|k: int|
        1 <= k < s.len() ==> {
            &&& (#[trigger] s[k]).child_index < spec_child_count(s[k - 1].subtree)
            &&& s[k].subtree == spec_children(s[k - 1].subtree)[s[k].child_index as int]
        }
}

/// The steps of a cursor are well formed: at least one, in a well-formed
/// tree, linked up.
pub open spec fn stack_wf(root: SubtreeView, root_path: Seq<u32>, s: Seq<EntryView>) -> bool {
    &&& s.len() >= 1
    &&& subtree_wf(root)
    &&& stack_links(root, root_path, s)
}

pub open spec fn cursor_wf(c: TreeCursor) -> bool {
    stack_wf(c.tree.root@, c.root_path@, stack_view(c.stack@))
}

/// The structural index that a cursor records for child `i`: counted only
/// when the production has aliases.
pub open spec fn spec_cursor_structural(cs: Seq<SubtreeView>, production_id: u16, i: int) -> u32 {
    if production_id == 0 {
        0
    } else {
        spec_structural_index(cs, i)
    }
}

pub open spec fn spec_production_id(s: SubtreeView) -> u16 {
    match s {
        SubtreeView::Heap(h) => h.production_id,
        SubtreeView::Inline(_) => 0,
    }
}

/// The step for child `i` of a node with children `cs` and production
/// `production_id`, at `position`.
pub open spec fn spec_child_entry(
    cs: Seq<SubtreeView>,
    production_id: u16,
    position: Length,
    i: int,
) -> EntryView {
    EntryView {
        subtree: cs[i],
        position: spec_child_start(cs, position, i),
        child_index: i as u32,
        structural_child_index: spec_cursor_structural(cs, production_id, i),
    }
}

/// Whether child `i` shows in the tree: visible, or aliased.
pub open spec fn spec_child_shows(
    l: &TSLanguage,
    cs: Seq<SubtreeView>,
    production_id: u16,
    i: int,
) -> bool {
    spec_visible(cs[i]) || spec_child_alias(cs, l, production_id, i) != 0
}

/// The steps `goto_first_child` pushes below the subtree `s` at `position`,
/// and whether it found a shown child: the first child that shows; or,
/// through the first child that does not show but has visible children, the
/// steps found below it.
pub open spec fn spec_first_child_steps(l: &TSLanguage, s: SubtreeView, position: Length) -> (
    bool,
    Seq<EntryView>,
)
    decreases s, 1int, 0int,
{
    match s {
        SubtreeView::Heap(h) => spec_first_child_steps_from(
            l,
            h.children,
            h.production_id,
            position,
            0,
        ),
        SubtreeView::Inline(_) => (false, Seq::empty()),
    }
}

pub open spec fn spec_first_child_steps_from(
    l: &TSLanguage,
    cs: Seq<SubtreeView>,
    production_id: u16,
    position: Length,
    i: int,
) -> (bool, Seq<EntryView>)
    decreases cs, 0int, cs.len() - i,
{
    if i < 0 || i >= cs.len() {
        (false, Seq::empty())
    } else {
        let e = spec_child_entry(cs, production_id, position, i);
        if spec_child_shows(l, cs, production_id, i) {
            (true, seq![e])
        } else if spec_visible_child_count(cs[i]) > 0 {
            let (found, rest) = spec_first_child_steps(l, cs[i], e.position);
            (found, seq![e] + rest)
        } else {
            spec_first_child_steps_from(l, cs, production_id, position, i + 1)
        }
    }
}

pub(crate) proof fn lemma_child_facts(s: SubtreeView, i: int)
    requires
        subtree_wf(s),
        0 <= i < spec_child_count(s),
    ensures
        subtree_wf(spec_children(s)[i]),
        decreases_to!(s => spec_children(s)[i]),
{
    if let SubtreeView::Heap(h) = s {
        lemma_children_wf(h.children);
        assert(decreases_to!(s => h));
        assert(decreases_to!(h => h.children));
        assert(decreases_to!(h.children => h.children[i]));
    }
}

fn production_id_of(s: &Subtree) -> (p: u16)
    ensures
        p == spec_production_id(s@),
{
    match s {
        Subtree::Heap(h) => h.production_id,
        Subtree::Inline(_) => 0,
    }
}

/// Walks the children of `s` (at `position`) as `goto_first_child` does,
/// pushing the steps it takes.
fn first_child_steps<'t>(
    l: &TSLanguage,
    s: &'t Subtree,
    position: Length,
    stack: &mut Vec<TreeCursorEntry<'t>>,
) -> (found: bool)
    requires
        subtree_wf(s@),
    ensures
        stack_view(final(stack)@) == stack_view(old(stack)@) + spec_first_child_steps(
            l,
            s@,
            position,
        ).1,
        found == spec_first_child_steps(l, s@, position).0,
    decreases s@,
{
    let ghost old_view = stack_view(stack@);
    let n = ts_subtree_child_count(s);
    if n == 0 {
        proof {
            assert(stack_view(stack@) =~= old_view + spec_first_child_steps(l, s@, position).1);
        }
        return false;
    }
    let production_id = production_id_of(s);
    let ghost cs = spec_children(s@);
    let mut i: u32 = 0;
    let mut structural: u32 = 0;
    let mut next_position = position;
    while i < n
        invariant
            i <= n,
            n == cs.len(),
            cs == spec_children(s@),
            s@ is Heap,
            subtree_wf(s@),
            production_id == spec_production_id(s@),
            structural == spec_structural_index(cs, i as int),
            i < n ==> next_position == spec_child_start(cs, position, i as int),
            stack_view(stack@) == old_view,
            old_view == stack_view(old(stack)@),
            spec_first_child_steps(l, s@, position) == spec_first_child_steps_from(l, cs, production_id, position, i as int),
        decreases n - i,
    {
        proof {
            lemma_child_facts(s@, i as int);
        }
        let c = ts_subtree_child(s, i as usize);
        let extra = ts_subtree_extra(c);
        let alias = if extra {
            0
        } else {
            ts_language_alias_at(l, production_id as u32, structural)
        };
        let entry = TreeCursorEntry {
            subtree: c,
            position: next_position,
            child_index: i,
            structural_child_index: if production_id == 0 {
                0
            } else {
                structural
            },
        };
        let shows = ts_subtree_visible(c) || alias != 0;
        let after = length_add(next_position, ts_subtree_size(c));
        proof {
            assert(c@ == cs[i as int]);
            assert(alias == spec_child_alias(cs, l, production_id, i as int));
            assert(shows == spec_child_shows(l, cs, production_id, i as int));
            assert(entry_view(entry) == spec_child_entry(cs, production_id, position, i as int));
        }
        if shows {
            stack.push(entry);
            proof {
                assert(stack_view(stack@) =~= old_view + seq![spec_child_entry(cs, production_id, position, i as int)]);
            }
            return true;
        }
        if ts_subtree_visible_child_count(c) > 0 {
            let child_position = entry.position;
            stack.push(entry);
            let ghost mid = stack_view(stack@);
            proof {
                assert(mid =~= old_view + seq![spec_child_entry(cs, production_id, position, i as int)]);
            }
            let found = first_child_steps(l, c, child_position, stack);
            proof {
                assert(stack_view(stack@) =~= old_view + (seq![spec_child_entry(cs, production_id, position, i as int)]
                    + spec_first_child_steps(l, cs[i as int], child_position).1));
            }
            return found;
        }
        if !extra {
            structural = u32_wrapping_add(structural, 1);
        }
        i = i + 1;
        if i < n {
            next_position = length_add(after, ts_subtree_padding(ts_subtree_child(s, i as usize)));
        }
    }
    proof {
        assert(stack_view(stack@) =~= old_view + spec_first_child_steps(l, s@, position).1);
    }
    false
}

/// The steps `goto_first_child` pushes form a chain of children below `s`.
proof fn lemma_first_child_steps_chain(l: &TSLanguage, s: SubtreeView, position: Length)
    requires
        subtree_wf(s),
    ensures
        ({
            let steps = spec_first_child_steps(l, s, position).1;
            &&& steps.len() > 0 ==> steps[0].child_index < spec_child_count(s) && steps[0].subtree
                == spec_children(s)[steps[0].child_index as int]
            &&& forall|k: int|
                1 <= k < steps.len() ==> {
                    &&& (#[trigger] steps[k]).child_index < spec_child_count(steps[k - 1].subtree)
                    &&& steps[k].subtree == spec_children(steps[k - 1].subtree)[steps[k].child_index as int]
                }
        }),
    decreases s, 1int, 0int,
{
    if let SubtreeView::Heap(h) = s {
        lemma_first_child_steps_chain_from(l, s, h.children, h.production_id, position, 0);
    }
}

proof fn lemma_first_child_steps_chain_from(
    l: &TSLanguage,
    s: SubtreeView,
    cs: Seq<SubtreeView>,
    production_id: u16,
    position: Length,
    i: int,
)
    requires
        subtree_wf(s),
        cs == spec_children(s),
        0 <= i,
        cs.len() <= u32::MAX,
    ensures
        ({
            let steps = spec_first_child_steps_from(l, cs, production_id, position, i).1;
            &&& steps.len() > 0 ==> steps[0].child_index < spec_child_count(s) && steps[0].subtree
                == spec_children(s)[steps[0].child_index as int]
            &&& forall|k: int|
                1 <= k < steps.len() ==> {
                    &&& (#[trigger] steps[k]).child_index < spec_child_count(steps[k - 1].subtree)
                    &&& steps[k].subtree == spec_children(steps[k - 1].subtree)[steps[k].child_index as int]
                }
        }),
    decreases cs, 0int, cs.len() - i,
{
    if i < cs.len() {
        let e = spec_child_entry(cs, production_id, position, i);
        if spec_child_shows(l, cs, production_id, i) {
        } else if spec_visible_child_count(cs[i]) > 0 {
            lemma_child_facts(s, i);
            lemma_first_child_steps_chain(l, cs[i], e.position);
            let rest = spec_first_child_steps(l, cs[i], e.position).1;
            let steps = seq![e] + rest;
            assert forall|k: int| 1 <= k < steps.len() implies {
                &&& (#[trigger] steps[k]).child_index < spec_child_count(steps[k - 1].subtree)
                &&& steps[k].subtree == spec_children(steps[k - 1].subtree)[steps[k].child_index as int]
            } by {
                assert(steps[k] == rest[k - 1]);
                if k > 1 {
                    assert(steps[k - 1] == rest[k - 2]);
                }
            }
        } else {
            lemma_first_child_steps_chain_from(l, s, cs, production_id, position, i + 1);
        }
    }
}

/// A stack stays well formed when a chain of children below its last step is
/// pushed.
proof fn lemma_stack_push_chain(
    root: SubtreeView,
    root_path: Seq<u32>,
    s: Seq<EntryView>,
    steps: Seq<EntryView>,
)
    requires
        stack_wf(root, root_path, s),
        steps.len() > 0 ==> steps[0].child_index < spec_child_count(s.last().subtree) && steps[0].subtree
            == spec_children(s.last().subtree)[steps[0].child_index as int],
        forall|k: int|
            1 <= k < steps.len() ==> {
                &&& (#[trigger] steps[k]).child_index < spec_child_count(steps[k - 1].subtree)
                &&& steps[k].subtree == spec_children(steps[k - 1].subtree)[steps[k].child_index as int]
            },
    ensures
        stack_wf(root, root_path, s + steps),
{
    reveal(stack_links);
    let t = s + steps;
    assert forall|k: int| 1 <= k < t.len() implies {
        &&& (#[trigger] t[k]).child_index < spec_child_count(t[k - 1].subtree)
        &&& t[k].subtree == spec_children(t[k - 1].subtree)[t[k].child_index as int]
    } by {
        if k < s.len() {
            assert(t[k] == s[k]);
            assert(t[k - 1] == s[k - 1]);
        } else if k == s.len() {
            assert(t[k] == steps[0]);
            assert(t[k - 1] == s.last());
        } else {
            assert(t[k] == steps[k - s.len()]);
            assert(t[k - 1] == steps[k - 1 - s.len()]);
        }
    }
}

/// Every step of a well-formed stack is a well-formed subtree.
proof fn lemma_stack_steps_wf(root: SubtreeView, root_path: Seq<u32>, s: Seq<EntryView>, k: int)
    requires
        stack_wf(root, root_path, s),
        0 <= k < s.len(),
    ensures
        subtree_wf(s[k].subtree),
    decreases k,
{
    reveal(stack_links);
    if k == 0 {
        crate::tree::lemma_subtree_at_wf(root, root_path);
    } else {
        lemma_stack_steps_wf(root, root_path, s, k - 1);
        lemma_child_facts(s[k - 1].subtree, s[k].child_index as int);
    }
}

fn clone_path(path: &Vec<u32>) -> (r: Vec<u32>)
    ensures
        r@ == path@,
{
    let mut r: Vec<u32> = Vec::new();
    let mut k: usize = 0;
    while k < path.len()
        invariant
            k <= path@.len(),
            r@ == path@.subrange(0, k as int),
        decreases path@.len() - k,
    {
        r.push(path[k]);
        k = k + 1;
    }
    proof {
        assert(path@.subrange(0, path@.len() as int) =~= path@);
    }
    r
}

/// A cursor at a node: a single step, the node's subtree at its start.
pub fn ts_tree_cursor_new<'t, 'l>(node: &TSNode<'t, 'l>) -> (c: TreeCursor<'t, 'l>)
    requires
        node_valid(*node),
    ensures
        cursor_wf(c),
        Some(c.tree) == node.tree,
        c.root_path@ == node.path@,
        stack_view(c.stack@) == seq![
            EntryView {
                subtree: node_view(*node),
                position: spec_node_start(*node),
                child_index: 0,
                structural_child_index: 0,
            }
        ],
{
    let tree = node.tree.unwrap();
    let subtree = ts_node_subtree(node);
    let entry = TreeCursorEntry {
        subtree,
        position: Length { bytes: ts_node_start_byte(node), extent: ts_node_start_point(node) },
        child_index: 0,
        structural_child_index: 0,
    };
    let mut stack: Vec<TreeCursorEntry<'t>> = Vec::new();
    stack.push(entry);
    let c = TreeCursor { tree, root_path: clone_path(&node.path), stack };
    proof {
        assert(stack_view(c.stack@) =~= seq![entry_view(entry)]);
        reveal(stack_links);
    }
    c
}

/// Moves a cursor to a node (see `ts_tree_cursor_new`).
pub fn ts_tree_cursor_reset<'t, 'l>(self_0: &mut TreeCursor<'t, 'l>, node: &TSNode<'t, 'l>)
    requires
        node_valid(*node),
    ensures
        cursor_wf(*final(self_0)),
        Some(final(self_0).tree) == node.tree,
        final(self_0).root_path@ == node.path@,
        stack_view(final(self_0).stack@) == seq![
            EntryView {
                subtree: node_view(*node),
                position: spec_node_start(*node),
                child_index: 0,
                structural_child_index: 0,
            }
        ],
{
    *self_0 = ts_tree_cursor_new(node);
}

/// Moves a cursor to a node (see `ts_tree_cursor_new`).
pub fn ts_tree_cursor_init<'t, 'l>(self_0: &mut TreeCursor<'t, 'l>, node: &TSNode<'t, 'l>)
    requires
        node_valid(*node),
    ensures
        cursor_wf(*final(self_0)),
        Some(final(self_0).tree) == node.tree,
        final(self_0).root_path@ == node.path@,
        stack_view(final(self_0).stack@) == seq![
            EntryView {
                subtree: node_view(*node),
                position: spec_node_start(*node),
                child_index: 0,
                structural_child_index: 0,
            }
        ],
{
    *self_0 = ts_tree_cursor_new(node);
}

/// Releases the steps of a cursor.
pub fn ts_tree_cursor_delete(self_0: &mut TreeCursor)
    ensures
        final(self_0).stack@.len() == 0,
        final(self_0).tree == old(self_0).tree,
{
    self_0.stack = Vec::new();
}

/// A copy of a cursor, at the same steps.
pub fn ts_tree_cursor_copy<'t, 'l>(cursor: &TreeCursor<'t, 'l>) -> (c: TreeCursor<'t, 'l>)
    ensures
        c.tree == cursor.tree,
        c.root_path@ == cursor.root_path@,
        stack_view(c.stack@) == stack_view(cursor.stack@),
{
    let mut stack: Vec<TreeCursorEntry<'t>> = Vec::new();
    let mut k: usize = 0;
    while k < cursor.stack.len()
        invariant
            k <= cursor.stack@.len(),
            stack@.len() == k,
            forall|i: int| 0 <= i < k ==> entry_view(#[trigger] stack@[i]) == entry_view(cursor.stack@[i]),
        decreases cursor.stack@.len() - k,
    {
        let e = &cursor.stack[k];
        let copy = TreeCursorEntry {
            subtree: e.subtree,
            position: e.position,
            child_index: e.child_index,
            structural_child_index: e.structural_child_index,
        };
        stack.push(copy);
        k = k + 1;
    }
    proof {
        assert(stack_view(stack@) =~= stack_view(cursor.stack@));
    }
    TreeCursor { tree: cursor.tree, root_path: clone_path(&cursor.root_path), stack }
}

/// Moves a cursor to the first child of its node that shows in the tree,
/// through hidden children (see `spec_first_child_steps`). The steps taken
/// stay even when no shown child is found.
pub fn ts_tree_cursor_goto_first_child(self_0: &mut TreeCursor) -> (r: bool)
    requires
        cursor_wf(*old(self_0)),
    ensures
        ({
            let last = stack_view(old(self_0).stack@).last();
            let steps = spec_first_child_steps(old(self_0).tree.language, last.subtree, last.position);
            &&& r == steps.0
            &&& stack_view(final(self_0).stack@) == stack_view(old(self_0).stack@) + steps.1
        }),
        spec_walk_left(stack_view(final(self_0).stack@), true) < spec_walk_left(
            stack_view(old(self_0).stack@),
            false,
        ),
        r ==> spec_walk_left(stack_view(final(self_0).stack@), false) < spec_walk_left(
            stack_view(old(self_0).stack@),
            false,
        ),
        cursor_wf(*final(self_0)),
        final(self_0).tree == old(self_0).tree,
        final(self_0).root_path@ == old(self_0).root_path@,
{
    let n = self_0.stack.len();
    let top = self_0.stack[n - 1].subtree;
    let position = self_0.stack[n - 1].position;
    let ghost sv = stack_view(self_0.stack@);
    proof {
        assert(sv[n - 1] == entry_view(self_0.stack@[n - 1]));
        lemma_stack_steps_wf(self_0.tree.root@, self_0.root_path@, sv, n - 1);
        lemma_first_child_steps_chain(self_0.tree.language, top@, position);
    }
    let found = first_child_steps(self_0.tree.language, top, position, &mut self_0.stack);
    proof {
        lemma_stack_push_chain(
            self_0.tree.root@,
            self_0.root_path@,
            sv,
            spec_first_child_steps(self_0.tree.language, top@, position).1,
        );
        let steps = spec_first_child_steps(self_0.tree.language, top@, position).1;
        lemma_chain_walk(sv, steps);
        lemma_first_child_found(self_0.tree.language, top@, position);
        assert(sv.last() == sv[n - 1]);
        assert(stack_view(self_0.stack@).len() > 0);
    }
    found
}

/// The path of the node a cursor is at: the cursor's root path, then the
/// child index of each step below the first.
pub open spec fn spec_cursor_path(root_path: Seq<u32>, s: Seq<EntryView>) -> Seq<u32> {
    root_path + Seq::new((s.len() - 1) as nat, |i: int| s[i + 1].child_index)
}

/// The alias of a cursor's node: the one its parent's production gives it at
/// its structural index, unless it is extra.
pub open spec fn spec_current_alias(l: &TSLanguage, s: Seq<EntryView>) -> u16 {
    if s.len() > 1 && !spec_extra(s.last().subtree) {
        spec_alias_at(
            l,
            spec_production_id(s[s.len() - 2].subtree) as u32,
            s.last().structural_child_index,
        )
    } else {
        0
    }
}

/// The path of the first `k + 1` steps of a well-formed stack leads to step `k`.
proof fn lemma_cursor_path(root: SubtreeView, root_path: Seq<u32>, s: Seq<EntryView>, k: int)
    requires
        stack_wf(root, root_path, s),
        0 <= k < s.len(),
    ensures
        subtree_at(root, spec_cursor_path(root_path, s.take(k + 1))) == Some(s[k].subtree),
    decreases k,
{
    reveal(stack_links);
    let p = spec_cursor_path(root_path, s.take(k + 1));
    if k == 0 {
        assert(p =~= root_path);
    } else {
        lemma_cursor_path(root, root_path, s, k - 1);
        let q = spec_cursor_path(root_path, s.take(k));
        assert(p.drop_last() =~= q);
        assert(p.last() == s[k].child_index);
    }
}

/// The node a cursor is at.
pub fn ts_tree_cursor_current_node<'t, 'l>(self_0: &TreeCursor<'t, 'l>) -> (n: TSNode<'t, 'l>)
    requires
        cursor_wf(*self_0),
    ensures
        n.tree == Some(self_0.tree),
        n.path@ == spec_cursor_path(self_0.root_path@, stack_view(self_0.stack@)),
        spec_node_start(n) == stack_view(self_0.stack@).last().position,
        spec_node_alias(n) == spec_current_alias(self_0.tree.language, stack_view(self_0.stack@)),
        node_valid(n),
        node_view(n) == stack_view(self_0.stack@).last().subtree,
{
    let ghost sv = stack_view(self_0.stack@);
    let n = self_0.stack.len();
    let mut path = clone_path(&self_0.root_path);
    let mut k: usize = 1;
    while k < n
        invariant
            1 <= k <= n,
            n == self_0.stack@.len(),
            sv == stack_view(self_0.stack@),
            path@ == spec_cursor_path(self_0.root_path@, sv.take(k as int)),
        decreases n - k,
    {
        proof {
            assert(sv[k as int] == entry_view(self_0.stack@[k as int]));
        }
        path.push(self_0.stack[k].child_index);
        proof {
            assert(path@ =~= spec_cursor_path(self_0.root_path@, sv.take(k as int + 1)));
        }
        k = k + 1;
    }
    let last = &self_0.stack[n - 1];
    let mut alias: u16 = 0;
    if n > 1 && !ts_subtree_extra(last.subtree) {
        let parent_pid = production_id_of(self_0.stack[n - 2].subtree);
        alias = ts_language_alias_at(self_0.tree.language, parent_pid as u32, last.structural_child_index);
    }
    proof {
        assert(sv.take(n as int) =~= sv);
        assert(sv[n - 1] == entry_view(self_0.stack@[n - 1]));
        if n > 1 {
            assert(sv[n - 2] == entry_view(self_0.stack@[n - 2]));
        }
        lemma_cursor_path(self_0.tree.root@, self_0.root_path@, sv, n - 1);
    }
    ts_node_new(self_0.tree, path, last.position, alias)
}

/// The index of the nearest step at or above `i` that shows in the tree:
/// visible, or aliased by its parent's production; -1 for none.
pub open spec fn spec_shown_step(l: &TSLanguage, s: Seq<EntryView>, i: int) -> int
    decreases i + 1,
{
    if i < 0 {
        -1
    } else {
        let aliased = i > 0 && spec_alias_at(
            l,
            spec_production_id(s[i - 1].subtree) as u32,
            s[i].structural_child_index,
        ) != 0;
        if spec_visible(s[i].subtree) || aliased {
            i
        } else {
            spec_shown_step(l, s, i - 1)
        }
    }
}

proof fn lemma_shown_step(l: &TSLanguage, s: Seq<EntryView>, i: int)
    requires
        -1 <= i < s.len(),
    ensures
        -1 <= spec_shown_step(l, s, i) <= i,
    decreases i + 1,
{
    if i >= 0 {
        lemma_shown_step(l, s, i - 1);
    }
}

/// The view of a prefix of steps is the prefix of the view.
proof fn lemma_stack_view_prefix(v: Seq<TreeCursorEntry>, k: int)
    requires
        0 <= k <= v.len(),
    ensures
        stack_view(v.subrange(0, k)) == stack_view(v).take(k),
{
    assert(stack_view(v.subrange(0, k)) =~= stack_view(v).take(k));
}

/// Every nonempty prefix of a well-formed stack is well formed.
proof fn lemma_stack_take(root: SubtreeView, root_path: Seq<u32>, s: Seq<EntryView>, k: int)
    requires
        stack_wf(root, root_path, s),
        1 <= k <= s.len(),
    ensures
        stack_wf(root, root_path, s.take(k)),
{
    reveal(stack_links);
    let t = s.take(k);
    assert forall|m: int| 1 <= m < t.len() implies {
        &&& (#[trigger] t[m]).child_index < spec_child_count(t[m - 1].subtree)
        &&& t[m].subtree == spec_children(t[m - 1].subtree)[t[m].child_index as int]
    } by {
        assert(t[m] == s[m]);
        assert(t[m - 1] == s[m - 1]);
    }
    assert(t[0] == s[0]);
}

fn shown_step(self_0: &TreeCursor) -> (j: Option<usize>)
    requires
        cursor_wf(*self_0),
    ensures
        ({
            let s = stack_view(self_0.stack@);
            let k = spec_shown_step(self_0.tree.language, s, s.len() - 2);
            match j {
                Some(j) => k == j && j < s.len() - 1,
                None => k < 0,
            }
        }),
{
    let ghost sv = stack_view(self_0.stack@);
    let n = self_0.stack.len();
    let l = self_0.tree.language;
    let mut i: usize = n - 1;
    proof {
        lemma_shown_step(l, sv, n - 2);
    }
    while i > 0
        invariant
            i < n,
            n == self_0.stack@.len(),
            sv == stack_view(self_0.stack@),
            spec_shown_step(l, sv, n - 2) == spec_shown_step(l, sv, i - 1),
            l == self_0.tree.language,
        decreases i,
    {
        let k = i - 1;
        proof {
            assert(sv[k as int] == entry_view(self_0.stack@[k as int]));
            if k > 0 {
                assert(sv[k - 1] == entry_view(self_0.stack@[k - 1]));
            }
        }
        let entry = &self_0.stack[k];
        let mut is_aliased = false;
        if k > 0 {
            let parent_pid = production_id_of(self_0.stack[k - 1].subtree);
            is_aliased = ts_language_alias_at(l, parent_pid as u32, entry.structural_child_index) != 0;
        }
        if ts_subtree_visible(entry.subtree) || is_aliased {
            return Some(k);
        }
        i = k;
    }
    None
}

/// Moves a cursor up to the nearest ancestor that shows in the tree (see
/// `spec_shown_step`); a cursor at its first step stays.
#[verifier::spinoff_prover]
pub fn ts_tree_cursor_goto_parent(self_0: &mut TreeCursor) -> (r: bool)
    requires
        cursor_wf(*old(self_0)),
    ensures
        ({
            let s = stack_view(old(self_0).stack@);
            let j = spec_shown_step(old(self_0).tree.language, s, s.len() - 2);
            &&& r == (j >= 0)
            &&& r ==> stack_view(final(self_0).stack@) == s.take(j + 1)
            &&& !r ==> stack_view(final(self_0).stack@) == s
        }),
        r ==> spec_walk_left(stack_view(final(self_0).stack@), true) <= spec_walk_left(
            stack_view(old(self_0).stack@),
            true,
        ),
        r ==> final(self_0).stack@.len() < old(self_0).stack@.len(),
        cursor_wf(*final(self_0)),
        final(self_0).tree == old(self_0).tree,
        final(self_0).root_path@ == old(self_0).root_path@,
{
    let ghost sv = stack_view(self_0.stack@);
    let found = shown_step(self_0);
    match found {
        Some(k) => {
            let n = self_0.stack.len();
            assert(sv.len() == n);
            self_0.stack.truncate(k + 1);
            proof {
                lemma_stack_view_prefix(old(self_0).stack@, k + 1);
                lemma_stack_take(old(self_0).tree.root@, old(self_0).root_path@, sv, k + 1);
                lemma_right_nodes_prefix(sv, k + 1);
            }
            true
        },
        None => false,
    }
}

/// The field of a cursor's node: looking at the node and the hidden nodes
/// above it, up to the first ancestor that shows or an extra node, the first
/// field that a parent's production gives one of them.
pub open spec fn spec_cursor_field(l: &TSLanguage, s: Seq<EntryView>, i: int) -> u16
    decreases i,
{
    if i <= 0 || i >= s.len() {
        0
    } else {
        let e = s[i];
        let parent_pid = spec_production_id(s[i - 1].subtree);
        if i != s.len() - 1 && (spec_visible(e.subtree) || spec_alias_at(
            l,
            parent_pid as u32,
            e.structural_child_index,
        ) != 0) {
            0
        } else if spec_extra(e.subtree) {
            0
        } else {
            let (start, end) = spec_field_map(l, parent_pid as u32);
            match spec_child_field(l, start as int, end as int, e.structural_child_index) {
                Some(id) => id,
                None => spec_cursor_field(l, s, i - 1),
            }
        }
    }
}

/// The field id of a cursor's node, 0 for none (see `spec_cursor_field`).
pub fn ts_tree_cursor_current_field_id(self_0: &TreeCursor) -> (id: u16)
    requires
        cursor_wf(*self_0),
    ensures
        id == spec_cursor_field(
            self_0.tree.language,
            stack_view(self_0.stack@),
            stack_view(self_0.stack@).len() - 1,
        ),
{
    let ghost sv = stack_view(self_0.stack@);
    let l = self_0.tree.language;
    let n = self_0.stack.len();
    let mut i: usize = n - 1;
    while i > 0
        invariant
            i < n,
            n == self_0.stack@.len(),
            sv == stack_view(self_0.stack@),
            l == self_0.tree.language,
            spec_cursor_field(l, sv, n - 1) == spec_cursor_field(l, sv, i as int),
        decreases i,
    {
        proof {
            assert(sv[i as int] == entry_view(self_0.stack@[i as int]));
            assert(sv[i - 1] == entry_view(self_0.stack@[i - 1]));
        }
        let entry = &self_0.stack[i];
        let parent_pid = production_id_of(self_0.stack[i - 1].subtree);
        if i != n - 1 {
            if ts_subtree_visible(entry.subtree) {
                return 0;
            }
            if ts_language_alias_at(l, parent_pid as u32, entry.structural_child_index) != 0 {
                return 0;
            }
        }
        if ts_subtree_extra(entry.subtree) {
            return 0;
        }
        let (start, end) = ts_language_field_map(l, parent_pid as u32);
        match crate::subtree_string::child_field(l, start, end, entry.structural_child_index) {
            Some(id) => {
                return id;
            },
            None => {},
        }
        i = i - 1;
    }
    0
}

/// Whether a production's field entries from `k` up to `end` give the field
/// `field` to a structural child after `index`.
pub open spec fn spec_later_field(l: &TSLanguage, k: int, end: int, field: u16, index: u32) -> bool
    decreases end - k,
{
    if k >= end || k < 0 || k >= l.field_map_entries@.len() {
        false
    } else {
        let e = l.field_map_entries@[k];
        if e.field_id == field && e.child_index as u32 > index {
            true
        } else {
            spec_later_field(l, k + 1, end, field, index)
        }
    }
}

/// What a cursor's node and the hidden nodes above it, from step `i` up,
/// tell about it, added to `acc`: its field (the first that a parent's
/// production gives one of them), whether one of them has later siblings,
/// and whether a later sibling can have that field. The walk stops at an
/// ancestor that shows, and after an extra node.
pub open spec fn spec_status_from(l: &TSLanguage, s: Seq<EntryView>, i: int, acc: (u16, bool, bool)) -> (u16, bool, bool)
    decreases i,
{
    if i <= 0 || i >= s.len() {
        acc
    } else {
        let e = s[i];
        let parent = s[i - 1].subtree;
        let pid = spec_production_id(parent);
        if i != s.len() - 1 && (spec_visible(e.subtree) || spec_alias_at(
            l,
            pid as u32,
            e.structural_child_index,
        ) != 0) {
            acc
        } else {
            let later = acc.1 || spec_child_count(parent) > e.child_index + 1;
            if spec_extra(e.subtree) {
                (acc.0, later, acc.2)
            } else {
                let (start, end) = spec_field_map(l, pid as u32);
                let (field, with_field) = if acc.0 == 0 {
                    match spec_child_field(l, start as int, end as int, e.structural_child_index) {
                        Some(id) => (id, false),
                        None => (0u16, acc.2),
                    }
                } else {
                    (acc.0, acc.2)
                };
                let with_field2 = if field != 0 {
                    with_field || spec_later_field(l, start as int, end as int, field, e.structural_child_index)
                } else {
                    with_field
                };
                spec_status_from(l, s, i - 1, (field, later, with_field2))
            }
        }
    }
}

fn later_field(l: &TSLanguage, start: u32, end: u32, field: u16, index: u32) -> (r: bool)
    ensures
        r == spec_later_field(l, start as int, end as int, field, index),
{
    let mut k: u32 = start;
    while k < end
        invariant
            start <= k || k >= end,
            spec_later_field(l, start as int, end as int, field, index) == spec_later_field(
                l,
                k as int,
                end as int,
                field,
                index,
            ),
        decreases end - k,
    {
        if (k as usize) >= l.field_map_entries.len() {
            return false;
        }
        let e = l.field_map_entries[k as usize];
        if e.field_id == field && e.child_index as u32 > index {
            return true;
        }
        k = k + 1;
    }
    false
}

proof fn lemma_child_field_named(l: &TSLanguage, k: int, end: int, index: u32)
    requires
        forall|j: int| 0 <= j < l.field_map_entries@.len() ==> (#[trigger] l.field_map_entries@[j]).field_id != 0,
    ensures
        spec_child_field(l, k, end, index) matches Some(id) ==> id != 0,
    decreases end - k,
{
    if !(k >= end || k < 0 || k >= l.field_map_entries@.len()) {
        let e = l.field_map_entries@[k];
        if !(!e.inherited && e.child_index as u32 == index) {
            lemma_child_field_named(l, k + 1, end, index);
        }
    }
}

proof fn lemma_status_keeps_field(l: &TSLanguage, s: Seq<EntryView>, i: int, acc: (u16, bool, bool))
    ensures
        acc.0 != 0 ==> spec_status_from(l, s, i, acc).0 == acc.0,
        (acc.2 ==> acc.0 != 0) ==> (spec_status_from(l, s, i, acc).2 ==> spec_status_from(l, s, i, acc).0
            != 0),
    decreases i,
{
    if !(i <= 0 || i >= s.len()) {
        let e = s[i];
        let pid = spec_production_id(s[i - 1].subtree);
        let later = acc.1 || spec_child_count(s[i - 1].subtree) > e.child_index + 1;
        let (start, end) = spec_field_map(l, pid as u32);
        let (field, with_field) = if acc.0 == 0 {
            match spec_child_field(l, start as int, end as int, e.structural_child_index) {
                Some(id) => (id, false),
                None => (0u16, acc.2),
            }
        } else {
            (acc.0, acc.2)
        };
        let with_field2 = if field != 0 {
            with_field || spec_later_field(l, start as int, end as int, field, e.structural_child_index)
        } else {
            with_field
        };
        lemma_status_keeps_field(l, s, i - 1, (field, later, with_field2));
    }
}

proof fn lemma_status_field(l: &TSLanguage, s: Seq<EntryView>, i: int, acc: (u16, bool, bool))
    requires
        acc.0 == 0,
        forall|j: int| 0 <= j < l.field_map_entries@.len() ==> (#[trigger] l.field_map_entries@[j]).field_id != 0,
    ensures
        spec_status_from(l, s, i, acc).0 == spec_cursor_field(l, s, i),
    decreases i,
{
    if !(i <= 0 || i >= s.len()) {
        let e = s[i];
        let pid = spec_production_id(s[i - 1].subtree);
        let later = acc.1 || spec_child_count(s[i - 1].subtree) > e.child_index + 1;
        let (start, end) = spec_field_map(l, pid as u32);
        lemma_child_field_named(l, start as int, end as int, e.structural_child_index);
        match spec_child_field(l, start as int, end as int, e.structural_child_index) {
            Some(id) => {
                let with_field2 = with_field_after(l, start as int, end as int, id, e.structural_child_index, false);
                lemma_status_keeps_field(l, s, i - 1, (id, later, with_field2));
            },
            None => {
                lemma_status_field(l, s, i - 1, (0u16, later, acc.2));
            },
        }
    }
}

/// Whether a later sibling can have `field` after the step at `index`.
spec fn with_field_after(l: &TSLanguage, start: int, end: int, field: u16, index: u32, with_field: bool) -> bool {
    if field != 0 {
        with_field || spec_later_field(l, start, end, field, index)
    } else {
        with_field
    }
}

/// The status of a cursor agrees with its field: the field it reports is
/// the cursor's field (where every entry of the language's field map names
/// a field), a later sibling can have that field only where there is one,
/// and at the root there is no field and nothing later.
pub proof fn lemma_status_agrees_with_field(c: TreeCursor)
    requires
        cursor_wf(c),
        forall|j: int|
            0 <= j < c.tree.language.field_map_entries@.len() ==> (#[trigger] c.tree.language.field_map_entries@[j]).field_id
                != 0,
    ensures
        ({
            let l = c.tree.language;
            let s = stack_view(c.stack@);
            let st = spec_status_from(l, s, s.len() - 1, (0u16, false, false));
            &&& st.0 == spec_cursor_field(l, s, s.len() - 1)
            &&& st.2 ==> st.0 != 0
            &&& s.len() == 1 ==> st == (0u16, false, false)
        }),
{
    let l = c.tree.language;
    let s = stack_view(c.stack@);
    lemma_status_field(l, s, s.len() - 1, (0u16, false, false));
    lemma_status_keeps_field(l, s, s.len() - 1, (0u16, false, false));
}

/// The field of a cursor's node (0 for none), with whether it or a hidden
/// node above it has later siblings, and whether a later sibling can have
/// the same field (see `spec_status_from`).
pub fn ts_tree_cursor_current_status(
    self_0: &TreeCursor,
    can_have_later_siblings: &mut bool,
    can_have_later_siblings_with_this_field: &mut bool,
) -> (id: u16)
    requires
        cursor_wf(*self_0),
    ensures
        ({
            let s = stack_view(self_0.stack@);
            let st = spec_status_from(self_0.tree.language, s, s.len() - 1, (0u16, false, false));
            &&& id == st.0
            &&& *final(can_have_later_siblings) == st.1
            &&& *final(can_have_later_siblings_with_this_field) == st.2
        }),
{
    let ghost sv = stack_view(self_0.stack@);
    let l = self_0.tree.language;
    let mut result: u16 = 0;
    *can_have_later_siblings = false;
    *can_have_later_siblings_with_this_field = false;
    let n = self_0.stack.len();
    let mut i: usize = n - 1;
    while i > 0
        invariant_except_break
            spec_status_from(l, sv, n - 1, (0u16, false, false)) == spec_status_from(
                l,
                sv,
                i as int,
                (result, *can_have_later_siblings, *can_have_later_siblings_with_this_field),
            ),
        invariant
            i < n,
            n == self_0.stack@.len(),
            sv == stack_view(self_0.stack@),
            l == self_0.tree.language,
            cursor_wf(*self_0),
        ensures
            spec_status_from(l, sv, n - 1, (0u16, false, false)) == (
                result,
                *can_have_later_siblings,
                *can_have_later_siblings_with_this_field,
            ),
        decreases i,
    {
        proof {
            assert(sv[i as int] == entry_view(self_0.stack@[i as int]));
            assert(sv[i - 1] == entry_view(self_0.stack@[i - 1]));
            reveal(stack_links);
            lemma_stack_steps_wf(self_0.tree.root@, self_0.root_path@, sv, i - 1);
        }
        let entry = &self_0.stack[i];
        let parent = self_0.stack[i - 1].subtree;
        let parent_pid = production_id_of(parent);
        if i != n - 1 {
            if ts_subtree_visible(entry.subtree) {
                break;
            }
            if ts_language_alias_at(l, parent_pid as u32, entry.structural_child_index) != 0 {
                break;
            }
        }
        if ts_subtree_child_count(parent) > entry.child_index + 1 {
            *can_have_later_siblings = true;
        }
        if ts_subtree_extra(entry.subtree) {
            break;
        }
        let (start, end) = ts_language_field_map(l, parent_pid as u32);
        if result == 0 {
            match crate::subtree_string::child_field(l, start, end, entry.structural_child_index) {
                Some(id) => {
                    result = id;
                    *can_have_later_siblings_with_this_field = false;
                },
                None => {},
            }
        }
        if result != 0 {
            if later_field(l, start, end, result, entry.structural_child_index) {
                *can_have_later_siblings_with_this_field = true;
            }
        }
        i = i - 1;
    }
    result
}

/// The name of the field of a cursor's node, if it has one.
pub fn ts_tree_cursor_current_field_name(self_0: &TreeCursor) -> (name: Option<Vec<u8>>)
    requires
        cursor_wf(*self_0),
    ensures
        ({
            let id = spec_cursor_field(
                self_0.tree.language,
                stack_view(self_0.stack@),
                stack_view(self_0.stack@).len() - 1,
            );
            match name {
                Some(n) => id != 0 && id < self_0.tree.language.field_names@.len()
                    && n@ == self_0.tree.language.field_names@[id as int]@,
                None => id == 0 || id >= self_0.tree.language.field_names@.len(),
            }
        }),
{
    let id = ts_tree_cursor_current_field_id(self_0);
    let names = &self_0.tree.language.field_names;
    if id != 0 && (id as usize) < names.len() {
        Some(names[id as usize].clone())
    } else {
        None
    }
}

/// The alias of child `j` under the structural index `structural` that a
/// cursor recorded: none for extra children and productions without aliases.
pub open spec fn spec_recorded_alias(
    l: &TSLanguage,
    cs: Seq<SubtreeView>,
    production_id: u16,
    j: int,
    structural: u32,
) -> u16 {
    if spec_extra(cs[j]) || production_id == 0 {
        0
    } else {
        spec_alias_at(l, production_id as u32, structural)
    }
}

/// Where the child after `j` starts, given where `j` starts.
pub open spec fn spec_next_position(cs: Seq<SubtreeView>, j: int, position: Length) -> Length {
    let after = crate::length::spec_length_add(position, spec_size(cs[j]));
    if j + 1 < cs.len() {
        crate::length::spec_length_add(after, crate::subtree::spec_padding(cs[j + 1]))
    } else {
        after
    }
}

/// The structural index after child `j`.
pub open spec fn spec_next_structural(cs: Seq<SubtreeView>, production_id: u16, j: int, structural: u32) -> u32 {
    if !spec_extra(cs[j]) && production_id != 0 {
        wadd(structural, 1)
    } else {
        structural
    }
}

/// The steps to the first later sibling from child `j` on (at `position`,
/// with structural index `structural`) that shows, or through the first
/// hidden one with visible children, down to its first shown child.
pub open spec fn spec_sibling_steps(
    l: &TSLanguage,
    cs: Seq<SubtreeView>,
    production_id: u16,
    j: int,
    position: Length,
    structural: u32,
) -> Option<Seq<EntryView>>
    decreases cs.len() - j,
{
    if j < 0 || j >= cs.len() {
        None
    } else {
        let e = EntryView {
            subtree: cs[j],
            position,
            child_index: j as u32,
            structural_child_index: structural,
        };
        let shows = spec_visible(cs[j]) || spec_recorded_alias(l, cs, production_id, j, structural)
            != 0;
        if shows {
            Some(seq![e])
        } else if spec_visible_child_count(cs[j]) > 0 {
            Some(seq![e] + spec_first_child_steps(l, cs[j], position).1)
        } else {
            spec_sibling_steps(
                l,
                cs,
                production_id,
                j + 1,
                spec_next_position(cs, j, position),
                spec_next_structural(cs, production_id, j, structural),
            )
        }
    }
}

/// The stack `goto_next_sibling` moves to, looking from the first `size`
/// steps of `s` up: at each level, the next sibling of the step (see
/// `spec_sibling_steps`); it gives up at an ancestor that shows in the tree.
pub open spec fn spec_next_sibling(
    l: &TSLanguage,
    s: Seq<EntryView>,
    size: int,
    initial: int,
) -> Option<Seq<EntryView>>
    decreases size,
{
    if size <= 1 || size > s.len() {
        None
    } else {
        let k = size - 1;
        let e = s[k];
        let parent = s[k - 1].subtree;
        let cs = spec_children(parent);
        let pid = spec_production_id(parent);
        let j = e.child_index as int;
        let shows = spec_visible(e.subtree) || spec_recorded_alias(
            l,
            cs,
            pid,
            j,
            e.structural_child_index,
        ) != 0;
        if shows && k + 1 < initial {
            None
        } else {
            match spec_sibling_steps(
                l,
                cs,
                pid,
                j + 1,
                spec_next_position(cs, j, e.position),
                spec_next_structural(cs, pid, j, e.structural_child_index),
            ) {
                Some(steps) => Some(s.take(k) + steps),
                None => spec_next_sibling(l, s, k, initial),
            }
        }
    }
}

/// Looks for the sibling of `spec_sibling_steps`: its index, start and
/// structural index, and whether it shows.
fn sibling_search<'t>(
    l: &TSLanguage,
    parent: &'t Subtree,
    j: u32,
    position: Length,
    structural: u32,
) -> (r: Option<(u32, Length, u32, bool)>)
    requires
        subtree_wf(parent@),
    ensures
        match r {
            Some((k, pos, st, shows)) => {
                &&& k < spec_child_count(parent@)
                &&& spec_sibling_steps(
                    l,
                    spec_children(parent@),
                    spec_production_id(parent@),
                    j as int,
                    position,
                    structural,
                ) == Some(
                    seq![
                        EntryView {
                            subtree: spec_children(parent@)[k as int],
                            position: pos,
                            child_index: k,
                            structural_child_index: st,
                        }
                    ] + if shows {
                        Seq::empty()
                    } else {
                        spec_first_child_steps(l, spec_children(parent@)[k as int], pos).1
                    },
                )
            },
            None => spec_sibling_steps(
                l,
                spec_children(parent@),
                spec_production_id(parent@),
                j as int,
                position,
                structural,
            ) is None,
        },
{
    let n = ts_subtree_child_count(parent);
    let pid = production_id_of(parent);
    let ghost cs = spec_children(parent@);
    let ghost total = spec_sibling_steps(l, cs, pid, j as int, position, structural);
    let mut k = j;
    let mut pos = position;
    let mut st = structural;
    while k < n
        invariant
            n == cs.len(),
            cs == spec_children(parent@),
            pid == spec_production_id(parent@),
            subtree_wf(parent@),
            total == spec_sibling_steps(l, cs, pid, k as int, pos, st),
            total == spec_sibling_steps(l, cs, pid, j as int, position, structural),
        decreases n - k,
    {
        let c = ts_subtree_child(parent, k as usize);
        let extra = ts_subtree_extra(c);
        let alias = if extra || pid == 0 {
            0
        } else {
            ts_language_alias_at(l, pid as u32, st)
        };
        let shows = ts_subtree_visible(c) || alias != 0;
        if shows {
            proof {
                assert(Seq::<EntryView>::empty() + seq![EntryView { subtree: cs[k as int], position: pos, child_index: k, structural_child_index: st }]
                    =~= seq![EntryView { subtree: cs[k as int], position: pos, child_index: k, structural_child_index: st }]);
                assert(seq![EntryView { subtree: cs[k as int], position: pos, child_index: k, structural_child_index: st }] + Seq::<EntryView>::empty()
                    =~= seq![EntryView { subtree: cs[k as int], position: pos, child_index: k, structural_child_index: st }]);
            }
            return Some((k, pos, st, true));
        }
        if ts_subtree_visible_child_count(c) > 0 {
            return Some((k, pos, st, false));
        }
        let after = length_add(pos, ts_subtree_size(c));
        if k + 1 < n {
            pos = length_add(after, ts_subtree_padding(ts_subtree_child(parent, (k + 1) as usize)));
        } else {
            pos = after;
        }
        if !extra && pid != 0 {
            st = u32_wrapping_add(st, 1);
        }
        k = k + 1;
    }
    None
}

/// Replacing the steps from `k` on by a child `e` of step `k - 1` and a
/// chain of children below `e` keeps a stack well formed.
proof fn lemma_sibling_stack_wf(
    root: SubtreeView,
    root_path: Seq<u32>,
    s: Seq<EntryView>,
    k: int,
    e: EntryView,
    rest: Seq<EntryView>,
)
    requires
        stack_wf(root, root_path, s),
        1 <= k < s.len(),
        e.child_index < spec_child_count(s[k - 1].subtree),
        e.subtree == spec_children(s[k - 1].subtree)[e.child_index as int],
        rest.len() > 0 ==> rest[0].child_index < spec_child_count(e.subtree) && rest[0].subtree
            == spec_children(e.subtree)[rest[0].child_index as int],
        forall|m: int|
            1 <= m < rest.len() ==> {
                &&& (#[trigger] rest[m]).child_index < spec_child_count(rest[m - 1].subtree)
                &&& rest[m].subtree == spec_children(rest[m - 1].subtree)[rest[m].child_index as int]
            },
    ensures
        stack_wf(root, root_path, s.take(k) + seq![e] + rest),
{
    lemma_stack_take(root, root_path, s, k);
    let steps = seq![e] + rest;
    assert forall|m: int| 1 <= m < steps.len() implies {
        &&& (#[trigger] steps[m]).child_index < spec_child_count(steps[m - 1].subtree)
        &&& steps[m].subtree == spec_children(steps[m - 1].subtree)[steps[m].child_index as int]
    } by {
        assert(steps[m] == rest[m - 1]);
        if m > 1 {
            assert(steps[m - 1] == rest[m - 2]);
        }
    }
    lemma_stack_push_chain(root, root_path, s.take(k), steps);
    assert(s.take(k) + seq![e] + rest =~= s.take(k) + steps);
}

/// Moves a cursor to the next sibling of its node that shows in the tree
/// (see `spec_next_sibling`); the cursor stays when there is none.
#[verifier::rlimit(40)]
pub fn ts_tree_cursor_goto_next_sibling(self_0: &mut TreeCursor) -> (r: bool)
    requires
        cursor_wf(*old(self_0)),
    ensures
        ({
            let s = stack_view(old(self_0).stack@);
            match spec_next_sibling(old(self_0).tree.language, s, s.len() as int, s.len() as int) {
                Some(t) => r && stack_view(final(self_0).stack@) == t,
                None => !r && stack_view(final(self_0).stack@) == s,
            }
        }),
        cursor_wf(*final(self_0)),
        final(self_0).tree == old(self_0).tree,
        final(self_0).root_path@ == old(self_0).root_path@,
{
    let ghost sv = stack_view(self_0.stack@);
    let l = self_0.tree.language;
    let initial = self_0.stack.len();
    let mut size = initial;
    while size > 1
        invariant
            size <= initial,
            initial == self_0.stack@.len(),
            sv == stack_view(self_0.stack@),
            cursor_wf(*self_0),
            *self_0 == *old(self_0),
            l == self_0.tree.language,
            spec_next_sibling(l, sv, initial as int, initial as int) == spec_next_sibling(
                l,
                sv,
                size as int,
                initial as int,
            ),
        decreases size,
    {
        let k = size - 1;
        proof {
            assert(sv[k as int] == entry_view(self_0.stack@[k as int]));
            assert(sv[k - 1] == entry_view(self_0.stack@[k - 1]));
            reveal(stack_links);
            lemma_stack_steps_wf(self_0.tree.root@, self_0.root_path@, sv, k - 1);
        }
        let e_subtree = self_0.stack[k].subtree;
        let e_position = self_0.stack[k].position;
        let e_index = self_0.stack[k].child_index;
        let e_structural = self_0.stack[k].structural_child_index;
        let parent = self_0.stack[k - 1].subtree;
        let pid = production_id_of(parent);
        let extra = ts_subtree_extra(e_subtree);
        let alias = if extra || pid == 0 {
            0
        } else {
            ts_language_alias_at(l, pid as u32, e_structural)
        };
        let shows = ts_subtree_visible(e_subtree) || alias != 0;
        if shows && k + 1 < initial {
            return false;
        }
        let n = ts_subtree_child_count(parent);
        let after = length_add(e_position, ts_subtree_size(e_subtree));
        let next_pos = if e_index + 1 < n {
            length_add(after, ts_subtree_padding(ts_subtree_child(parent, (e_index + 1) as usize)))
        } else {
            after
        };
        let next_structural = if !extra && pid != 0 {
            u32_wrapping_add(e_structural, 1)
        } else {
            e_structural
        };
        match sibling_search(l, parent, e_index + 1, next_pos, next_structural) {
            Some((j, pos, st, found_shows)) => {
                let child = ts_subtree_child(parent, j as usize);
                self_0.stack.truncate(k);
                let ghost base = stack_view(self_0.stack@);
                proof {
                    lemma_stack_view_prefix(old(self_0).stack@, k as int);
                }
                self_0.stack.push(TreeCursorEntry {
                    subtree: child,
                    position: pos,
                    child_index: j,
                    structural_child_index: st,
                });
                let ghost pushed = stack_view(self_0.stack@);
                proof {
                    assert(pushed =~= base + seq![EntryView { subtree: child@, position: pos, child_index: j, structural_child_index: st }]);
                }
                let ghost e = EntryView { subtree: child@, position: pos, child_index: j, structural_child_index: st };
                if !found_shows {
                    proof {
                        lemma_child_facts(parent@, j as int);
                        lemma_first_child_steps_chain(l, child@, pos);
                    }
                    first_child_steps(l, child, pos, &mut self_0.stack);
                    proof {
                        lemma_sibling_stack_wf(
                            self_0.tree.root@,
                            self_0.root_path@,
                            sv,
                            k as int,
                            e,
                            spec_first_child_steps(l, child@, pos).1,
                        );
                        assert(stack_view(self_0.stack@) =~= sv.take(k as int) + seq![e]
                            + spec_first_child_steps(l, child@, pos).1);
                    }
                } else {
                    proof {
                        lemma_sibling_stack_wf(self_0.tree.root@, self_0.root_path@, sv, k as int, e, Seq::empty());
                        assert(stack_view(self_0.stack@) =~= sv.take(k as int) + seq![e] + Seq::<EntryView>::empty());
                    }
                }
                return true;
            },
            None => {},
        }
        size = k;
    }
    false
}

// ---------------------------------------------------------------------------
// Progress of a walk: the nodes a depth-first walk has still to visit.
// ---------------------------------------------------------------------------

/// The nodes to the right of the steps of a stack: for each step below the
/// first, the nodes of its parent's later children.
pub open spec fn spec_right_nodes(s: Seq<EntryView>) -> nat
    decreases s.len(),
{
    if s.len() <= 1 {
        0
    } else {
        let cs = spec_children(s[s.len() - 2].subtree);
        let i = s.last().child_index as int;
        let later = if i + 1 <= cs.len() {
            cs.subrange(i + 1, cs.len() as int)
        } else {
            Seq::empty()
        };
        spec_right_nodes(s.drop_last()) + nodes_of(later)
    }
}

/// The nodes a depth-first walk at `s` has still to visit: those to the
/// right of its steps, and, unless it is leaving the current node, those of
/// the current node.
pub open spec fn spec_walk_left(s: Seq<EntryView>, ascending: bool) -> nat {
    spec_right_nodes(s) + if ascending || s.len() == 0 {
        0
    } else {
        node_total(s.last().subtree)
    }
}

/// A run of subtrees splits around child `i`.
pub(crate) proof fn lemma_nodes_split(cs: Seq<SubtreeView>, i: int, j: int)
    requires
        0 <= i <= j < cs.len(),
    ensures
        nodes_of(cs.subrange(i, cs.len() as int)) >= node_total(cs[j]) + nodes_of(
            cs.subrange(j + 1, cs.len() as int),
        ),
        nodes_of(cs) >= node_total(cs[j]) + nodes_of(cs.subrange(j + 1, cs.len() as int)),
{
    let a = cs.subrange(0, i);
    let b = cs.subrange(i, j);
    let c = seq![cs[j]];
    let d = cs.subrange(j + 1, cs.len() as int);
    lemma_leaves_of_append(b + c, d);
    lemma_leaves_of_append(b, c);
    lemma_leaves_of_append(a, b + c + d);
    assert(nodes_of(c) == node_total(cs[j])) by {
        reveal_with_fuel(nodes_of, 2);
        assert(c.drop_last() =~= Seq::<SubtreeView>::empty());
        assert(c.last() == cs[j]);
    }
    assert(cs.subrange(i, cs.len() as int) =~= b + c + d);
    assert(cs =~= a + (b + c + d));
}

/// Pushing a child of the last step adds its later siblings' nodes, fewer
/// than the nodes of the last step besides the child's own.
proof fn lemma_push_child_walk(u: Seq<EntryView>, e: EntryView)
    requires
        u.len() >= 1,
        e.child_index < spec_child_count(u.last().subtree),
        e.subtree == spec_children(u.last().subtree)[e.child_index as int],
    ensures
        spec_right_nodes(u.push(e)) + node_total(e.subtree) + 1 <= spec_right_nodes(u) + node_total(
            u.last().subtree,
        ),
{
    let t = u.push(e);
    assert(t.drop_last() =~= u);
    assert(t[t.len() - 2] == u.last());
    assert(t.last() == e);
    let cs = spec_children(u.last().subtree);
    lemma_nodes_split(cs, 0, e.child_index as int);
}

/// Pushing a chain of children below the last step adds their later
/// siblings' nodes, fewer than the nodes of the last step.
proof fn lemma_chain_walk(s: Seq<EntryView>, steps: Seq<EntryView>)
    requires
        s.len() >= 1,
        steps.len() > 0 ==> steps[0].child_index < spec_child_count(s.last().subtree) && steps[0].subtree
            == spec_children(s.last().subtree)[steps[0].child_index as int],
        forall|k: int|
            1 <= k < steps.len() ==> {
                &&& (#[trigger] steps[k]).child_index < spec_child_count(steps[k - 1].subtree)
                &&& steps[k].subtree == spec_children(steps[k - 1].subtree)[steps[k].child_index as int]
            },
    ensures
        spec_right_nodes(s + steps) + node_total((s + steps).last().subtree) + steps.len()
            <= spec_right_nodes(s) + node_total(s.last().subtree),
    decreases steps.len(),
{
    if steps.len() == 0 {
        assert(s + steps =~= s);
    } else {
        let init = steps.drop_last();
        assert forall|k: int| 1 <= k < init.len() implies {
            &&& (#[trigger] init[k]).child_index < spec_child_count(init[k - 1].subtree)
            &&& init[k].subtree == spec_children(init[k - 1].subtree)[init[k].child_index as int]
        } by {
            assert(init[k] == steps[k]);
            assert(init[k - 1] == steps[k - 1]);
        }
        if init.len() > 0 {
            assert(init[0] == steps[0]);
        }
        lemma_chain_walk(s, init);
        let u = s + init;
        let e = steps.last();
        if steps.len() == 1 {
            assert(u =~= s);
        } else {
            assert(u.last() == steps[steps.len() - 2]);
        }
        lemma_push_child_walk(u, e);
        assert(s + steps =~= u.push(e));
    }
}

/// A prefix of a stack has no more nodes to the right.
proof fn lemma_right_nodes_prefix(s: Seq<EntryView>, m: int)
    requires
        1 <= m <= s.len(),
    ensures
        spec_right_nodes(s.take(m)) <= spec_right_nodes(s),
    decreases s.len(),
{
    if m < s.len() {
        lemma_right_nodes_prefix(s.drop_last(), m);
        assert(s.drop_last().take(m) =~= s.take(m));
    } else {
        assert(s.take(m) =~= s);
    }
}

/// Replacing the steps from `k` on by a later child `e` of step `k - 1` and
/// a chain below it leaves fewer nodes to visit than leaving step `k`.
proof fn lemma_sibling_walk(s: Seq<EntryView>, k: int, e: EntryView, rest: Seq<EntryView>)
    requires
        1 <= k < s.len(),
        s[k].child_index < e.child_index,
        e.child_index < spec_child_count(s[k - 1].subtree),
        e.subtree == spec_children(s[k - 1].subtree)[e.child_index as int],
        rest.len() > 0 ==> rest[0].child_index < spec_child_count(e.subtree) && rest[0].subtree
            == spec_children(e.subtree)[rest[0].child_index as int],
        forall|m: int|
            1 <= m < rest.len() ==> {
                &&& (#[trigger] rest[m]).child_index < spec_child_count(rest[m - 1].subtree)
                &&& rest[m].subtree == spec_children(rest[m - 1].subtree)[rest[m].child_index as int]
            },
    ensures
        spec_walk_left(s.take(k) + seq![e] + rest, false) <= spec_walk_left(s, true),
{
    let base = s.take(k).push(e);
    lemma_chain_walk(base, rest);
    assert(s.take(k) + seq![e] + rest =~= base + rest);
    assert(base.drop_last() =~= s.take(k));
    assert(base[base.len() - 2] == s[k - 1]);
    let cs = spec_children(s[k - 1].subtree);
    lemma_nodes_split(cs, s[k].child_index + 1, e.child_index as int);
    lemma_right_nodes_prefix(s, k + 1);
    let t1 = s.take(k + 1);
    assert(t1.drop_last() =~= s.take(k));
    assert(t1.last() == s[k]);
    assert(t1[t1.len() - 2] == s[k - 1]);
    if rest.len() > 0 {
        assert((base + rest).last() == rest.last());
    } else {
        assert(base + rest =~= base);
    }
}

/// The steps to a later sibling are a child from `j` on and a chain below
/// it.
proof fn lemma_sibling_steps_shape(
    l: &TSLanguage,
    parent: SubtreeView,
    production_id: u16,
    j: int,
    position: Length,
    structural: u32,
)
    requires
        subtree_wf(parent),
        0 <= j,
    ensures
        ({
            let cs = spec_children(parent);
            match spec_sibling_steps(l, cs, production_id, j, position, structural) {
                Some(steps) => {
                    &&& steps.len() > 0
                    &&& j <= steps[0].child_index < cs.len()
                    &&& steps[0].subtree == cs[steps[0].child_index as int]
                    &&& steps.len() > 1 ==> steps[1].child_index < spec_child_count(steps[0].subtree)
                        && steps[1].subtree == spec_children(steps[0].subtree)[steps[1].child_index as int]
                    &&& forall|m: int|
                        2 <= m < steps.len() ==> {
                            &&& (#[trigger] steps[m]).child_index < spec_child_count(steps[m - 1].subtree)
                            &&& steps[m].subtree == spec_children(steps[m - 1].subtree)[steps[m].child_index as int]
                        }
                },
                None => true,
            }
        }),
    decreases spec_children(parent).len() - j,
{
    let cs = spec_children(parent);
    if j < cs.len() {
        let shows = spec_visible(cs[j]) || spec_recorded_alias(l, cs, production_id, j, structural) != 0;
        if shows {
        } else if spec_visible_child_count(cs[j]) > 0 {
            lemma_child_facts(parent, j);
            lemma_first_child_steps_chain(l, cs[j], position);
            let e = EntryView {
                subtree: cs[j],
                position,
                child_index: j as u32,
                structural_child_index: structural,
            };
            let rest = spec_first_child_steps(l, cs[j], position).1;
            let steps = seq![e] + rest;
            assert forall|m: int| 2 <= m < steps.len() implies {
                &&& (#[trigger] steps[m]).child_index < spec_child_count(steps[m - 1].subtree)
                &&& steps[m].subtree == spec_children(steps[m - 1].subtree)[steps[m].child_index as int]
            } by {
                assert(steps[m] == rest[m - 1]);
                assert(steps[m - 1] == rest[m - 2]);
            }
            if rest.len() > 0 {
                assert(steps[1] == rest[0]);
            }
        } else {
            lemma_sibling_steps_shape(
                l,
                parent,
                production_id,
                j + 1,
                spec_next_position(cs, j, position),
                spec_next_structural(cs, production_id, j, structural),
            );
        }
    }
}

/// Moving to a next sibling leaves fewer nodes to visit than leaving the
/// current node.
pub proof fn lemma_next_sibling_walk(l: &TSLanguage, root: SubtreeView, root_path: Seq<u32>, s: Seq<EntryView>, size: int, initial: int)
    requires
        stack_wf(root, root_path, s),
        size <= s.len(),
    ensures
        match spec_next_sibling(l, s, size, initial) {
            Some(t) => spec_walk_left(t, false) <= spec_walk_left(s, true),
            None => true,
        },
    decreases size,
{
    if 1 < size <= s.len() {
        let k = size - 1;
        let e = s[k];
        let parent = s[k - 1].subtree;
        let cs = spec_children(parent);
        let pid = spec_production_id(parent);
        let j = e.child_index as int;
        reveal(stack_links);
        lemma_stack_steps_wf(root, root_path, s, k - 1);
        lemma_sibling_steps_shape(
            l,
            parent,
            pid,
            j + 1,
            spec_next_position(cs, j, e.position),
            spec_next_structural(cs, pid, j, e.structural_child_index),
        );
        match spec_sibling_steps(
            l,
            cs,
            pid,
            j + 1,
            spec_next_position(cs, j, e.position),
            spec_next_structural(cs, pid, j, e.structural_child_index),
        ) {
            Some(steps) => {
                let rest = steps.skip(1);
                assert(steps =~= seq![steps[0]] + rest);
                assert forall|m: int| 1 <= m < rest.len() implies {
                    &&& (#[trigger] rest[m]).child_index < spec_child_count(rest[m - 1].subtree)
                    &&& rest[m].subtree == spec_children(rest[m - 1].subtree)[rest[m].child_index as int]
                } by {
                    assert(rest[m] == steps[m + 1]);
                    assert(rest[m - 1] == steps[m]);
                }
                if rest.len() > 0 {
                    assert(rest[0] == steps[1]);
                }
                lemma_sibling_walk(s, k, steps[0], rest);
                assert(s.take(k) + steps =~= s.take(k) + seq![steps[0]] + rest);
            },
            None => {
                lemma_next_sibling_walk(l, root, root_path, s, k, initial);
            },
        }
    }
}

/// The steps `goto_first_child` takes when it finds a child are not none.
proof fn lemma_first_child_found(l: &TSLanguage, s: SubtreeView, position: Length)
    ensures
        spec_first_child_steps(l, s, position).0 ==> spec_first_child_steps(l, s, position).1.len() > 0,
    decreases s, 1int, 0int,
{
    if let SubtreeView::Heap(h) = s {
        lemma_first_child_found_from(l, s, h.children, h.production_id, position, 0);
    }
}

proof fn lemma_first_child_found_from(
    l: &TSLanguage,
    s: SubtreeView,
    cs: Seq<SubtreeView>,
    production_id: u16,
    position: Length,
    i: int,
)
    requires
        cs == spec_children(s),
        0 <= i,
    ensures
        spec_first_child_steps_from(l, cs, production_id, position, i).0
            ==> spec_first_child_steps_from(l, cs, production_id, position, i).1.len() > 0,
    decreases cs, 0int, cs.len() - i,
{
    if i < cs.len() {
        let e = spec_child_entry(cs, production_id, position, i);
        if spec_child_shows(l, cs, production_id, i) {
        } else if spec_visible_child_count(cs[i]) > 0 {
            if let SubtreeView::Heap(h) = s {
                assert(decreases_to!(s => h));
                assert(decreases_to!(h => h.children));
                assert(decreases_to!(h.children => h.children[i]));
            }
            lemma_first_child_found(l, cs[i], e.position);
        } else {
            lemma_first_child_found_from(l, s, cs, production_id, position, i + 1);
        }
    }
}


/// The steps `goto_first_child_for_byte` pushes below the subtree `s` at
/// `position`, whether it found a shown child, and the index among the shown
/// children that it counted: the first child that ends after `goal` is taken
/// when it shows, and searched when it has visible children; each child passed
/// over adds one, if it shows, or its visible children.
pub open spec fn spec_first_child_for_byte_steps(
    l: &TSLanguage,
    s: SubtreeView,
    position: Length,
    goal: u32,
    index: u32,
) -> (bool, Seq<EntryView>, u32)
    decreases s, 1int, 0int,
{
    match s {
        SubtreeView::Heap(h) => spec_first_child_for_byte_steps_from(
            l,
            h.children,
            h.production_id,
            position,
            0,
            goal,
            index,
        ),
        SubtreeView::Inline(_) => (false, Seq::empty(), index),
    }
}

pub open spec fn spec_first_child_for_byte_steps_from(
    l: &TSLanguage,
    cs: Seq<SubtreeView>,
    production_id: u16,
    position: Length,
    i: int,
    goal: u32,
    index: u32,
) -> (bool, Seq<EntryView>, u32)
    decreases cs, 0int, cs.len() - i,
{
    if i < 0 || i >= cs.len() {
        (false, Seq::empty(), index)
    } else {
        let e = spec_child_entry(cs, production_id, position, i);
        let shows = spec_child_shows(l, cs, production_id, i);
        if wadd(e.position.bytes, spec_size(cs[i]).bytes) > goal {
            if shows {
                (true, seq![e], index)
            } else if spec_visible_child_count(cs[i]) > 0 {
                let (found, rest, k) = spec_first_child_for_byte_steps(l, cs[i], e.position, goal, index);
                (found, seq![e] + rest, k)
            } else {
                spec_first_child_for_byte_steps_from(l, cs, production_id, position, i + 1, goal, index)
            }
        } else if shows {
            spec_first_child_for_byte_steps_from(
                l,
                cs,
                production_id,
                position,
                i + 1,
                goal,
                wadd(index, 1),
            )
        } else {
            spec_first_child_for_byte_steps_from(
                l,
                cs,
                production_id,
                position,
                i + 1,
                goal,
                wadd(index, spec_visible_child_count(cs[i])),
            )
        }
    }
}

/// The steps `goto_first_child_for_byte` pushes form a chain of children below `s`.
proof fn lemma_byte_steps_chain(l: &TSLanguage, s: SubtreeView, position: Length, goal: u32, index: u32)
    requires
        subtree_wf(s),
    ensures
        ({
            let steps = spec_first_child_for_byte_steps(l, s, position, goal, index).1;
            &&& steps.len() > 0 ==> steps[0].child_index < spec_child_count(s) && steps[0].subtree
                == spec_children(s)[steps[0].child_index as int]
            &&& forall|k: int|
                1 <= k < steps.len() ==> {
                    &&& (#[trigger] steps[k]).child_index < spec_child_count(steps[k - 1].subtree)
                    &&& steps[k].subtree == spec_children(steps[k - 1].subtree)[steps[k].child_index as int]
                }
        }),
    decreases s, 1int, 0int,
{
    if let SubtreeView::Heap(h) = s {
        lemma_byte_steps_chain_from(l, s, h.children, h.production_id, position, 0, goal, index);
    }
}

proof fn lemma_byte_steps_chain_from(
    l: &TSLanguage,
    s: SubtreeView,
    cs: Seq<SubtreeView>,
    production_id: u16,
    position: Length,
    i: int,
    goal: u32,
    index: u32,
)
    requires
        subtree_wf(s),
        cs == spec_children(s),
        0 <= i,
        cs.len() <= u32::MAX,
    ensures
        ({
            let steps = spec_first_child_for_byte_steps_from(l, cs, production_id, position, i, goal, index).1;
            &&& steps.len() > 0 ==> steps[0].child_index < spec_child_count(s) && steps[0].subtree
                == spec_children(s)[steps[0].child_index as int]
            &&& forall|k: int|
                1 <= k < steps.len() ==> {
                    &&& (#[trigger] steps[k]).child_index < spec_child_count(steps[k - 1].subtree)
                    &&& steps[k].subtree == spec_children(steps[k - 1].subtree)[steps[k].child_index as int]
                }
        }),
    decreases cs, 0int, cs.len() - i,
{
    if i < cs.len() {
        let e = spec_child_entry(cs, production_id, position, i);
        let shows = spec_child_shows(l, cs, production_id, i);
        if wadd(e.position.bytes, spec_size(cs[i]).bytes) > goal {
            if shows {
            } else if spec_visible_child_count(cs[i]) > 0 {
                lemma_child_facts(s, i);
                lemma_byte_steps_chain(l, cs[i], e.position, goal, index);
                let rest = spec_first_child_for_byte_steps(l, cs[i], e.position, goal, index).1;
                let steps = seq![e] + rest;
                assert forall|k: int| 1 <= k < steps.len() implies {
                    &&& (#[trigger] steps[k]).child_index < spec_child_count(steps[k - 1].subtree)
                    &&& steps[k].subtree == spec_children(steps[k - 1].subtree)[steps[k].child_index as int]
                } by {
                    assert(steps[k] == rest[k - 1]);
                    if k > 1 {
                        assert(steps[k - 1] == rest[k - 2]);
                    }
                }
            } else {
                lemma_byte_steps_chain_from(l, s, cs, production_id, position, i + 1, goal, index);
            }
        } else if shows {
            lemma_byte_steps_chain_from(l, s, cs, production_id, position, i + 1, goal, wadd(index, 1));
        } else {
            lemma_byte_steps_chain_from(
                l,
                s,
                cs,
                production_id,
                position,
                i + 1,
                goal,
                wadd(index, spec_visible_child_count(cs[i])),
            );
        }
    }
}

/// Walks the children of `s` (at `position`) as `goto_first_child_for_byte`
/// does, pushing the steps it takes.
fn first_child_for_byte_steps<'t>(
    l: &TSLanguage,
    s: &'t Subtree,
    position: Length,
    goal: u32,
    index: u32,
    stack: &mut Vec<TreeCursorEntry<'t>>,
) -> (r: (bool, u32))
    requires
        subtree_wf(s@),
    ensures
        ({
            let steps = spec_first_child_for_byte_steps(l, s@, position, goal, index);
            &&& stack_view(final(stack)@) == stack_view(old(stack)@) + steps.1
            &&& r.0 == steps.0
            &&& r.1 == steps.2
        }),
    decreases s@,
{
    let ghost old_view = stack_view(stack@);
    let n = ts_subtree_child_count(s);
    if n == 0 {
        proof {
            assert(stack_view(stack@) =~= old_view + spec_first_child_for_byte_steps(l, s@, position, goal, index).1);
        }
        return (false, index);
    }
    let production_id = production_id_of(s);
    let ghost cs = spec_children(s@);
    let mut i: u32 = 0;
    let mut structural: u32 = 0;
    let mut next_position = position;
    let mut count = index;
    while i < n
        invariant
            i <= n,
            n == cs.len(),
            cs == spec_children(s@),
            s@ is Heap,
            subtree_wf(s@),
            production_id == spec_production_id(s@),
            structural == spec_structural_index(cs, i as int),
            i < n ==> next_position == spec_child_start(cs, position, i as int),
            stack_view(stack@) == old_view,
            old_view == stack_view(old(stack)@),
            spec_first_child_for_byte_steps(l, s@, position, goal, index)
                == spec_first_child_for_byte_steps_from(l, cs, production_id, position, i as int, goal, count),
        decreases n - i,
    {
        proof {
            lemma_child_facts(s@, i as int);
        }
        let c = ts_subtree_child(s, i as usize);
        let extra = ts_subtree_extra(c);
        let alias = if extra {
            0
        } else {
            ts_language_alias_at(l, production_id as u32, structural)
        };
        let entry = TreeCursorEntry {
            subtree: c,
            position: next_position,
            child_index: i,
            structural_child_index: if production_id == 0 {
                0
            } else {
                structural
            },
        };
        let shows = ts_subtree_visible(c) || alias != 0;
        let after = length_add(next_position, ts_subtree_size(c));
        let visible_count = ts_subtree_visible_child_count(c);
        proof {
            assert(c@ == cs[i as int]);
            assert(alias == spec_child_alias(cs, l, production_id, i as int));
            assert(shows == spec_child_shows(l, cs, production_id, i as int));
            assert(entry_view(entry) == spec_child_entry(cs, production_id, position, i as int));
        }
        if u32_wrapping_add(next_position.bytes, ts_subtree_size(c).bytes) > goal {
            if shows {
                stack.push(entry);
                proof {
                    assert(stack_view(stack@) =~= old_view + seq![spec_child_entry(cs, production_id, position, i as int)]);
                }
                return (true, count);
            }
            if visible_count > 0 {
                let child_position = entry.position;
                stack.push(entry);
                proof {
                    assert(stack_view(stack@) =~= old_view + seq![spec_child_entry(cs, production_id, position, i as int)]);
                }
                let r = first_child_for_byte_steps(l, c, child_position, goal, count, stack);
                proof {
                    assert(stack_view(stack@) =~= old_view + (seq![spec_child_entry(cs, production_id, position, i as int)]
                        + spec_first_child_for_byte_steps(l, cs[i as int], child_position, goal, count).1));
                }
                return r;
            }
        } else if shows {
            count = u32_wrapping_add(count, 1);
        } else {
            count = u32_wrapping_add(count, visible_count);
        }
        if !extra {
            structural = u32_wrapping_add(structural, 1);
        }
        i = i + 1;
        if i < n {
            next_position = length_add(after, ts_subtree_padding(ts_subtree_child(s, i as usize)));
        }
    }
    proof {
        assert(stack_view(stack@) =~= old_view + spec_first_child_for_byte_steps(l, s@, position, goal, index).1);
    }
    (false, count)
}

/// Moves a cursor to the first child of its node that ends after the byte
/// `goal_byte` and shows in the tree, and gives its index among the node's
/// shown children (see `spec_first_child_for_byte_steps`). When the search
/// went down into hidden children and found nothing there, the cursor moves
/// on to the next sibling from where it stopped, if there is one, and the
/// index counted so far is given; else the cursor stays and -1 is given.
pub fn ts_tree_cursor_goto_first_child_for_byte(self_0: &mut TreeCursor, goal_byte: u32) -> (r: i64)
    requires
        cursor_wf(*old(self_0)),
    ensures
        ({
            let s = stack_view(old(self_0).stack@);
            let l = old(self_0).tree.language;
            let (found, steps, index) = spec_first_child_for_byte_steps(
                l,
                s.last().subtree,
                s.last().position,
                goal_byte,
                0,
            );
            let pushed = s + steps;
            if found {
                r == index as i64 && stack_view(final(self_0).stack@) == pushed
            } else if steps.len() > 0 && spec_next_sibling(l, pushed, pushed.len() as int, pushed.len() as int) is Some {
                r == index as i64 && stack_view(final(self_0).stack@) == spec_next_sibling(
                    l,
                    pushed,
                    pushed.len() as int,
                    pushed.len() as int,
                )->0
            } else {
                r == -1 && stack_view(final(self_0).stack@) == s
            }
        }),
        cursor_wf(*final(self_0)),
        final(self_0).tree == old(self_0).tree,
        final(self_0).root_path@ == old(self_0).root_path@,
{
    let n = self_0.stack.len();
    let top = self_0.stack[n - 1].subtree;
    let position = self_0.stack[n - 1].position;
    let ghost sv = stack_view(self_0.stack@);
    proof {
        assert(sv[n - 1] == entry_view(self_0.stack@[n - 1]));
        assert(sv.last() == sv[n - 1]);
        lemma_stack_steps_wf(self_0.tree.root@, self_0.root_path@, sv, n - 1);
        lemma_byte_steps_chain(self_0.tree.language, top@, position, goal_byte, 0);
    }
    let (found, index) = first_child_for_byte_steps(self_0.tree.language, top, position, goal_byte, 0, &mut self_0.stack);
    proof {
        lemma_stack_push_chain(
            self_0.tree.root@,
            self_0.root_path@,
            sv,
            spec_first_child_for_byte_steps(self_0.tree.language, top@, position, goal_byte, 0).1,
        );
    }
    if found {
        return index as i64;
    }
    if self_0.stack.len() > n && ts_tree_cursor_goto_next_sibling(self_0) {
        return index as i64;
    }
    let ghost pushed = stack_view(self_0.stack@);
    self_0.stack.truncate(n);
    proof {
        assert(stack_view(self_0.stack@) =~= pushed.subrange(0, n as int));
        assert(pushed.subrange(0, n as int) =~= sv);
    }
    -1
}


/// Whether step `e` below `parent` is passed over on the way up: neither
/// visible nor aliased by the parent's production.
pub open spec fn spec_step_hidden(l: &TSLanguage, parent: SubtreeView, e: EntryView) -> bool {
    !spec_visible(e.subtree) && spec_alias_at(l, spec_production_id(parent) as u32, e.structural_child_index) == 0
}

/// Every step that `goto_first_child` pushes before the one it stops at is
/// passed over on the way up, when none of them is extra.
proof fn lemma_first_child_steps_hidden(l: &TSLanguage, s: SubtreeView, position: Length)
    requires
        ({
            let steps = spec_first_child_steps(l, s, position).1;
            forall|k: int| 0 <= k < steps.len() ==> !spec_extra(#[trigger] steps[k].subtree)
        }),
    ensures
        ({
            let (found, steps) = spec_first_child_steps(l, s, position);
            found ==> forall|k: int|
                0 <= k < steps.len() - 1 ==> spec_step_hidden(
                    l,
                    if k == 0 {
                        s
                    } else {
                        steps[k - 1].subtree
                    },
                    #[trigger] steps[k],
                )
        }),
    decreases s, 1int, 0int,
{
    if let SubtreeView::Heap(h) = s {
        lemma_first_child_steps_hidden_from(l, s, h.children, h.production_id, position, 0);
    }
}

proof fn lemma_first_child_steps_hidden_from(
    l: &TSLanguage,
    s: SubtreeView,
    cs: Seq<SubtreeView>,
    production_id: u16,
    position: Length,
    i: int,
)
    requires
        cs == spec_children(s),
        production_id == spec_production_id(s),
        0 <= i,
        ({
            let steps = spec_first_child_steps_from(l, cs, production_id, position, i).1;
            forall|k: int| 0 <= k < steps.len() ==> !spec_extra(#[trigger] steps[k].subtree)
        }),
    ensures
        ({
            let (found, steps) = spec_first_child_steps_from(l, cs, production_id, position, i);
            found ==> forall|k: int|
                0 <= k < steps.len() - 1 ==> spec_step_hidden(
                    l,
                    if k == 0 {
                        s
                    } else {
                        steps[k - 1].subtree
                    },
                    #[trigger] steps[k],
                )
        }),
    decreases cs, 0int, cs.len() - i,
{
    if i < cs.len() {
        let e = spec_child_entry(cs, production_id, position, i);
        if spec_child_shows(l, cs, production_id, i) {
        } else if spec_visible_child_count(cs[i]) > 0 {
            if let SubtreeView::Heap(h) = s {
                assert(decreases_to!(s => h));
                assert(decreases_to!(h => h.children));
                assert(decreases_to!(h.children => h.children[i]));
            }
            let (found, rest) = spec_first_child_steps(l, cs[i], e.position);
            let steps = seq![e] + rest;
            assert(steps[0] == e);
            assert forall|k: int| 0 <= k < rest.len() implies !spec_extra(#[trigger] rest[k].subtree) by {
                assert(steps[k + 1] == rest[k]);
            }
            lemma_first_child_steps_hidden(l, cs[i], e.position);
            if found {
                assert forall|k: int| 0 <= k < steps.len() - 1 implies spec_step_hidden(
                    l,
                    if k == 0 {
                        s
                    } else {
                        steps[k - 1].subtree
                    },
                    #[trigger] steps[k],
                ) by {
                    if k == 0 {
                        assert(!spec_extra(steps[0].subtree));
                    } else {
                        assert(steps[k] == rest[k - 1]);
                        if k == 1 {
                            assert(steps[k - 1] == e);
                        } else {
                            assert(steps[k - 1] == rest[k - 2]);
                        }
                    }
                }
            }
        } else {
            lemma_first_child_steps_hidden_from(l, s, cs, production_id, position, i + 1);
        }
    }
}

/// The nearest shown step at or above `idx` is the one at or above `lo - 1`
/// when every step from `lo` to `idx` is passed over.
proof fn lemma_shown_step_skips(l: &TSLanguage, t: Seq<EntryView>, lo: int, idx: int)
    requires
        1 <= lo,
        lo - 1 <= idx < t.len(),
        forall|k: int| lo <= k <= idx ==> spec_step_hidden(l, t[k - 1].subtree, #[trigger] t[k]),
    ensures
        spec_shown_step(l, t, idx) == spec_shown_step(l, t, lo - 1),
    decreases idx,
{
    if idx >= lo {
        assert(spec_step_hidden(l, t[idx - 1].subtree, t[idx]));
        lemma_shown_step_skips(l, t, lo, idx - 1);
    }
}

/// The child indices of a run of steps.
pub open spec fn step_indices(steps: Seq<EntryView>) -> Seq<u32> {
    Seq::new(steps.len(), |i: int| steps[i].child_index)
}

proof fn lemma_first_child_search(l: &TSLanguage, s: SubtreeView, position: Length, path: Seq<u32>)
    ensures
        ({
            let (found, steps) = spec_first_child_steps(l, s, position);
            let r = crate::node::spec_child_search(l, s, position, path, 0, true);
            &&& found == r is Some
            &&& found ==> steps.len() > 0 && r.unwrap().0 == path + step_indices(steps) && r.unwrap().1
                == steps.last().position
        }),
    decreases s, 1int, 0int,
{
    if let SubtreeView::Heap(h) = s {
        lemma_first_child_search_from(l, h.children, h.production_id, position, path, 0);
    }
}

proof fn lemma_first_child_search_from(
    l: &TSLanguage,
    cs: Seq<SubtreeView>,
    production_id: u16,
    position: Length,
    path: Seq<u32>,
    i: int,
)
    ensures
        ({
            let (found, steps) = spec_first_child_steps_from(l, cs, production_id, position, i);
            let r = crate::node::spec_child_search_from(l, cs, production_id, position, path, i, 0, 0, true);
            &&& found == r is Some
            &&& found ==> steps.len() > 0 && r.unwrap().0 == path + step_indices(steps) && r.unwrap().1
                == steps.last().position
        }),
    decreases cs, 0int, cs.len() - i,
{
    if 0 <= i < cs.len() {
        let e = spec_child_entry(cs, production_id, position, i);
        if spec_child_shows(l, cs, production_id, i) {
            assert(path + step_indices(seq![e]) =~= path.push(i as u32));
        } else if spec_visible_child_count(cs[i]) > 0 {
            lemma_first_child_search(l, cs[i], e.position, path.push(i as u32));
            let (found, rest) = spec_first_child_steps(l, cs[i], e.position);
            if found {
                let steps = seq![e] + rest;
                assert(path.push(i as u32) + step_indices(rest) =~= path + step_indices(steps));
                assert(steps.last() == rest.last());
            }
        } else {
            assert(crate::length::wadd(0, 0) == 0);
            lemma_first_child_search_from(l, cs, production_id, position, path, i + 1);
        }
    }
}

/// What child `i` adds to the shown children of its parent: one where it
/// shows, else its visible children.
pub open spec fn shown_share(l: &TSLanguage, cs: Seq<SubtreeView>, production_id: u16, i: int) -> int {
    if spec_child_shows(l, cs, production_id, i) {
        1
    } else {
        spec_visible_child_count(cs[i]) as int
    }
}

/// The shown children that `cs[i..]` give their parent.
pub open spec fn shown_from(l: &TSLanguage, cs: Seq<SubtreeView>, production_id: u16, i: int) -> int
    decreases cs.len() - i,
{
    if i < 0 || i >= cs.len() {
        0
    } else {
        shown_share(l, cs, production_id, i) + shown_from(l, cs, production_id, i + 1)
    }
}

/// Whether the visible child counts of a subtree are what its children show,
/// all the way down: each node with children counts one for each child that
/// shows and the visible children of each child that does not.
pub open spec fn counts_exact(l: &TSLanguage, s: SubtreeView) -> bool
    decreases s, 1int,
{
    match s {
        SubtreeView::Heap(h) => {
            &&& h.children.len() > 0 ==> h.visible_child_count == shown_from(l, h.children, h.production_id, 0)
            &&& all_counts_exact(l, h.children)
        },
        SubtreeView::Inline(_) => true,
    }
}

/// `counts_exact` for each of a run of subtrees.
pub open spec fn all_counts_exact(l: &TSLanguage, cs: Seq<SubtreeView>) -> bool
    decreases cs, 0int,
{
    if cs.len() == 0 {
        true
    } else {
        all_counts_exact(l, cs.drop_last()) && counts_exact(l, cs.last())
    }
}

proof fn lemma_all_exact(l: &TSLanguage, cs: Seq<SubtreeView>, j: int)
    requires
        all_counts_exact(l, cs),
        0 <= j < cs.len(),
    ensures
        counts_exact(l, cs[j]),
    decreases cs.len(),
{
    if j < cs.len() - 1 {
        lemma_all_exact(l, cs.drop_last(), j);
        assert(cs.drop_last()[j] == cs[j]);
    }
}

proof fn lemma_shown_nonneg(l: &TSLanguage, cs: Seq<SubtreeView>, production_id: u16, i: int)
    ensures
        shown_from(l, cs, production_id, i) >= 0,
    decreases cs.len() - i,
{
    if 0 <= i < cs.len() {
        lemma_shown_nonneg(l, cs, production_id, i + 1);
    }
}

proof fn lemma_byte_index(l: &TSLanguage, s: SubtreeView, position: Length, path: Seq<u32>, goal: u32, idx: u32)
    requires
        counts_exact(l, s),
        idx + spec_visible_child_count(s) <= u32::MAX,
    ensures
        ({
            let (found, steps, k) = spec_first_child_for_byte_steps(l, s, position, goal, idx);
            let r = crate::node::spec_child_search(l, s, position, path, (k - idx) as u32, true);
            found ==> {
                &&& idx <= k < idx + spec_visible_child_count(s)
                &&& steps.len() > 0
                &&& r is Some
                &&& r.unwrap().0 == path + step_indices(steps)
                &&& r.unwrap().1 == steps.last().position
            }
        }),
    decreases s, 1int, 0int,
{
    if let SubtreeView::Heap(h) = s {
        if h.children.len() > 0 {
            lemma_byte_index_from(l, h.children, h.production_id, position, path, 0, goal, idx, idx);
        }
    }
}

proof fn lemma_byte_index_from(
    l: &TSLanguage,
    cs: Seq<SubtreeView>,
    production_id: u16,
    position: Length,
    path: Seq<u32>,
    i: int,
    goal: u32,
    idx: u32,
    idx0: u32,
)
    requires
        all_counts_exact(l, cs),
        0 <= i,
        idx0 <= idx,
        idx + shown_from(l, cs, production_id, i) <= u32::MAX,
    ensures
        ({
            let (found, steps, k) = spec_first_child_for_byte_steps_from(l, cs, production_id, position, i, goal, idx);
            let r = crate::node::spec_child_search_from(
                l,
                cs,
                production_id,
                position,
                path,
                i,
                (idx - idx0) as u32,
                (k - idx0) as u32,
                true,
            );
            found ==> {
                &&& idx <= k < idx + shown_from(l, cs, production_id, i)
                &&& steps.len() > 0
                &&& r is Some
                &&& r.unwrap().0 == path + step_indices(steps)
                &&& r.unwrap().1 == steps.last().position
            }
        }),
    decreases cs, 0int, cs.len() - i,
{
    if i < cs.len() {
        let e = spec_child_entry(cs, production_id, position, i);
        let c = cs[i];
        lemma_shown_nonneg(l, cs, production_id, i + 1);
        lemma_all_exact(l, cs, i);
        let (found, steps, k) = spec_first_child_for_byte_steps_from(l, cs, production_id, position, i, goal, idx);
        if wadd(e.position.bytes, spec_size(c).bytes) > goal {
            if spec_child_shows(l, cs, production_id, i) {
                assert(path + step_indices(seq![e]) =~= path.push(i as u32));
            } else if spec_visible_child_count(c) > 0 {
                assert(decreases_to!(cs => c));
                lemma_byte_index(l, c, e.position, path.push(i as u32), goal, idx);
                let (f2, rest, k2) = spec_first_child_for_byte_steps(l, c, e.position, goal, idx);
                if f2 {
                    assert(crate::length::wsub((k2 - idx0) as u32, (idx - idx0) as u32) == k2 - idx);
                    let st = seq![e] + rest;
                    assert(path.push(i as u32) + step_indices(rest) =~= path + step_indices(st));
                    assert(st.last() == rest.last());
                }
            } else {
                lemma_byte_index_from(l, cs, production_id, position, path, i + 1, goal, idx, idx0);
                if found {
                    assert(crate::length::wadd((idx - idx0) as u32, 0) == idx - idx0);
                }
            }
        } else if spec_child_shows(l, cs, production_id, i) {
            lemma_byte_index_from(l, cs, production_id, position, path, i + 1, goal, (idx + 1) as u32, idx0);
            assert(wadd(idx, 1) == idx + 1);
            if found {
                assert(crate::length::wadd((idx - idx0) as u32, 1) == idx + 1 - idx0);
            }
        } else {
            let v = spec_visible_child_count(c);
            lemma_byte_index_from(l, cs, production_id, position, path, i + 1, goal, (idx + v) as u32, idx0);
            assert(wadd(idx, v) == idx + v);
            if found {
                assert(crate::length::wsub((k - idx0) as u32, (idx - idx0) as u32) == k - idx);
                assert(crate::length::wadd((idx - idx0) as u32, v) == idx + v - idx0);
            }
        }
    }
}

/// The index that `goto_first_child_for_byte` gives is the position, among
/// the shown children of the node the cursor was at, of the node it lands
/// on: where the node's visible child counts are what its children show
/// (see `counts_exact`), `ts_node_child` of that index is the child it
/// found, by path and start.
pub proof fn lemma_first_child_for_byte_index(
    l: &TSLanguage,
    s: SubtreeView,
    position: Length,
    path: Seq<u32>,
    goal: u32,
)
    requires
        counts_exact(l, s),
    ensures
        ({
            let (found, steps, k) = spec_first_child_for_byte_steps(l, s, position, goal, 0);
            let r = crate::node::spec_child_search(l, s, position, path, k, true);
            found ==> {
                &&& k < spec_visible_child_count(s)
                &&& steps.len() > 0
                &&& r is Some
                &&& r.unwrap().0 == path + step_indices(steps)
                &&& r.unwrap().1 == steps.last().position
            }
        }),
{
    lemma_byte_index(l, s, position, path, goal, 0);
}

/// Moving a cursor to its first child reaches the node's child 0: for the
/// node a cursor is at (its path and start, as `ts_tree_cursor_current_node`
/// gives them), `ts_tree_cursor_goto_first_child` succeeds exactly when
/// `ts_node_child(node, 0)` finds a child, and the cursor then is at that
/// child's path and start. Where the node's visible child counts agree with
/// its children (see `counts_consistent`), that is exactly when
/// `ts_node_child_count` of the node is above zero.
pub proof fn lemma_goto_first_child_reaches_child_zero(
    l: &TSLanguage,
    root_path: Seq<u32>,
    stack: Seq<EntryView>,
)
    requires
        stack.len() > 0,
    ensures
        ({
            let last = stack.last();
            let (found, steps) = spec_first_child_steps(l, last.subtree, last.position);
            let r = crate::node::spec_child_search(
                l,
                last.subtree,
                last.position,
                spec_cursor_path(root_path, stack),
                0,
                true,
            );
            &&& found == r is Some
            &&& found ==> r.unwrap().0 == spec_cursor_path(root_path, stack + steps) && r.unwrap().1 == (stack
                + steps).last().position
            &&& crate::node::counts_consistent(l, last.subtree) ==> (found
                == (crate::node::spec_relevant_child_count(last.subtree, true) > 0))
        }),
{
    let last = stack.last();
    let p = spec_cursor_path(root_path, stack);
    lemma_first_child_search(l, last.subtree, last.position, p);
    if crate::node::counts_consistent(l, last.subtree) {
        crate::node::lemma_child_zero_found(l, last.subtree, last.position, p);
    }
    let (found, steps) = spec_first_child_steps(l, last.subtree, last.position);
    if found {
        let t = stack + steps;
        assert(spec_cursor_path(root_path, t) =~= p + step_indices(steps));
        assert(t.last() == steps.last());
    }
}

/// Going to the parent undoes going to the first child: from a cursor whose
/// node shows in the tree, when `goto_first_child` finds a child without
/// stepping through extra nodes, `goto_parent` brings the cursor back to the
/// steps it had.
pub proof fn lemma_goto_parent_undoes_goto_first_child(l: &TSLanguage, s: Seq<EntryView>)
    requires
        s.len() > 0,
        spec_shown_step(l, s, s.len() - 1) == s.len() - 1,
        spec_first_child_steps(l, s.last().subtree, s.last().position).0,
        ({
            let steps = spec_first_child_steps(l, s.last().subtree, s.last().position).1;
            forall|k: int| 0 <= k < steps.len() ==> !spec_extra(#[trigger] steps[k].subtree)
        }),
    ensures
        ({
            let t = s + spec_first_child_steps(l, s.last().subtree, s.last().position).1;
            let j = spec_shown_step(l, t, t.len() - 2);
            &&& j >= 0
            &&& t.take(j + 1) == s
        }),
{
    let steps = spec_first_child_steps(l, s.last().subtree, s.last().position).1;
    let t = s + steps;
    let n = s.len() as int;
    lemma_first_child_found(l, s.last().subtree, s.last().position);
    lemma_first_child_steps_hidden(l, s.last().subtree, s.last().position);
    assert forall|k: int| n <= k <= t.len() - 2 implies spec_step_hidden(l, t[k - 1].subtree, #[trigger] t[k]) by {
        assert(t[k] == steps[k - n]);
        if k == n {
            assert(t[k - 1] == s.last());
        } else {
            assert(t[k - 1] == steps[k - n - 1]);
        }
    }
    lemma_shown_step_skips(l, t, n, t.len() - 2);
    assert forall|k: int| 0 <= k < n implies t[k] == s[k] by {}
    assert(spec_shown_step(l, t, n - 1) == spec_shown_step(l, s, n - 1)) by {
        lemma_shown_step_prefix(l, s, steps, n - 1);
    }
    assert(t.take(n) =~= s);
}

/// The nearest shown step at or above an index of `s` does not change when
/// steps are added after `s`.
proof fn lemma_shown_step_prefix(l: &TSLanguage, s: Seq<EntryView>, more: Seq<EntryView>, i: int)
    requires
        -1 <= i < s.len(),
    ensures
        spec_shown_step(l, s + more, i) == spec_shown_step(l, s, i),
    decreases i + 1,
{
    if i >= 0 {
        assert((s + more)[i] == s[i]);
        if i > 0 {
            assert((s + more)[i - 1] == s[i - 1]);
        }
        lemma_shown_step_prefix(l, s, more, i - 1);
    }
}

} // verus!
