use vstd::prelude::*;

use crate::language::TSLanguage;
use crate::length::{
    point_add, point_sub, spec_point_add, spec_point_sub, u32_wrapping_add, wadd, Length, TSInputEdit,
    TSPoint, TSRange,
};
use crate::subtree::{
    spec_child_count, spec_children, spec_padding, subtree_wf, lemma_children_wf, lemma_views_of,
    ts_subtree_child, ts_subtree_padding, ts_subtree_pool_delete, ts_subtree_pool_new,
    ts_subtree_retain, Subtree, SubtreeView,
};
use crate::subtree_edit::{spec_edit, spec_edit_of, ts_subtree_edit};
use crate::node::{node_valid, spec_node_alias, spec_node_start, ts_node_new, TSNode};

verus! {

/// A syntax tree: its root, the language it was parsed with, and the ranges
/// of the document that were parsed.
pub struct TSTree<'l> {
    pub root: Subtree,
    pub language: &'l TSLanguage,
    pub included_ranges: Vec<TSRange>,
}

/// The subtree reached from `s` by following the child indices of `path`, if
/// each index is within its node's children.
pub open spec fn subtree_at(s: SubtreeView, path: Seq<u32>) -> Option<SubtreeView>
    decreases path.len(),
{
    if path.len() == 0 {
        Some(s)
    } else {
        match subtree_at(s, path.drop_last()) {
            Some(p) => if path.last() < spec_child_count(p) {
                Some(spec_children(p)[path.last() as int])
            } else {
                None
            },
            None => None,
        }
    }
}

/// The subtrees below a well-formed subtree are well formed.
pub proof fn lemma_subtree_at_wf(s: SubtreeView, path: Seq<u32>)
    requires
        subtree_wf(s),
    ensures
        subtree_at(s, path) matches Some(t) ==> subtree_wf(t),
    decreases path.len(),
{
    if path.len() > 0 {
        lemma_subtree_at_wf(s, path.drop_last());
        if let Some(p) = subtree_at(s, path.drop_last()) {
            if let SubtreeView::Heap(h) = p {
                lemma_children_wf(h.children);
            }
        }
    }
}

/// A tree over `root`, parsed with `language`, with a copy of `included_ranges`.
pub fn ts_tree_new<'l>(root: Subtree, language: &'l TSLanguage, included_ranges: &[TSRange]) -> (t:
    TSTree<'l>)
    ensures
        t.root == root,
        t.language == language,
        t.included_ranges@ == included_ranges@,
{
    let mut ranges: Vec<TSRange> = Vec::new();
    let mut i: usize = 0;
    while i < included_ranges.len()
        invariant
            i <= included_ranges@.len(),
            ranges@ == included_ranges@.subrange(0, i as int),
        decreases included_ranges@.len() - i,
    {
        ranges.push(included_ranges[i]);
        i = i + 1;
    }
    TSTree { root, language, included_ranges: ranges }
}

/// A copy of a tree that shares its root.
pub fn ts_tree_copy<'l>(tree: &TSTree<'l>) -> (t: TSTree<'l>)
    ensures
        t.root == tree.root,
        t.language == tree.language,
        t.included_ranges@ == tree.included_ranges@,
{
    let root = ts_subtree_retain(&tree.root);
    ts_tree_new(root, tree.language, tree.included_ranges.as_slice())
}

/// Gives up a tree; its nodes are freed with their last holder.
pub fn ts_tree_delete(tree: Option<TSTree>) {
    if let Some(tree) = tree {
        let mut pool = ts_subtree_pool_new(0);
        crate::subtree::ts_subtree_release(&mut pool, tree.root);
        ts_subtree_pool_delete(&mut pool);
    }
}

/// The language a tree was parsed with.
pub fn ts_tree_language<'l>(tree: &TSTree<'l>) -> (l: &'l TSLanguage)
    ensures
        l == tree.language,
{
    tree.language
}

/// The maximal point, which stands for a range end that an edit pushed past
/// the end of the addressable text.
pub open spec fn max_point() -> TSPoint {
    TSPoint { row: u32::MAX, column: u32::MAX }
}

/// An edge of a range at or after the end of the replaced text, moved by the
/// edit: by as much as the new text's end lies after the old text's end; an
/// edge whose byte offset wraps past `u32::MAX` goes to the maximal point.
pub open spec fn spec_shift_edge(byte: u32, point: TSPoint, e: TSInputEdit) -> (u32, TSPoint) {
    let b = wadd(e.new_end_byte, (byte - e.old_end_byte) as u32);
    if b < e.new_end_byte {
        (u32::MAX, max_point())
    } else {
        (b, spec_point_add(e.new_end_point, spec_point_sub(point, e.old_end_point)))
    }
}

/// An included range after an edit: a range that ends before the end of the
/// replaced text is unchanged; otherwise its end (unless unbounded) and, if
/// it starts at or after that point, its start move with the text.
pub open spec fn spec_edit_range(r: TSRange, e: TSInputEdit) -> TSRange {
    if r.end_byte >= e.old_end_byte {
        let r1 = if r.end_byte != u32::MAX {
            let (b, p) = spec_shift_edge(r.end_byte, r.end_point, e);
            TSRange { end_byte: b, end_point: p, ..r }
        } else {
            r
        };
        if r1.start_byte >= e.old_end_byte {
            let (b, p) = spec_shift_edge(r1.start_byte, r1.start_point, e);
            TSRange { start_byte: b, start_point: p, ..r1 }
        } else {
            r1
        }
    } else {
        r
    }
}

fn shift_edge(byte: u32, point: TSPoint, e: &TSInputEdit) -> (r: (u32, TSPoint))
    requires
        byte >= e.old_end_byte,
    ensures
        r == spec_shift_edge(byte, point, *e),
{
    let b = u32_wrapping_add(e.new_end_byte, byte - e.old_end_byte);
    if b < e.new_end_byte {
        (u32::MAX, TSPoint { row: u32::MAX, column: u32::MAX })
    } else {
        (b, point_add(e.new_end_point, point_sub(point, e.old_end_point)))
    }
}

fn edit_range(r: TSRange, e: &TSInputEdit) -> (out: TSRange)
    ensures
        out == spec_edit_range(r, *e),
{
    let mut r = r;
    if r.end_byte >= e.old_end_byte {
        if r.end_byte != u32::MAX {
            let (b, p) = shift_edge(r.end_byte, r.end_point, e);
            r.end_byte = b;
            r.end_point = p;
        }
        if r.start_byte >= e.old_end_byte {
            let (b, p) = shift_edge(r.start_byte, r.start_point, e);
            r.start_byte = b;
            r.start_point = p;
        }
    }
    r
}

/// Edits a tree to keep it in sync with an edit of its document: the included
/// ranges move with the text (see `spec_edit_range`), and the subtrees that
/// the edit reaches are resized and marked as changed (see `spec_edit`).
pub fn ts_tree_edit(tree: &mut TSTree, edit: &TSInputEdit)
    ensures
        final(tree).root@ == spec_edit(old(tree).root@, spec_edit_of(*edit)),
        final(tree).language == old(tree).language,
        final(tree).included_ranges@.len() == old(tree).included_ranges@.len(),
        forall|i: int|
            0 <= i < old(tree).included_ranges@.len() ==> #[trigger] final(tree).included_ranges@[i]
                == spec_edit_range(old(tree).included_ranges@[i], *edit),
{
    let n = tree.included_ranges.len();
    let mut i: usize = 0;
    while i < n
        invariant
            i <= n,
            n == tree.included_ranges@.len(),
            n == old(tree).included_ranges@.len(),
            tree.root == old(tree).root,
            tree.language == old(tree).language,
            forall|j: int|
                0 <= j < i ==> #[trigger] tree.included_ranges@[j] == spec_edit_range(
                    old(tree).included_ranges@[j],
                    *edit,
                ),
            forall|j: int|
                i <= j < n ==> #[trigger] tree.included_ranges@[j] == old(tree).included_ranges@[j],
        decreases n - i,
    {
        let r = edit_range(tree.included_ranges[i], edit);
        tree.included_ranges.set(i, r);
        i = i + 1;
    }
    let mut pool = ts_subtree_pool_new(0);
    let mut root = crate::subtree::empty_leaf();
    std::mem::swap(&mut root, &mut tree.root);
    tree.root = ts_subtree_edit(root, edit, &mut pool);
    ts_subtree_pool_delete(&mut pool);
}

/// The root node of a tree: the root subtree, starting after its padding.
pub fn ts_tree_root_node<'t, 'l>(tree: &'t TSTree<'l>) -> (n: TSNode<'t, 'l>)
    ensures
        n.tree == Some(tree),
        n.path@.len() == 0,
        spec_node_start(n) == spec_padding(tree.root@),
        spec_node_alias(n) == 0,
        subtree_wf(tree.root@) ==> node_valid(n),
{
    let n = ts_node_new(tree, Vec::new(), ts_subtree_padding(&tree.root), 0);
    proof {
        assert(n.path@ =~= Seq::<u32>::empty());
    }
    n
}

} // verus!
