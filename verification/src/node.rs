use vstd::prelude::*;

use crate::language::{
    spec_alias_at, spec_public_symbol, spec_symbol_metadata, spec_symbol_name, ts_language_alias_at,
    ts_language_public_symbol, ts_language_symbol_metadata, ts_language_symbol_name, TSLanguage,
};
use crate::length::{
    length_add, length_zero, point_add, point_lt, point_lte, point_sub, spec_length_add,
    spec_length_zero, spec_point_add, spec_point_lt, spec_point_lte, spec_point_sub,
    u32_wrapping_add, u32_wrapping_sub, wadd, wsub, Length, TSInputEdit, TSPoint,
};
use crate::subtree::{
    heap_view, lemma_children_wf, lemma_views_of, spec_child_count, spec_children, spec_error_cost,
    spec_extra, spec_has_changes, spec_missing, spec_named, spec_named_child_count, spec_padding,
    spec_size, spec_symbol, spec_visible, spec_visible_child_count, subtree_wf,
    ts_subtree_child, ts_subtree_child_count, ts_subtree_error_cost, ts_subtree_extra,
    ts_subtree_has_changes, ts_subtree_missing, ts_subtree_named, ts_subtree_named_child_count,
    ts_subtree_padding, ts_subtree_size, ts_subtree_symbol, ts_subtree_visible,
    ts_subtree_visible_child_count, views_of, Subtree, SubtreeView,
};
use crate::subtree_string::{spec_subtree_string, ts_subtree_string};
use crate::tree::{lemma_subtree_at_wf, subtree_at, TSTree};

verus! {

/// A node of a syntax tree: where it starts (`context[0..3]`: byte, row,
/// column), the alias it has in its parent (`context[3]`), the path of child
/// indices that leads to it from the root, and its tree. A node without a
/// tree is the null node.
pub struct TSNode<'t, 'l> {
    pub context: [u32; 4],
    pub path: Vec<u32>,
    pub tree: Option<&'t TSTree<'l>>,
}

pub open spec fn spec_node_start(n: TSNode) -> Length {
    Length { bytes: n.context[0], extent: TSPoint { row: n.context[1], column: n.context[2] } }
}

pub open spec fn spec_node_alias(n: TSNode) -> u16 {
    n.context[3] as u16
}

/// The subtree that a node stands for.
pub open spec fn node_subtree(n: TSNode) -> Option<SubtreeView> {
    match n.tree {
        Some(t) => subtree_at(t.root@, n.path@),
        None => None,
    }
}

/// A node of a well-formed tree whose path leads to a subtree.
pub open spec fn node_valid(n: TSNode) -> bool {
    &&& n.tree is Some
    &&& subtree_wf(n.tree->0.root@)
    &&& node_subtree(n) is Some
}

pub open spec fn node_view(n: TSNode) -> SubtreeView {
    node_subtree(n)->0
}

pub open spec fn node_language<'t, 'l>(n: TSNode<'t, 'l>) -> &'l TSLanguage {
    n.tree->0.language
}

pub proof fn lemma_node_valid_wf(n: TSNode)
    requires
        node_valid(n),
    ensures
        subtree_wf(node_view(n)),
{
    lemma_subtree_at_wf(n.tree->0.root@, n.path@);
}

/// A node with a start, an alias and a path in a tree.
pub fn ts_node_new<'t, 'l>(tree: &'t TSTree<'l>, path: Vec<u32>, position: Length, alias: u16) -> (n:
    TSNode<'t, 'l>)
    ensures
        n.tree == Some(tree),
        n.path@ == path@,
        spec_node_start(n) == position,
        spec_node_alias(n) == alias,
{
    TSNode {
        context: [position.bytes, position.extent.row, position.extent.column, alias as u32],
        path,
        tree: Some(tree),
    }
}

/// The null node.
pub fn ts_node_null<'t, 'l>() -> (n: TSNode<'t, 'l>)
    ensures
        n.tree is None,
        n.path@.len() == 0,
        spec_node_start(n) == spec_length_zero(),
        spec_node_alias(n) == 0,
{
    TSNode { context: [0, 0, 0, 0], path: Vec::new(), tree: None }
}

/// The subtree of a node, found from the root along the node's path.
pub fn ts_node_subtree<'t, 'l>(n: &TSNode<'t, 'l>) -> (s: &'t Subtree)
    requires
        node_valid(*n),
    ensures
        s@ == node_view(*n),
        subtree_wf(s@),
{
    let tree = n.tree.unwrap();
    let mut cur: &'t Subtree = &tree.root;
    let mut k: usize = 0;
    proof {
        assert(n.path@.take(0) =~= Seq::<u32>::empty());
    }
    while k < n.path.len()
        invariant
            k <= n.path@.len(),
            subtree_at(tree.root@, n.path@.take(k as int)) == Some(cur@),
            subtree_at(tree.root@, n.path@) is Some,
            subtree_wf(tree.root@),
            n.tree == Some(tree),
        decreases n.path@.len() - k,
    {
        proof {
            lemma_subtree_at_prefix(tree.root@, n.path@, k as int + 1);
            assert(n.path@.take(k as int + 1).drop_last() =~= n.path@.take(k as int));
            assert(n.path@.take(k as int + 1).last() == n.path@[k as int]);
        }
        cur = ts_subtree_child(cur, n.path[k] as usize);
        k = k + 1;
    }
    proof {
        assert(n.path@.take(n.path@.len() as int) =~= n.path@);
        lemma_subtree_at_wf(tree.root@, n.path@);
    }
    cur
}

/// Every prefix of a path that leads to a subtree leads to a subtree.
proof fn lemma_subtree_at_prefix(s: SubtreeView, path: Seq<u32>, k: int)
    requires
        0 <= k <= path.len(),
        subtree_at(s, path) is Some,
    ensures
        subtree_at(s, path.take(k)) is Some,
    decreases path.len(),
{
    if k < path.len() {
        assert(path.drop_last().take(k) =~= path.take(k));
        lemma_subtree_at_prefix(s, path.drop_last(), k);
    } else {
        assert(path.take(k) =~= path);
    }
}

pub fn ts_node_start_byte(self_0: &TSNode) -> (b: u32)
    ensures
        b == spec_node_start(*self_0).bytes,
{
    self_0.context[0]
}

pub fn ts_node_start_point(self_0: &TSNode) -> (p: TSPoint)
    ensures
        p == spec_node_start(*self_0).extent,
{
    TSPoint { row: self_0.context[1], column: self_0.context[2] }
}

fn ts_node_alias(self_0: &TSNode) -> (a: u16)
    ensures
        a == spec_node_alias(*self_0),
{
    self_0.context[3] as u16
}

pub open spec fn spec_node_end_byte(n: TSNode) -> u32 {
    wadd(spec_node_start(n).bytes, spec_size(node_view(n)).bytes)
}

/// The byte where a node ends: its start plus its size.
pub fn ts_node_end_byte(self_0: &TSNode) -> (b: u32)
    requires
        node_valid(*self_0),
    ensures
        b == spec_node_end_byte(*self_0),
{
    u32_wrapping_add(ts_node_start_byte(self_0), ts_subtree_size(ts_node_subtree(self_0)).bytes)
}

/// The point where a node ends.
pub fn ts_node_end_point(self_0: &TSNode) -> (p: TSPoint)
    requires
        node_valid(*self_0),
    ensures
        p == spec_point_add(spec_node_start(*self_0).extent, spec_size(node_view(*self_0)).extent),
{
    point_add(ts_node_start_point(self_0), ts_subtree_size(ts_node_subtree(self_0)).extent)
}

/// The symbol a node shows: its alias, or else its own.
pub open spec fn spec_node_raw_symbol(n: TSNode) -> u16 {
    if spec_node_alias(n) != 0 {
        spec_node_alias(n)
    } else {
        spec_symbol(node_view(n))
    }
}

fn node_raw_symbol(self_0: &TSNode) -> (s: u16)
    requires
        node_valid(*self_0),
    ensures
        s == spec_node_raw_symbol(*self_0),
{
    let alias = ts_node_alias(self_0);
    if alias != 0 {
        alias
    } else {
        ts_subtree_symbol(ts_node_subtree(self_0))
    }
}

/// The public symbol of a node (see `ts_language_public_symbol`).
pub fn ts_node_symbol(self_0: &TSNode) -> (s: u16)
    requires
        node_valid(*self_0),
    ensures
        s == spec_public_symbol(node_language(*self_0), spec_node_raw_symbol(*self_0)),
{
    let symbol = node_raw_symbol(self_0);
    ts_language_public_symbol(self_0.tree.unwrap().language, symbol)
}

/// The name of a node's type: the name of its alias or of its symbol.
pub fn ts_node_type(self_0: &TSNode) -> (name: Option<Vec<u8>>)
    requires
        node_valid(*self_0),
    ensures
        match name {
            Some(n) => spec_symbol_name(node_language(*self_0), spec_node_raw_symbol(*self_0))
                == Some(n@),
            None => spec_symbol_name(node_language(*self_0), spec_node_raw_symbol(*self_0)) is None,
        },
{
    let symbol = node_raw_symbol(self_0);
    ts_language_symbol_name(self_0.tree.unwrap().language, symbol)
}

/// A node's subtree as an S-expression of its named nodes.
pub fn ts_node_string(self_0: &TSNode) -> (r: Vec<u8>)
    requires
        node_valid(*self_0),
    ensures
        r@ == spec_subtree_string(Some(node_view(*self_0)), node_language(*self_0), false),
{
    let s = ts_node_subtree(self_0);
    let t = Some(crate::subtree::ts_subtree_retain(s));
    ts_subtree_string(&t, self_0.tree.unwrap().language, false)
}

/// `std::ptr::eq` on two trees: whether both references point at the same
/// tree. The contract claims only that references to one tree have equal
/// values.
#[verifier::external_body]
fn same_tree(a: &TSTree, b: &TSTree) -> (r: bool)
    ensures
        r ==> *a == *b,
{
    std::ptr::eq(a, b)
}

pub(crate) fn same_path(a: &Vec<u32>, b: &Vec<u32>) -> (r: bool)
    ensures
        r == (a@ == b@),
{
    if a.len() != b.len() {
        return false;
    }
    let mut i: usize = 0;
    while i < a.len()
        invariant
            i <= a@.len(),
            a@.len() == b@.len(),
            forall|j: int| 0 <= j < i ==> a@[j] == b@[j],
        decreases a@.len() - i,
    {
        if a[i] != b[i] {
            return false;
        }
        i = i + 1;
    }
    proof {
        assert(a@ =~= b@);
    }
    true
}

/// Whether two nodes are the same node: both null, or the same path in the
/// same tree. Trees are told apart by where they are, which the contract
/// cannot see: it says that non-null nodes on different paths, or a null and
/// a non-null node, differ, and that equal non-null nodes have equal trees
/// and paths.
pub fn ts_node_eq(self_0: &TSNode, other: &TSNode) -> (r: bool)
    ensures
        r ==> (self_0.tree is None && other.tree is None) || (self_0.tree is Some
            && other.tree is Some && *self_0.tree->0 == *other.tree->0 && self_0.path@
            == other.path@),
        self_0.tree is None && other.tree is None ==> r,
        (self_0.tree is None) != (other.tree is None) ==> !r,
        self_0.tree is Some && self_0.path@ != other.path@ ==> !r,
{
    match (self_0.tree, other.tree) {
        (Some(a), Some(b)) => same_tree(a, b) && same_path(&self_0.path, &other.path),
        (None, None) => true,
        _ => false,
    }
}

pub fn ts_node_is_null(self_0: &TSNode) -> (r: bool)
    ensures
        r == (self_0.tree is None),
{
    self_0.tree.is_none()
}

pub fn ts_node_is_extra(self_0: &TSNode) -> (r: bool)
    requires
        node_valid(*self_0),
    ensures
        r == spec_extra(node_view(*self_0)),
{
    ts_subtree_extra(ts_node_subtree(self_0))
}

pub open spec fn spec_node_is_named(n: TSNode) -> bool {
    if spec_node_alias(n) != 0 {
        spec_symbol_metadata(node_language(n), spec_node_alias(n)).named
    } else {
        spec_named(node_view(n))
    }
}

/// Whether a node is named: by its alias's metadata if it has one.
pub fn ts_node_is_named(self_0: &TSNode) -> (r: bool)
    requires
        node_valid(*self_0),
    ensures
        r == spec_node_is_named(*self_0),
{
    let alias = ts_node_alias(self_0);
    if alias != 0 {
        ts_language_symbol_metadata(self_0.tree.unwrap().language, alias).named
    } else {
        ts_subtree_named(ts_node_subtree(self_0))
    }
}

pub fn ts_node_is_missing(self_0: &TSNode) -> (r: bool)
    requires
        node_valid(*self_0),
    ensures
        r == spec_missing(node_view(*self_0)),
{
    ts_subtree_missing(ts_node_subtree(self_0))
}

pub fn ts_node_has_changes(self_0: &TSNode) -> (r: bool)
    requires
        node_valid(*self_0),
    ensures
        r == spec_has_changes(node_view(*self_0)),
{
    ts_subtree_has_changes(ts_node_subtree(self_0))
}

/// Whether a node or something in it is an error.
pub fn ts_node_has_error(self_0: &TSNode) -> (r: bool)
    requires
        node_valid(*self_0),
    ensures
        r == (spec_error_cost(node_view(*self_0)) > 0),
{
    ts_subtree_error_cost(ts_node_subtree(self_0)) > 0
}

/// The number of children of a node that are visible in the tree.
pub fn ts_node_child_count(self_0: &TSNode) -> (n: u32)
    requires
        node_valid(*self_0),
    ensures
        n == (if spec_child_count(node_view(*self_0)) > 0 {
            spec_visible_child_count(node_view(*self_0))
        } else {
            0
        }),
{
    let s = ts_node_subtree(self_0);
    if ts_subtree_child_count(s) > 0 {
        ts_subtree_visible_child_count(s)
    } else {
        0
    }
}

/// The number of named children of a node that are visible in the tree.
pub fn ts_node_named_child_count(self_0: &TSNode) -> (n: u32)
    requires
        node_valid(*self_0),
    ensures
        n == (if spec_child_count(node_view(*self_0)) > 0 {
            spec_named_child_count(node_view(*self_0))
        } else {
            0
        }),
{
    let s = ts_node_subtree(self_0);
    if ts_subtree_child_count(s) > 0 {
        ts_subtree_named_child_count(s)
    } else {
        0
    }
}

/// A node's start after an edit: moved with the text when it starts after the
/// replaced text, moved to the end of the new text when it starts inside it.
pub open spec fn spec_edited_start(start: Length, e: TSInputEdit) -> Length {
    if start.bytes >= e.old_end_byte {
        Length {
            bytes: wadd(e.new_end_byte, wsub(start.bytes, e.old_end_byte)),
            extent: spec_point_add(e.new_end_point, spec_point_sub(start.extent, e.old_end_point)),
        }
    } else if start.bytes > e.start_byte {
        Length { bytes: e.new_end_byte, extent: e.new_end_point }
    } else {
        start
    }
}

/// Moves a node's start to where the edit puts it (see `spec_edited_start`).
pub fn ts_node_edit(self_0: &mut TSNode, edit: &TSInputEdit)
    ensures
        spec_node_start(*final(self_0)) == spec_edited_start(spec_node_start(*old(self_0)), *edit),
        spec_node_alias(*final(self_0)) == spec_node_alias(*old(self_0)),
        final(self_0).path@ == old(self_0).path@,
        final(self_0).tree == old(self_0).tree,
{
    let mut start_byte = ts_node_start_byte(self_0);
    let mut start_point = ts_node_start_point(self_0);
    if start_byte >= edit.old_end_byte {
        start_byte = u32_wrapping_add(edit.new_end_byte, u32_wrapping_sub(start_byte, edit.old_end_byte));
        start_point = point_add(edit.new_end_point, point_sub(start_point, edit.old_end_point));
    } else if start_byte > edit.start_byte {
        start_byte = edit.new_end_byte;
        start_point = edit.new_end_point;
    }
    self_0.context[0] = start_byte;
    self_0.context[1] = start_point.row;
    self_0.context[2] = start_point.column;
}

// ---------------------------------------------------------------------------
// The children of a node.
// ---------------------------------------------------------------------------

/// Where child `i` of a node starts, for a node that starts at `start`: the
/// first child where the node does, each later child after the end of the
/// one before and its own padding.
pub open spec fn spec_child_start(cs: Seq<SubtreeView>, start: Length, i: int) -> Length
    decreases i,
{
    if i <= 0 {
        start
    } else {
        spec_length_add(
            spec_length_add(spec_child_start(cs, start, i - 1), spec_size(cs[i - 1])),
            spec_padding(cs[i]),
        )
    }
}

/// Where child `i` ends.
pub open spec fn spec_child_end(cs: Seq<SubtreeView>, start: Length, i: int) -> Length {
    spec_length_add(spec_child_start(cs, start, i), spec_size(cs[i]))
}

/// The number of children before `i` that are not extra.
pub open spec fn spec_structural_index(cs: Seq<SubtreeView>, i: int) -> u32
    decreases i,
{
    if i <= 0 {
        0
    } else if spec_extra(cs[i - 1]) {
        spec_structural_index(cs, i - 1)
    } else {
        wadd(spec_structural_index(cs, i - 1), 1)
    }
}

/// The alias of child `i`: none for extra children; for the others, the
/// production's alias at the child's structural index.
pub open spec fn spec_child_alias(
    cs: Seq<SubtreeView>,
    l: &TSLanguage,
    production_id: u16,
    i: int,
) -> u16 {
    if spec_extra(cs[i]) {
        0
    } else {
        spec_alias_at(l, production_id as u32, spec_structural_index(cs, i))
    }
}

/// Whether a node counts among the children that the API shows: a visible or
/// aliased node; for named-only searches, a named one.
pub open spec fn spec_is_relevant(
    l: &TSLanguage,
    s: SubtreeView,
    alias: u16,
    include_anonymous: bool,
) -> bool {
    if include_anonymous {
        spec_visible(s) || alias != 0
    } else if alias != 0 {
        spec_symbol_metadata(l, alias).named
    } else {
        spec_visible(s) && spec_named(s)
    }
}

/// How many shown children a node has, by its summary.
pub open spec fn spec_relevant_child_count(s: SubtreeView, include_anonymous: bool) -> u32 {
    if spec_child_count(s) > 0 {
        if include_anonymous {
            spec_visible_child_count(s)
        } else {
            spec_named_child_count(s)
        }
    } else {
        0
    }
}

/// A found node, by path, start and alias.
pub type FoundNode = (Seq<u32>, Length, u16);

/// The `child_index`-th shown child of the node `s` (at `start`, reached by
/// `path`): shown children count one each; a hidden child stands for its own
/// shown children, as many as its summary says, and is searched when the
/// index falls among them.
pub open spec fn spec_child_search(
    l: &TSLanguage,
    s: SubtreeView,
    start: Length,
    path: Seq<u32>,
    child_index: u32,
    include_anonymous: bool,
) -> Option<FoundNode>
    decreases s, 1int, 0int,
{
    match s {
        SubtreeView::Heap(h) => spec_child_search_from(
            l,
            h.children,
            h.production_id,
            start,
            path,
            0,
            0,
            child_index,
            include_anonymous,
        ),
        SubtreeView::Inline(_) => None,
    }
}

pub open spec fn spec_child_search_from(
    l: &TSLanguage,
    cs: Seq<SubtreeView>,
    production_id: u16,
    start: Length,
    path: Seq<u32>,
    i: int,
    index: u32,
    child_index: u32,
    include_anonymous: bool,
) -> Option<FoundNode>
    decreases cs, 0int, cs.len() - i,
{
    if i < 0 || i >= cs.len() {
        None
    } else {
        let c = cs[i];
        let c_start = spec_child_start(cs, start, i);
        let alias = spec_child_alias(cs, l, production_id, i);
        if spec_is_relevant(l, c, alias, include_anonymous) {
            if index == child_index {
                Some((path.push(i as u32), c_start, alias))
            } else {
                spec_child_search_from(
                    l,
                    cs,
                    production_id,
                    start,
                    path,
                    i + 1,
                    wadd(index, 1),
                    child_index,
                    include_anonymous,
                )
            }
        } else {
            let grandchild_index = wsub(child_index, index);
            let grandchild_count = spec_relevant_child_count(c, include_anonymous);
            if grandchild_index < grandchild_count {
                spec_child_search(
                    l,
                    c,
                    c_start,
                    path.push(i as u32),
                    grandchild_index,
                    include_anonymous,
                )
            } else {
                spec_child_search_from(
                    l,
                    cs,
                    production_id,
                    start,
                    path,
                    i + 1,
                    wadd(index, grandchild_count),
                    child_index,
                    include_anonymous,
                )
            }
        }
    }
}

/// Whether child `j` of a node shows among its children: itself, where it is
/// visible or aliased, or some of its own children, where it is hidden.
pub open spec fn child_shows(l: &TSLanguage, cs: Seq<SubtreeView>, production_id: u16, j: int) -> bool {
    spec_is_relevant(l, cs[j], spec_child_alias(cs, l, production_id, j), true) || spec_relevant_child_count(
        cs[j],
        true,
    ) > 0
}

/// Whether the visible child counts of a subtree agree with its children, as
/// far as being zero goes: a node with children counts some exactly when
/// one of its children shows, and so on all the way down.
pub open spec fn counts_consistent(l: &TSLanguage, s: SubtreeView) -> bool
    decreases s, 1int,
{
    match s {
        SubtreeView::Heap(h) => {
            &&& h.children.len() > 0 ==> (h.visible_child_count > 0 <==> exists|j: int|
                0 <= j < h.children.len() && #[trigger] child_shows(l, h.children, h.production_id, j))
            &&& all_counts_consistent(l, h.children)
        },
        SubtreeView::Inline(_) => true,
    }
}

/// `counts_consistent` for each of a run of subtrees.
pub open spec fn all_counts_consistent(l: &TSLanguage, cs: Seq<SubtreeView>) -> bool
    decreases cs, 0int,
{
    if cs.len() == 0 {
        true
    } else {
        all_counts_consistent(l, cs.drop_last()) && counts_consistent(l, cs.last())
    }
}

proof fn lemma_all_consistent(l: &TSLanguage, cs: Seq<SubtreeView>, j: int)
    requires
        all_counts_consistent(l, cs),
        0 <= j < cs.len(),
    ensures
        counts_consistent(l, cs[j]),
    decreases cs.len(),
{
    if j < cs.len() - 1 {
        lemma_all_consistent(l, cs.drop_last(), j);
        assert(cs.drop_last()[j] == cs[j]);
    }
}

/// With consistent counts, the search for a node's child 0 finds one
/// exactly when the node has children and counts some visible ones.
pub proof fn lemma_child_zero_found(l: &TSLanguage, s: SubtreeView, start: Length, path: Seq<u32>)
    requires
        counts_consistent(l, s),
    ensures
        spec_child_search(l, s, start, path, 0, true) is Some <==> spec_relevant_child_count(s, true) > 0,
    decreases s, 1int, 0int,
{
    match s {
        SubtreeView::Heap(h) => {
            lemma_child_zero_found_from(l, h.children, h.production_id, start, path, 0);
            if h.children.len() > 0 {
                if exists|j: int| 0 <= j < h.children.len() && #[trigger] child_shows(l, h.children, h.production_id, j) {
                    let j = choose|j: int| 0 <= j < h.children.len() && #[trigger] child_shows(l, h.children, h.production_id, j);
                    assert(j >= 0);
                }
            }
        },
        SubtreeView::Inline(_) => {},
    }
}

proof fn lemma_child_zero_found_from(
    l: &TSLanguage,
    cs: Seq<SubtreeView>,
    production_id: u16,
    start: Length,
    path: Seq<u32>,
    i: int,
)
    requires
        all_counts_consistent(l, cs),
        0 <= i,
    ensures
        spec_child_search_from(l, cs, production_id, start, path, i, 0, 0, true) is Some <==> exists|j: int|
            i <= j < cs.len() && #[trigger] child_shows(l, cs, production_id, j),
    decreases cs, 0int, cs.len() - i,
{
    if i < cs.len() {
        let c = cs[i];
        let c_start = spec_child_start(cs, start, i);
        lemma_all_consistent(l, cs, i);
        lemma_child_zero_found_from(l, cs, production_id, start, path, i + 1);
        let r = spec_child_search_from(l, cs, production_id, start, path, i, 0, 0, true);
        let next = spec_child_search_from(l, cs, production_id, start, path, i + 1, 0, 0, true);
        if spec_is_relevant(l, c, spec_child_alias(cs, l, production_id, i), true) {
            assert(r is Some);
            assert(child_shows(l, cs, production_id, i));
        } else {
            assert(decreases_to!(cs => c));
            lemma_child_zero_found(l, c, c_start, path.push(i as u32));
            assert(crate::length::wsub(0, 0) == 0);
            assert(crate::length::wadd(0, 0) == 0);
            if 0 < spec_relevant_child_count(c, true) {
                assert(r == spec_child_search(l, c, c_start, path.push(i as u32), 0, true));
                assert(r is Some);
                assert(child_shows(l, cs, production_id, i));
            } else {
                assert(r == next);
                assert(!child_shows(l, cs, production_id, i));
            }
        }
        if exists|j: int| i <= j < cs.len() && #[trigger] child_shows(l, cs, production_id, j) {
            let j = choose|j: int| i <= j < cs.len() && #[trigger] child_shows(l, cs, production_id, j);
            if j > i {
                assert(i + 1 <= j);
            }
        }
        if exists|j: int| i + 1 <= j < cs.len() && #[trigger] child_shows(l, cs, production_id, j) {
            let j = choose|j: int| i + 1 <= j < cs.len() && #[trigger] child_shows(l, cs, production_id, j);
            assert(i <= j);
        }
    }
}

pub(crate) fn path_push(path: &Vec<u32>, i: u32) -> (r: Vec<u32>)
    ensures
        r@ == path@.push(i),
{
    let mut r: Vec<u32> = Vec::new();
    let mut k: usize = 0;
    while k < path.len()
        invariant
            k <= path@.len(),
            r@ == path@.subrange(0, k as int),
        decreases path@.len() - k,
    {
        r.push(path[k]);
        k = k + 1;
    }
    proof {
        assert(path@.subrange(0, path@.len() as int) =~= path@);
    }
    r.push(i);
    r
}

/// The path to a child leads to that child.
pub(crate) proof fn lemma_subtree_at_push(root: SubtreeView, path: Seq<u32>, s: SubtreeView, i: u32)
    requires
        subtree_at(root, path) == Some(s),
        i < spec_child_count(s),
    ensures
        subtree_at(root, path.push(i)) == Some(spec_children(s)[i as int]),
{
    assert(path.push(i).drop_last() =~= path);
}

/// What the children loop knows of child `i` of `s`.
pub(crate) proof fn lemma_child_facts(s: SubtreeView, i: int)
    requires
        subtree_wf(s),
        0 <= i < spec_child_count(s),
    ensures
        subtree_wf(spec_children(s)[i]),
        decreases_to!(s => spec_children(s)[i]),
{
    if let SubtreeView::Heap(h) = s {
        lemma_children_wf(h.children);
        assert(decreases_to!(s => h));
        assert(decreases_to!(h => h.children));
        assert(decreases_to!(h.children => h.children[i]));
    }
}

pub(crate) fn child_search<'t, 'l>(
    tree: &'t TSTree<'l>,
    s: &'t Subtree,
    start: Length,
    path: &Vec<u32>,
    child_index: u32,
    include_anonymous: bool,
) -> (r: Option<(Vec<u32>, Length, u16)>)
    requires
        subtree_wf(s@),
        subtree_at(tree.root@, path@) == Some(s@),
    ensures
        match r {
            Some((p, st, a)) => spec_child_search(
                tree.language,
                s@,
                start,
                path@,
                child_index,
                include_anonymous,
            ) == Some((p@, st, a)) && subtree_at(tree.root@, p@) is Some,
            None => spec_child_search(
                tree.language,
                s@,
                start,
                path@,
                child_index,
                include_anonymous,
            ) is None,
        },
    decreases s@,
{
    let l = tree.language;
    let n = ts_subtree_child_count(s);
    if n == 0 {
        return None;
    }
    let production_id = match s {
        Subtree::Heap(h) => h.production_id,
        Subtree::Inline(_) => 0,
    };
    let ghost cs = spec_children(s@);
    let ghost pid = production_id;
    let ghost total = spec_child_search(l, s@, start, path@, child_index, include_anonymous);
    proof {
        assert(total == spec_child_search_from(l, cs, pid, start, path@, 0, 0, child_index, include_anonymous));
    }
    let mut i: u32 = 0;
    let mut index: u32 = 0;
    let mut structural: u32 = 0;
    let mut prev_end = start;
    while i < n
        invariant
            i <= n,
            n == cs.len(),
            cs == spec_children(s@),
            subtree_wf(s@),
            subtree_at(tree.root@, path@) == Some(s@),
            l == tree.language,
            pid == production_id,
            s@ is Heap ==> pid == s@->Heap_0.production_id,
            structural == spec_structural_index(cs, i as int),
            i > 0 ==> prev_end == spec_child_end(cs, start, i - 1),
            total == spec_child_search_from(l, cs, pid, start, path@, i as int, index, child_index, include_anonymous),
            total == spec_child_search(l, s@, start, path@, child_index, include_anonymous),
        decreases n - i,
    {
        proof {
            lemma_child_facts(s@, i as int);
        }
        let c = ts_subtree_child(s, i as usize);
        let c_start = if i == 0 {
            start
        } else {
            length_add(prev_end, ts_subtree_padding(c))
        };
        let alias = if ts_subtree_extra(c) {
            0
        } else {
            ts_language_alias_at(l, production_id as u32, structural)
        };
        let relevant = if include_anonymous {
            ts_subtree_visible(c) || alias != 0
        } else if alias != 0 {
            ts_language_symbol_metadata(l, alias).named
        } else {
            ts_subtree_visible(c) && ts_subtree_named(c)
        };
        if relevant {
            if index == child_index {
                proof {
                    lemma_subtree_at_push(tree.root@, path@, s@, i);
                }
                return Some((path_push(path, i), c_start, alias));
            }
            index = u32_wrapping_add(index, 1);
        } else {
            let grandchild_index = u32_wrapping_sub(child_index, index);
            let grandchild_count = if ts_subtree_child_count(c) > 0 {
                if include_anonymous {
                    ts_subtree_visible_child_count(c)
                } else {
                    ts_subtree_named_child_count(c)
                }
            } else {
                0
            };
            if grandchild_index < grandchild_count {
                proof {
                    lemma_subtree_at_push(tree.root@, path@, s@, i);
                }
                let child_path = path_push(path, i);
                return child_search(tree, c, c_start, &child_path, grandchild_index, include_anonymous);
            }
            index = u32_wrapping_add(index, grandchild_count);
        }
        if !ts_subtree_extra(c) {
            structural = u32_wrapping_add(structural, 1);
        }
        prev_end = length_add(c_start, ts_subtree_size(c));
        i = i + 1;
    }
    None
}

/// The `child_index`-th shown child of a node (see `spec_child_search`), or
/// the null node.
fn ts_node__child<'t, 'l>(self_0: &TSNode<'t, 'l>, child_index: u32, include_anonymous: bool) -> (r:
    TSNode<'t, 'l>)
    requires
        node_valid(*self_0),
    ensures
        match spec_child_search(
            node_language(*self_0),
            node_view(*self_0),
            spec_node_start(*self_0),
            self_0.path@,
            child_index,
            include_anonymous,
        ) {
            Some((p, st, a)) => r.tree == self_0.tree && r.path@ == p && spec_node_start(r) == st
                && spec_node_alias(r) == a && node_valid(r),
            None => r.tree is None,
        },
{
    let tree = self_0.tree.unwrap();
    let s = ts_node_subtree(self_0);
    let start = Length { bytes: ts_node_start_byte(self_0), extent: ts_node_start_point(self_0) };
    match child_search(tree, s, start, &self_0.path, child_index, include_anonymous) {
        Some((p, st, a)) => ts_node_new(tree, p, st, a),
        None => ts_node_null(),
    }
}

/// The `child_index`-th child of a node, counting the visible ones.
pub fn ts_node_child<'t, 'l>(self_0: &TSNode<'t, 'l>, child_index: u32) -> (r: TSNode<'t, 'l>)
    requires
        node_valid(*self_0),
    ensures
        match spec_child_search(
            node_language(*self_0),
            node_view(*self_0),
            spec_node_start(*self_0),
            self_0.path@,
            child_index,
            true,
        ) {
            Some((p, st, a)) => r.tree == self_0.tree && r.path@ == p && spec_node_start(r) == st
                && spec_node_alias(r) == a && node_valid(r),
            None => r.tree is None,
        },
{
    ts_node__child(self_0, child_index, true)
}

/// The `child_index`-th named child of a node.
pub fn ts_node_named_child<'t, 'l>(self_0: &TSNode<'t, 'l>, child_index: u32) -> (r: TSNode<'t, 'l>)
    requires
        node_valid(*self_0),
    ensures
        match spec_child_search(
            node_language(*self_0),
            node_view(*self_0),
            spec_node_start(*self_0),
            self_0.path@,
            child_index,
            false,
        ) {
            Some((p, st, a)) => r.tree == self_0.tree && r.path@ == p && spec_node_start(r) == st
                && spec_node_alias(r) == a && node_valid(r),
            None => r.tree is None,
        },
{
    ts_node__child(self_0, child_index, false)
}

/// What the children loops compute for child `i`: its start and its alias.
pub(crate) fn child_position<'t>(
    l: &TSLanguage,
    s: &'t Subtree,
    i: u32,
    start: Length,
    prev_end: Length,
    structural: u32,
    production_id: u16,
) -> (r: (&'t Subtree, Length, u16))
    requires
        subtree_wf(s@),
        i < spec_child_count(s@),
        structural == spec_structural_index(spec_children(s@), i as int),
        i > 0 ==> prev_end == spec_child_end(spec_children(s@), start, i - 1),
    ensures
        r.0@ == spec_children(s@)[i as int],
        r.1 == spec_child_start(spec_children(s@), start, i as int),
        r.2 == spec_child_alias(spec_children(s@), l, production_id, i as int),
{
    let c = ts_subtree_child(s, i as usize);
    let c_start = if i == 0 {
        start
    } else {
        length_add(prev_end, ts_subtree_padding(c))
    };
    let alias = if ts_subtree_extra(c) {
        0
    } else {
        ts_language_alias_at(l, production_id as u32, structural)
    };
    (c, c_start, alias)
}

pub(crate) fn is_relevant(l: &TSLanguage, c: &Subtree, alias: u16, include_anonymous: bool) -> (r: bool)
    ensures
        r == spec_is_relevant(l, c@, alias, include_anonymous),
{
    if include_anonymous {
        ts_subtree_visible(c) || alias != 0
    } else if alias != 0 {
        ts_language_symbol_metadata(l, alias).named
    } else {
        ts_subtree_visible(c) && ts_subtree_named(c)
    }
}

pub(crate) fn production_id_of(s: &Subtree) -> (p: u16)
    ensures
        s@ is Heap ==> p == s@->Heap_0.production_id,
{
    match s {
        Subtree::Heap(h) => h.production_id,
        Subtree::Inline(_) => 0,
    }
}

/// The first shown descendant of the node `s` that ends after the byte
/// `goal`: the first child that ends after it, if shown; else, if that child
/// has visible children, the search goes on inside it.
pub open spec fn spec_first_child_for_byte(
    l: &TSLanguage,
    s: SubtreeView,
    start: Length,
    path: Seq<u32>,
    goal: u32,
    include_anonymous: bool,
) -> Option<FoundNode>
    decreases s, 1int, 0int,
{
    match s {
        SubtreeView::Heap(h) => spec_first_child_for_byte_from(
            l,
            h.children,
            h.production_id,
            start,
            path,
            0,
            goal,
            include_anonymous,
        ),
        SubtreeView::Inline(_) => None,
    }
}

pub open spec fn spec_first_child_for_byte_from(
    l: &TSLanguage,
    cs: Seq<SubtreeView>,
    production_id: u16,
    start: Length,
    path: Seq<u32>,
    i: int,
    goal: u32,
    include_anonymous: bool,
) -> Option<FoundNode>
    decreases cs, 0int, cs.len() - i,
{
    if i < 0 || i >= cs.len() {
        None
    } else {
        let c = cs[i];
        let c_start = spec_child_start(cs, start, i);
        let alias = spec_child_alias(cs, l, production_id, i);
        if !(wadd(c_start.bytes, spec_size(c).bytes) > goal) {
            spec_first_child_for_byte_from(
                l,
                cs,
                production_id,
                start,
                path,
                i + 1,
                goal,
                include_anonymous,
            )
        } else if spec_is_relevant(l, c, alias, include_anonymous) {
            Some((path.push(i as u32), c_start, alias))
        } else if spec_relevant_child_count(c, true) > 0 {
            spec_first_child_for_byte(l, c, c_start, path.push(i as u32), goal, include_anonymous)
        } else {
            spec_first_child_for_byte_from(
                l,
                cs,
                production_id,
                start,
                path,
                i + 1,
                goal,
                include_anonymous,
            )
        }
    }
}

fn first_child_for_byte<'t, 'l>(
    tree: &'t TSTree<'l>,
    s: &'t Subtree,
    start: Length,
    path: &Vec<u32>,
    goal: u32,
    include_anonymous: bool,
) -> (r: Option<(Vec<u32>, Length, u16)>)
    requires
        subtree_wf(s@),
        subtree_at(tree.root@, path@) == Some(s@),
    ensures
        match r {
            Some((p, st, a)) => spec_first_child_for_byte(
                tree.language,
                s@,
                start,
                path@,
                goal,
                include_anonymous,
            ) == Some((p@, st, a)) && subtree_at(tree.root@, p@) is Some,
            None => spec_first_child_for_byte(
                tree.language,
                s@,
                start,
                path@,
                goal,
                include_anonymous,
            ) is None,
        },
    decreases s@,
{
    let l = tree.language;
    let n = ts_subtree_child_count(s);
    if n == 0 {
        return None;
    }
    let production_id = production_id_of(s);
    let ghost cs = spec_children(s@);
    let ghost total = spec_first_child_for_byte(l, s@, start, path@, goal, include_anonymous);
    let mut i: u32 = 0;
    let mut structural: u32 = 0;
    let mut prev_end = start;
    while i < n
        invariant
            i <= n,
            n == cs.len(),
            cs == spec_children(s@),
            subtree_wf(s@),
            subtree_at(tree.root@, path@) == Some(s@),
            l == tree.language,
            s@ is Heap ==> production_id == s@->Heap_0.production_id,
            structural == spec_structural_index(cs, i as int),
            i > 0 ==> prev_end == spec_child_end(cs, start, i - 1),
            total == spec_first_child_for_byte_from(l, cs, production_id, start, path@, i as int, goal, include_anonymous),
            total == spec_first_child_for_byte(l, s@, start, path@, goal, include_anonymous),
        decreases n - i,
    {
        proof {
            lemma_child_facts(s@, i as int);
        }
        let (c, c_start, alias) = child_position(l, s, i, start, prev_end, structural, production_id);
        if u32_wrapping_add(c_start.bytes, ts_subtree_size(c).bytes) > goal {
            if is_relevant(l, c, alias, include_anonymous) {
                proof {
                    lemma_subtree_at_push(tree.root@, path@, s@, i);
                }
                return Some((path_push(path, i), c_start, alias));
            }
            let visible_count = if ts_subtree_child_count(c) > 0 {
                ts_subtree_visible_child_count(c)
            } else {
                0
            };
            if visible_count > 0 {
                proof {
                    lemma_subtree_at_push(tree.root@, path@, s@, i);
                }
                let child_path = path_push(path, i);
                return first_child_for_byte(tree, c, c_start, &child_path, goal, include_anonymous);
            }
        }
        if !ts_subtree_extra(c) {
            structural = u32_wrapping_add(structural, 1);
        }
        prev_end = length_add(c_start, ts_subtree_size(c));
        i = i + 1;
    }
    None
}

/// The node that a search found, or the null node.
pub(crate) fn found_node<'t, 'l>(tree: &'t TSTree<'l>, found: Option<(Vec<u32>, Length, u16)>) -> (r: TSNode<
    't,
    'l,
>)
    requires
        found matches Some((p, st, a)) ==> subtree_at(tree.root@, p@) is Some,
        subtree_wf(tree.root@),
    ensures
        match found {
            Some((p, st, a)) => r.tree == Some(tree) && r.path@ == p@ && spec_node_start(r) == st
                && spec_node_alias(r) == a && node_valid(r),
            None => r.tree is None,
        },
{
    match found {
        Some((p, st, a)) => ts_node_new(tree, p, st, a),
        None => ts_node_null(),
    }
}

/// The first child of a node that ends after the byte `byte` (see
/// `spec_first_child_for_byte`), or the null node.
pub fn ts_node_first_child_for_byte<'t, 'l>(self_0: &TSNode<'t, 'l>, byte: u32) -> (r: TSNode<'t, 'l>)
    requires
        node_valid(*self_0),
    ensures
        match spec_first_child_for_byte(
            node_language(*self_0),
            node_view(*self_0),
            spec_node_start(*self_0),
            self_0.path@,
            byte,
            true,
        ) {
            Some((p, st, a)) => r.tree == self_0.tree && r.path@ == p && spec_node_start(r) == st
                && spec_node_alias(r) == a && node_valid(r),
            None => r.tree is None,
        },
{
    let tree = self_0.tree.unwrap();
    let start = Length { bytes: ts_node_start_byte(self_0), extent: ts_node_start_point(self_0) };
    let found = first_child_for_byte(tree, ts_node_subtree(self_0), start, &self_0.path, byte, true);
    found_node(tree, found)
}

/// The first named child of a node that ends after the byte `byte`.
pub fn ts_node_first_named_child_for_byte<'t, 'l>(self_0: &TSNode<'t, 'l>, byte: u32) -> (r: TSNode<
    't,
    'l,
>)
    requires
        node_valid(*self_0),
    ensures
        match spec_first_child_for_byte(
            node_language(*self_0),
            node_view(*self_0),
            spec_node_start(*self_0),
            self_0.path@,
            byte,
            false,
        ) {
            Some((p, st, a)) => r.tree == self_0.tree && r.path@ == p && spec_node_start(r) == st
                && spec_node_alias(r) == a && node_valid(r),
            None => r.tree is None,
        },
{
    let tree = self_0.tree.unwrap();
    let start = Length { bytes: ts_node_start_byte(self_0), extent: ts_node_start_point(self_0) };
    let found = first_child_for_byte(tree, ts_node_subtree(self_0), start, &self_0.path, byte, false);
    found_node(tree, found)
}

/// How a descent through a node's children picks the child to go into: the
/// first child whose end reaches the range (by bytes, or by points), unless
/// that child starts after the range's start.
pub enum RangeKind {
    Bytes(u32, u32),
    Points(TSPoint, TSPoint),
}

/// Whether the child ending at `end` is passed over: it ends before the end of
/// the range, or at or before its start.
pub open spec fn spec_ends_before(k: RangeKind, end: Length) -> bool {
    match k {
        RangeKind::Bytes(rs, re) => end.bytes < re || end.bytes <= rs,
        RangeKind::Points(rs, re) => spec_point_lt(end.extent, re) || spec_point_lte(end.extent, rs),
    }
}

/// Whether a child starting at `start` starts after the range's start.
pub open spec fn spec_starts_after(k: RangeKind, start: Length) -> bool {
    match k {
        RangeKind::Bytes(rs, re) => rs < start.bytes,
        RangeKind::Points(rs, re) => spec_point_lt(rs, start.extent),
    }
}

/// The smallest shown node at or below the node `s` that spans the range:
/// the descent goes into the first child that reaches past the range (see
/// `RangeKind`), as long as it starts at or before the range's start, and
/// `last` is the last shown node on the way down.
pub open spec fn spec_descendant_for_range(
    l: &TSLanguage,
    s: SubtreeView,
    start: Length,
    path: Seq<u32>,
    k: RangeKind,
    include_anonymous: bool,
    last: FoundNode,
) -> FoundNode
    decreases s, 1int, 0int,
{
    match s {
        SubtreeView::Heap(h) => spec_descendant_for_range_from(
            l,
            h.children,
            h.production_id,
            start,
            path,
            0,
            k,
            include_anonymous,
            last,
        ),
        SubtreeView::Inline(_) => last,
    }
}

pub open spec fn spec_descendant_for_range_from(
    l: &TSLanguage,
    cs: Seq<SubtreeView>,
    production_id: u16,
    start: Length,
    path: Seq<u32>,
    i: int,
    k: RangeKind,
    include_anonymous: bool,
    last: FoundNode,
) -> FoundNode
    decreases cs, 0int, cs.len() - i,
{
    if i < 0 || i >= cs.len() {
        last
    } else {
        let c = cs[i];
        let c_start = spec_child_start(cs, start, i);
        let alias = spec_child_alias(cs, l, production_id, i);
        if spec_ends_before(k, spec_child_end(cs, start, i)) {
            spec_descendant_for_range_from(
                l,
                cs,
                production_id,
                start,
                path,
                i + 1,
                k,
                include_anonymous,
                last,
            )
        } else if spec_starts_after(k, c_start) {
            last
        } else {
            let child = (path.push(i as u32), c_start, alias);
            spec_descendant_for_range(
                l,
                c,
                c_start,
                path.push(i as u32),
                k,
                include_anonymous,
                if spec_is_relevant(l, c, alias, include_anonymous) {
                    child
                } else {
                    last
                },
            )
        }
    }
}

fn ends_before(k: &RangeKind, end: Length) -> (r: bool)
    ensures
        r == spec_ends_before(*k, end),
{
    match k {
        RangeKind::Bytes(rs, re) => end.bytes < *re || end.bytes <= *rs,
        RangeKind::Points(rs, re) => point_lt(end.extent, *re) || point_lte(end.extent, *rs),
    }
}

fn starts_after(k: &RangeKind, start: Length) -> (r: bool)
    ensures
        r == spec_starts_after(*k, start),
{
    match k {
        RangeKind::Bytes(rs, re) => *rs < start.bytes,
        RangeKind::Points(rs, re) => point_lt(*rs, start.extent),
    }
}

fn descendant_for_range<'t, 'l>(
    tree: &'t TSTree<'l>,
    s: &'t Subtree,
    start: Length,
    path: &Vec<u32>,
    k: &RangeKind,
    include_anonymous: bool,
    last: (Vec<u32>, Length, u16),
) -> (r: (Vec<u32>, Length, u16))
    requires
        subtree_wf(s@),
        subtree_at(tree.root@, path@) == Some(s@),
        subtree_at(tree.root@, last.0@) is Some,
    ensures
        spec_descendant_for_range(
            tree.language,
            s@,
            start,
            path@,
            *k,
            include_anonymous,
            (last.0@, last.1, last.2),
        ) == (r.0@, r.1, r.2),
        subtree_at(tree.root@, r.0@) is Some,
    decreases s@,
{
    let l = tree.language;
    let n = ts_subtree_child_count(s);
    if n == 0 {
        return last;
    }
    let production_id = production_id_of(s);
    let ghost cs = spec_children(s@);
    let ghost lastv = (last.0@, last.1, last.2);
    let ghost total = spec_descendant_for_range(l, s@, start, path@, *k, include_anonymous, lastv);
    let mut i: u32 = 0;
    let mut structural: u32 = 0;
    let mut prev_end = start;
    while i < n
        invariant
            i <= n,
            n == cs.len(),
            cs == spec_children(s@),
            subtree_wf(s@),
            subtree_at(tree.root@, path@) == Some(s@),
            subtree_at(tree.root@, last.0@) is Some,
            lastv == (last.0@, last.1, last.2),
            l == tree.language,
            s@ is Heap ==> production_id == s@->Heap_0.production_id,
            structural == spec_structural_index(cs, i as int),
            i > 0 ==> prev_end == spec_child_end(cs, start, i - 1),
            total == spec_descendant_for_range_from(l, cs, production_id, start, path@, i as int, *k, include_anonymous, lastv),
            total == spec_descendant_for_range(l, s@, start, path@, *k, include_anonymous, lastv),
        decreases n - i,
    {
        proof {
            lemma_child_facts(s@, i as int);
        }
        let (c, c_start, alias) = child_position(l, s, i, start, prev_end, structural, production_id);
        let c_end = length_add(c_start, ts_subtree_size(c));
        if !ends_before(k, c_end) {
            if starts_after(k, c_start) {
                return last;
            }
            proof {
                lemma_subtree_at_push(tree.root@, path@, s@, i);
            }
            let child_path = path_push(path, i);
            let next_last = if is_relevant(l, c, alias, include_anonymous) {
                (path_push(path, i), c_start, alias)
            } else {
                last
            };
            return descendant_for_range(tree, c, c_start, &child_path, k, include_anonymous, next_last);
        }
        if !ts_subtree_extra(c) {
            structural = u32_wrapping_add(structural, 1);
        }
        prev_end = c_end;
        i = i + 1;
    }
    last
}

pub(crate) fn clone_path(path: &Vec<u32>) -> (r: Vec<u32>)
    ensures
        r@ == path@,
{
    let mut r: Vec<u32> = Vec::new();
    let mut k: usize = 0;
    while k < path.len()
        invariant
            k <= path@.len(),
            r@ == path@.subrange(0, k as int),
        decreases path@.len() - k,
    {
        r.push(path[k]);
        k = k + 1;
    }
    proof {
        assert(path@.subrange(0, path@.len() as int) =~= path@);
    }
    r
}

fn ts_node__descendant_for_range<'t, 'l>(
    self_0: &TSNode<'t, 'l>,
    k: &RangeKind,
    include_anonymous: bool,
) -> (r: TSNode<'t, 'l>)
    requires
        node_valid(*self_0),
    ensures
        spec_descendant_for_range(
            node_language(*self_0),
            node_view(*self_0),
            spec_node_start(*self_0),
            self_0.path@,
            *k,
            include_anonymous,
            (self_0.path@, spec_node_start(*self_0), spec_node_alias(*self_0)),
        ) == (r.path@, spec_node_start(r), spec_node_alias(r)),
        r.tree == self_0.tree,
        node_valid(r),
{
    let tree = self_0.tree.unwrap();
    let start = Length { bytes: ts_node_start_byte(self_0), extent: ts_node_start_point(self_0) };
    let last = (clone_path(&self_0.path), start, ts_node_alias(self_0));
    let (p, st, a) = descendant_for_range(
        tree,
        ts_node_subtree(self_0),
        start,
        &self_0.path,
        k,
        include_anonymous,
        last,
    );
    ts_node_new(tree, p, st, a)
}

/// The smallest node within a node that spans the bytes `start..end` (see
/// `spec_descendant_for_range`); the node itself when no child does.
pub fn ts_node_descendant_for_byte_range<'t, 'l>(self_0: &TSNode<'t, 'l>, start: u32, end: u32) -> (r:
    TSNode<'t, 'l>)
    requires
        node_valid(*self_0),
    ensures
        spec_descendant_for_range(
            node_language(*self_0),
            node_view(*self_0),
            spec_node_start(*self_0),
            self_0.path@,
            RangeKind::Bytes(start, end),
            true,
            (self_0.path@, spec_node_start(*self_0), spec_node_alias(*self_0)),
        ) == (r.path@, spec_node_start(r), spec_node_alias(r)),
        r.tree == self_0.tree,
        node_valid(r),
{
    ts_node__descendant_for_range(self_0, &RangeKind::Bytes(start, end), true)
}

/// The smallest named node within a node that spans the bytes `start..end`.
pub fn ts_node_named_descendant_for_byte_range<'t, 'l>(
    self_0: &TSNode<'t, 'l>,
    start: u32,
    end: u32,
) -> (r: TSNode<'t, 'l>)
    requires
        node_valid(*self_0),
    ensures
        spec_descendant_for_range(
            node_language(*self_0),
            node_view(*self_0),
            spec_node_start(*self_0),
            self_0.path@,
            RangeKind::Bytes(start, end),
            false,
            (self_0.path@, spec_node_start(*self_0), spec_node_alias(*self_0)),
        ) == (r.path@, spec_node_start(r), spec_node_alias(r)),
        r.tree == self_0.tree,
        node_valid(r),
{
    ts_node__descendant_for_range(self_0, &RangeKind::Bytes(start, end), false)
}

/// The smallest node within a node that spans the points `start..end`.
pub fn ts_node_descendant_for_point_range<'t, 'l>(
    self_0: &TSNode<'t, 'l>,
    start: TSPoint,
    end: TSPoint,
) -> (r: TSNode<'t, 'l>)
    requires
        node_valid(*self_0),
    ensures
        spec_descendant_for_range(
            node_language(*self_0),
            node_view(*self_0),
            spec_node_start(*self_0),
            self_0.path@,
            RangeKind::Points(start, end),
            true,
            (self_0.path@, spec_node_start(*self_0), spec_node_alias(*self_0)),
        ) == (r.path@, spec_node_start(r), spec_node_alias(r)),
        r.tree == self_0.tree,
        node_valid(r),
{
    ts_node__descendant_for_range(self_0, &RangeKind::Points(start, end), true)
}

/// The smallest named node within a node that spans the points `start..end`.
pub fn ts_node_named_descendant_for_point_range<'t, 'l>(
    self_0: &TSNode<'t, 'l>,
    start: TSPoint,
    end: TSPoint,
) -> (r: TSNode<'t, 'l>)
    requires
        node_valid(*self_0),
    ensures
        spec_descendant_for_range(
            node_language(*self_0),
            node_view(*self_0),
            spec_node_start(*self_0),
            self_0.path@,
            RangeKind::Points(start, end),
            false,
            (self_0.path@, spec_node_start(*self_0), spec_node_alias(*self_0)),
        ) == (r.path@, spec_node_start(r), spec_node_alias(r)),
        r.tree == self_0.tree,
        node_valid(r),
{
    ts_node__descendant_for_range(self_0, &RangeKind::Points(start, end), false)
}

/// The search for a node's parent from the node `s`: the descent goes into
/// the first child that starts at or before the target and ends at or after
/// its end, stopping at the target itself or at a child that starts after
/// it; `last` is the last visible node on the way down.
pub open spec fn spec_parent_search(
    l: &TSLanguage,
    s: SubtreeView,
    start: Length,
    path: Seq<u32>,
    target: Seq<u32>,
    target_start: u32,
    target_end: u32,
    last: FoundNode,
) -> FoundNode
    decreases s, 1int, 0int,
{
    match s {
        SubtreeView::Heap(h) => spec_parent_search_from(
            l,
            h.children,
            h.production_id,
            start,
            path,
            0,
            target,
            target_start,
            target_end,
            last,
        ),
        SubtreeView::Inline(_) => last,
    }
}

pub open spec fn spec_parent_search_from(
    l: &TSLanguage,
    cs: Seq<SubtreeView>,
    production_id: u16,
    start: Length,
    path: Seq<u32>,
    i: int,
    target: Seq<u32>,
    target_start: u32,
    target_end: u32,
    last: FoundNode,
) -> FoundNode
    decreases cs, 0int, cs.len() - i,
{
    if i < 0 || i >= cs.len() {
        last
    } else {
        let c = cs[i];
        let c_start = spec_child_start(cs, start, i);
        let alias = spec_child_alias(cs, l, production_id, i);
        if c_start.bytes > target_start || path.push(i as u32) == target {
            last
        } else if !(spec_child_end(cs, start, i).bytes >= target_end) {
            spec_parent_search_from(
                l,
                cs,
                production_id,
                start,
                path,
                i + 1,
                target,
                target_start,
                target_end,
                last,
            )
        } else {
            let child = (path.push(i as u32), c_start, alias);
            spec_parent_search(
                l,
                c,
                c_start,
                path.push(i as u32),
                target,
                target_start,
                target_end,
                if spec_is_relevant(l, c, alias, true) {
                    child
                } else {
                    last
                },
            )
        }
    }
}

fn parent_search<'t, 'l>(
    tree: &'t TSTree<'l>,
    s: &'t Subtree,
    start: Length,
    path: &Vec<u32>,
    target: &Vec<u32>,
    target_start: u32,
    target_end: u32,
    last: (Vec<u32>, Length, u16),
) -> (r: (Vec<u32>, Length, u16))
    requires
        subtree_wf(s@),
        subtree_at(tree.root@, path@) == Some(s@),
        subtree_at(tree.root@, last.0@) is Some,
    ensures
        spec_parent_search(
            tree.language,
            s@,
            start,
            path@,
            target@,
            target_start,
            target_end,
            (last.0@, last.1, last.2),
        ) == (r.0@, r.1, r.2),
        subtree_at(tree.root@, r.0@) is Some,
    decreases s@,
{
    let l = tree.language;
    let n = ts_subtree_child_count(s);
    if n == 0 {
        return last;
    }
    let production_id = production_id_of(s);
    let ghost cs = spec_children(s@);
    let ghost lastv = (last.0@, last.1, last.2);
    let ghost total = spec_parent_search(l, s@, start, path@, target@, target_start, target_end, lastv);
    let mut i: u32 = 0;
    let mut structural: u32 = 0;
    let mut prev_end = start;
    while i < n
        invariant
            i <= n,
            n == cs.len(),
            cs == spec_children(s@),
            subtree_wf(s@),
            subtree_at(tree.root@, path@) == Some(s@),
            subtree_at(tree.root@, last.0@) is Some,
            lastv == (last.0@, last.1, last.2),
            l == tree.language,
            s@ is Heap ==> production_id == s@->Heap_0.production_id,
            structural == spec_structural_index(cs, i as int),
            i > 0 ==> prev_end == spec_child_end(cs, start, i - 1),
            total == spec_parent_search_from(l, cs, production_id, start, path@, i as int, target@, target_start, target_end, lastv),
            total == spec_parent_search(l, s@, start, path@, target@, target_start, target_end, lastv),
        decreases n - i,
    {
        proof {
            lemma_child_facts(s@, i as int);
        }
        let (c, c_start, alias) = child_position(l, s, i, start, prev_end, structural, production_id);
        let child_path = path_push(path, i);
        if c_start.bytes > target_start || same_path(&child_path, target) {
            return last;
        }
        let c_end = length_add(c_start, ts_subtree_size(c));
        if c_end.bytes >= target_end {
            proof {
                lemma_subtree_at_push(tree.root@, path@, s@, i);
            }
            let next_last = if is_relevant(l, c, alias, true) {
                (path_push(path, i), c_start, alias)
            } else {
                last
            };
            return parent_search(tree, c, c_start, &child_path, target, target_start, target_end, next_last);
        }
        if !ts_subtree_extra(c) {
            structural = u32_wrapping_add(structural, 1);
        }
        prev_end = c_end;
        i = i + 1;
    }
    last
}

/// The node's parent, found by a search from the root (see
/// `spec_parent_search`); the null node for the root.
pub fn ts_node_parent<'t, 'l>(self_0: &TSNode<'t, 'l>) -> (r: TSNode<'t, 'l>)
    requires
        node_valid(*self_0),
    ensures
        self_0.path@.len() == 0 ==> r.tree is None,
        self_0.path@.len() > 0 ==> {
            let root = self_0.tree->0.root@;
            &&& spec_parent_search(
                node_language(*self_0),
                root,
                spec_padding(root),
                Seq::empty(),
                self_0.path@,
                spec_node_start(*self_0).bytes,
                spec_node_end_byte(*self_0),
                (Seq::empty(), spec_padding(root), 0),
            ) == (r.path@, spec_node_start(r), spec_node_alias(r))
            &&& r.tree == self_0.tree
            &&& node_valid(r)
        },
{
    let tree = self_0.tree.unwrap();
    if self_0.path.len() == 0 {
        return ts_node_null();
    }
    let end_byte = ts_node_end_byte(self_0);
    let root_start = ts_subtree_padding(&tree.root);
    let root_path: Vec<u32> = Vec::new();
    proof {
        assert(subtree_at(tree.root@, root_path@) == Some(tree.root@));
    }
    let (p, st, a) = parent_search(
        tree,
        &tree.root,
        root_start,
        &root_path,
        &self_0.path,
        ts_node_start_byte(self_0),
        end_byte,
        (Vec::new(), root_start, 0),
    );
    ts_node_new(tree, p, st, a)
}

} // verus!
