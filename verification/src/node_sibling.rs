use vstd::prelude::*;

use crate::language::TSLanguage;
use crate::length::{length_add, u32_wrapping_add, Length};
use crate::node::{
    child_position, clone_path, found_node, is_relevant, lemma_child_facts, lemma_node_valid_wf,
    lemma_subtree_at_push, node_language, node_valid, node_view, path_push, production_id_of,
    same_path, spec_child_alias, spec_child_end, spec_child_start, spec_is_relevant,
    spec_node_alias, spec_node_end_byte, spec_node_start, spec_parent_search,
    spec_relevant_child_count, spec_structural_index, ts_node_end_byte, ts_node_new,
    ts_node_null, ts_node_parent, ts_node_start_byte, ts_node_start_point, ts_node_subtree,
    FoundNode, TSNode,
};
use crate::subtree::{
    spec_children, spec_padding, spec_total_size, subtree_wf, ts_subtree_child,
    ts_subtree_child_count, ts_subtree_extra, ts_subtree_named_child_count, ts_subtree_size,
    ts_subtree_total_bytes, ts_subtree_visible_child_count, Subtree, SubtreeView,
};
use crate::tree::{subtree_at, TSTree};

verus! {

/// Whether the node at `target` is reached from the node `s` (at `path`)
/// through its trailing children of no bytes at all: they are tried from the
/// last child back, until one takes bytes.
pub open spec fn spec_trailing_empty(s: SubtreeView, path: Seq<u32>, target: Seq<u32>) -> bool
    decreases s, 1int, 0int,
{
    match s {
        SubtreeView::Heap(h) => spec_trailing_empty_from(h.children, path, h.children.len() - 1, target),
        SubtreeView::Inline(_) => false,
    }
}

pub open spec fn spec_trailing_empty_from(cs: Seq<SubtreeView>, path: Seq<u32>, j: int, target: Seq<u32>) -> bool
    decreases cs, 0int, j + 1,
{
    if j < 0 || j >= cs.len() {
        false
    } else if spec_total_size(cs[j]).bytes > 0 {
        false
    } else if path.push(j as u32) == target || spec_trailing_empty(cs[j], path.push(j as u32), target) {
        true
    } else {
        spec_trailing_empty_from(cs, path, j - 1, target)
    }
}

/// One look at the children of a node on the way to the previous sibling of
/// the node at `target` (ending at `target_end`): the child that holds the
/// target's end, if the look stops at one, and the last child before it that
/// shows or has shown children, with whether it shows. The look stops at the
/// target itself, or at the first child that ends after the target's end, or
/// at its end when the target takes no bytes or that child ends in trailing
/// empty children that lead to the target.
pub open spec fn spec_prev_scan_from(
    l: &TSLanguage,
    cs: Seq<SubtreeView>,
    production_id: u16,
    start: Length,
    path: Seq<u32>,
    i: int,
    target: Seq<u32>,
    target_end: u32,
    target_empty: bool,
    include_anonymous: bool,
    candidate: Option<FoundNode>,
    candidate_relevant: bool,
) -> (Option<FoundNode>, Option<FoundNode>, bool)
    decreases cs.len() - i,
{
    if i < 0 || i >= cs.len() {
        (None, candidate, candidate_relevant)
    } else {
        let c = cs[i];
        let c_path = path.push(i as u32);
        let alias = spec_child_alias(cs, l, production_id, i);
        let child = (c_path, spec_child_start(cs, start, i), alias);
        let end = spec_child_end(cs, start, i).bytes;
        if c_path == target {
            (None, candidate, candidate_relevant)
        } else if end > target_end || (end == target_end && (!target_empty || spec_trailing_empty(
            c,
            c_path,
            target,
        ))) {
            (Some(child), candidate, candidate_relevant)
        } else if spec_is_relevant(l, c, alias, include_anonymous) {
            spec_prev_scan_from(
                l,
                cs,
                production_id,
                start,
                path,
                i + 1,
                target,
                target_end,
                target_empty,
                include_anonymous,
                Some(child),
                true,
            )
        } else if spec_relevant_child_count(c, include_anonymous) > 0 {
            spec_prev_scan_from(
                l,
                cs,
                production_id,
                start,
                path,
                i + 1,
                target,
                target_end,
                target_empty,
                include_anonymous,
                Some(child),
                false,
            )
        } else {
            spec_prev_scan_from(
                l,
                cs,
                production_id,
                start,
                path,
                i + 1,
                target,
                target_end,
                target_empty,
                include_anonymous,
                candidate,
                candidate_relevant,
            )
        }
    }
}

/// One look at the children of a node on the way to the next sibling of the
/// node at `target` (from `target_start` to `target_end`): the last child
/// other than the target that reaches the target's end without starting after
/// it, and the first child after that which starts after the target and shows
/// or has shown children, with whether it shows.
pub open spec fn spec_next_scan_from(
    l: &TSLanguage,
    cs: Seq<SubtreeView>,
    production_id: u16,
    start: Length,
    path: Seq<u32>,
    i: int,
    target: Seq<u32>,
    target_start: u32,
    target_end: u32,
    include_anonymous: bool,
    containing: Option<FoundNode>,
) -> (Option<FoundNode>, Option<FoundNode>, bool)
    decreases cs.len() - i,
{
    if i < 0 || i >= cs.len() {
        (containing, None, false)
    } else {
        let c = cs[i];
        let c_path = path.push(i as u32);
        let c_start = spec_child_start(cs, start, i);
        let alias = spec_child_alias(cs, l, production_id, i);
        let child = (c_path, c_start, alias);
        if spec_child_end(cs, start, i).bytes < target_end {
            spec_next_scan_from(
                l,
                cs,
                production_id,
                start,
                path,
                i + 1,
                target,
                target_start,
                target_end,
                include_anonymous,
                containing,
            )
        } else if c_start.bytes <= target_start {
            spec_next_scan_from(
                l,
                cs,
                production_id,
                start,
                path,
                i + 1,
                target,
                target_start,
                target_end,
                include_anonymous,
                if c_path != target {
                    Some(child)
                } else {
                    containing
                },
            )
        } else if spec_is_relevant(l, c, alias, include_anonymous) {
            (containing, Some(child), true)
        } else if spec_relevant_child_count(c, include_anonymous) > 0 {
            (containing, Some(child), false)
        } else {
            spec_next_scan_from(
                l,
                cs,
                production_id,
                start,
                path,
                i + 1,
                target,
                target_start,
                target_end,
                include_anonymous,
                containing,
            )
        }
    }
}

/// One look at the children of the node `s` (at `start`, reached by `path`),
/// backward (`forward` false) or forward.
pub open spec fn spec_sibling_scan(
    l: &TSLanguage,
    s: SubtreeView,
    start: Length,
    path: Seq<u32>,
    target: Seq<u32>,
    target_start: u32,
    target_end: u32,
    target_empty: bool,
    include_anonymous: bool,
    forward: bool,
) -> (Option<FoundNode>, Option<FoundNode>, bool) {
    match s {
        SubtreeView::Heap(h) => if forward {
            spec_next_scan_from(
                l,
                h.children,
                h.production_id,
                start,
                path,
                0,
                target,
                target_start,
                target_end,
                include_anonymous,
                None,
            )
        } else {
            spec_prev_scan_from(
                l,
                h.children,
                h.production_id,
                start,
                path,
                0,
                target,
                target_end,
                target_empty,
                include_anonymous,
                None,
                false,
            )
        },
        SubtreeView::Inline(_) => (None, None, false),
    }
}

/// Where a walk to a sibling stands: the node it looks into, the best node
/// set aside on an earlier level (with whether it shows), and whether that
/// node was set aside since the walk last went back to one.
pub struct SiblingWalk {
    pub node: Option<FoundNode>,
    pub other: Option<FoundNode>,
    pub other_relevant: bool,
    pub fresh: bool,
}

/// A walk goes on, or it is over with its answer.
pub enum WalkOutcome {
    Walking(SiblingWalk),
    Done(Option<FoundNode>),
}

/// One round of a walk to a sibling: it looks at the children of its node.
/// When the look stops at a child that holds the target, the walk goes into
/// it, setting aside the candidate found before it. Else a shown candidate is
/// the answer, and a candidate with shown children is looked into; else the
/// node set aside is the answer if it shows, and is looked into if not, unless
/// the walk already went back to it (it would then go round for ever: the
/// answer is none).
pub open spec fn spec_sibling_step(
    l: &TSLanguage,
    root: SubtreeView,
    target: Seq<u32>,
    target_start: u32,
    target_end: u32,
    target_empty: bool,
    include_anonymous: bool,
    forward: bool,
    w: SiblingWalk,
) -> WalkOutcome {
    match w.node {
        None => WalkOutcome::Done(None),
        Some(n) => {
            let (containing, candidate, candidate_relevant) = match subtree_at(root, n.0) {
                Some(s) => spec_sibling_scan(
                    l,
                    s,
                    n.1,
                    n.0,
                    target,
                    target_start,
                    target_end,
                    target_empty,
                    include_anonymous,
                    forward,
                ),
                None => (None, None, false),
            };
            match containing {
                Some(c) => WalkOutcome::Walking(
                    if candidate is Some {
                        SiblingWalk {
                            node: Some(c),
                            other: candidate,
                            other_relevant: candidate_relevant,
                            fresh: true,
                        }
                    } else {
                        SiblingWalk { node: Some(c), ..w }
                    },
                ),
                None => if candidate_relevant {
                    WalkOutcome::Done(candidate)
                } else if candidate is Some {
                    WalkOutcome::Walking(SiblingWalk { node: candidate, ..w })
                } else if w.other_relevant {
                    WalkOutcome::Done(w.other)
                } else if w.other is Some && !w.fresh {
                    WalkOutcome::Done(None)
                } else {
                    WalkOutcome::Walking(SiblingWalk { node: w.other, fresh: false, ..w })
                },
            }
        },
    }
}

/// The walk after `steps` rounds, or its answer if it ended before.
pub open spec fn spec_sibling_run(
    l: &TSLanguage,
    root: SubtreeView,
    target: Seq<u32>,
    target_start: u32,
    target_end: u32,
    target_empty: bool,
    include_anonymous: bool,
    forward: bool,
    w: SiblingWalk,
    steps: nat,
) -> WalkOutcome
    decreases steps,
{
    if steps == 0 {
        WalkOutcome::Walking(w)
    } else {
        match spec_sibling_step(
            l,
            root,
            target,
            target_start,
            target_end,
            target_empty,
            include_anonymous,
            forward,
            w,
        ) {
            WalkOutcome::Done(r) => WalkOutcome::Done(r),
            WalkOutcome::Walking(next) => spec_sibling_run(
                l,
                root,
                target,
                target_start,
                target_end,
                target_empty,
                include_anonymous,
                forward,
                next,
                (steps - 1) as nat,
            ),
        }
    }
}

/// A node by its path, start and alias; none for the null node.
pub open spec fn node_found(n: TSNode) -> Option<FoundNode> {
    if n.tree is Some {
        Some((n.path@, spec_node_start(n), spec_node_alias(n)))
    } else {
        None
    }
}

/// The parent of a node, as `ts_node_parent` finds it.
pub open spec fn spec_parent_found(n: TSNode) -> Option<FoundNode> {
    if n.path@.len() == 0 {
        None
    } else {
        let root = n.tree->0.root@;
        Some(
            spec_parent_search(
                node_language(n),
                root,
                spec_padding(root),
                Seq::empty(),
                n.path@,
                spec_node_start(n).bytes,
                spec_node_end_byte(n),
                (Seq::empty(), spec_padding(root), 0),
            ),
        )
    }
}

/// The walk to a sibling of the node `n` after `steps` rounds: it starts at
/// the node's parent, with nothing set aside.
pub open spec fn spec_sibling_walk(n: TSNode, include_anonymous: bool, forward: bool, steps: nat) -> WalkOutcome {
    spec_sibling_run(
        node_language(n),
        n.tree->0.root@,
        n.path@,
        spec_node_start(n).bytes,
        spec_node_end_byte(n),
        spec_total_size(node_view(n)).bytes == 0,
        include_anonymous,
        forward,
        SiblingWalk { node: spec_parent_found(n), other: None, other_relevant: false, fresh: false },
        steps,
    )
}

/// A walk that has ended has one answer, however many rounds are counted.
pub proof fn lemma_sibling_run_one_answer(
    l: &TSLanguage,
    root: SubtreeView,
    target: Seq<u32>,
    target_start: u32,
    target_end: u32,
    target_empty: bool,
    include_anonymous: bool,
    forward: bool,
    w: SiblingWalk,
    n1: nat,
    n2: nat,
    a: Option<FoundNode>,
    b: Option<FoundNode>,
)
    requires
        spec_sibling_run(l, root, target, target_start, target_end, target_empty, include_anonymous, forward, w, n1)
            == WalkOutcome::Done(a),
        spec_sibling_run(l, root, target, target_start, target_end, target_empty, include_anonymous, forward, w, n2)
            == WalkOutcome::Done(b),
    ensures
        a == b,
    decreases n1,
{
    if n1 > 0 && n2 > 0 {
        match spec_sibling_step(l, root, target, target_start, target_end, target_empty, include_anonymous, forward, w) {
            WalkOutcome::Done(r) => {},
            WalkOutcome::Walking(next) => {
                lemma_sibling_run_one_answer(
                    l,
                    root,
                    target,
                    target_start,
                    target_end,
                    target_empty,
                    include_anonymous,
                    forward,
                    next,
                    (n1 - 1) as nat,
                    (n2 - 1) as nat,
                    a,
                    b,
                );
            },
        }
    }
}

/// One more round of a walk that is still going.
proof fn lemma_sibling_run_extend(
    l: &TSLanguage,
    root: SubtreeView,
    target: Seq<u32>,
    target_start: u32,
    target_end: u32,
    target_empty: bool,
    include_anonymous: bool,
    forward: bool,
    w0: SiblingWalk,
    steps: nat,
    w: SiblingWalk,
)
    requires
        spec_sibling_run(l, root, target, target_start, target_end, target_empty, include_anonymous, forward, w0, steps)
            == WalkOutcome::Walking(w),
    ensures
        spec_sibling_run(
            l,
            root,
            target,
            target_start,
            target_end,
            target_empty,
            include_anonymous,
            forward,
            w0,
            steps + 1,
        ) == spec_sibling_step(l, root, target, target_start, target_end, target_empty, include_anonymous, forward, w),
    decreases steps,
{
    if steps > 0 {
        match spec_sibling_step(l, root, target, target_start, target_end, target_empty, include_anonymous, forward, w0) {
            WalkOutcome::Done(r) => {},
            WalkOutcome::Walking(next) => {
                lemma_sibling_run_extend(
                    l,
                    root,
                    target,
                    target_start,
                    target_end,
                    target_empty,
                    include_anonymous,
                    forward,
                    next,
                    (steps - 1) as nat,
                    w,
                );
            },
        }
    } else {
        match spec_sibling_step(l, root, target, target_start, target_end, target_empty, include_anonymous, forward, w) {
            WalkOutcome::Done(r) => {},
            WalkOutcome::Walking(next) => {
                assert(spec_sibling_run(l, root, target, target_start, target_end, target_empty, include_anonymous, forward, next, 0)
                    == WalkOutcome::Walking(next));
            },
        }
    }
}


/// A found node held in the library's own types, by its view.
pub open spec fn found_view(o: Option<(Vec<u32>, Length, u16)>) -> Option<FoundNode> {
    match o {
        Some((p, st, a)) => Some((p@, st, a)),
        None => None,
    }
}

/// A node below `s`: its path leads to a subtree of the tree that `s` holds.
pub open spec fn found_below(root: SubtreeView, s: SubtreeView, o: Option<(Vec<u32>, Length, u16)>) -> bool {
    match o {
        Some((p, st, a)) => subtree_at(root, p@) is Some && decreases_to!(s => subtree_at(root, p@)->0),
        None => true,
    }
}

fn relevant_child_count(c: &Subtree, include_anonymous: bool) -> (n: u32)
    requires
        subtree_wf(c@),
    ensures
        n == spec_relevant_child_count(c@, include_anonymous),
{
    if ts_subtree_child_count(c) > 0 {
        if include_anonymous {
            ts_subtree_visible_child_count(c)
        } else {
            ts_subtree_named_child_count(c)
        }
    } else {
        0
    }
}

fn ts_subtree_has_trailing_empty_descendant(s: &Subtree, path: &Vec<u32>, target: &Vec<u32>) -> (r: bool)
    requires
        subtree_wf(s@),
    ensures
        r == spec_trailing_empty(s@, path@, target@),
    decreases s@,
{
    let n = ts_subtree_child_count(s);
    if n == 0 {
        return false;
    }
    let ghost cs = spec_children(s@);
    let mut j: u32 = n;
    while j > 0
        invariant
            j <= n,
            n == cs.len(),
            cs == spec_children(s@),
            s@ is Heap,
            subtree_wf(s@),
            spec_trailing_empty(s@, path@, target@) == spec_trailing_empty_from(cs, path@, j - 1, target@),
        decreases j,
    {
        let k = j - 1;
        proof {
            lemma_child_facts(s@, k as int);
        }
        let c = ts_subtree_child(s, k as usize);
        if ts_subtree_total_bytes(c) > 0 {
            return false;
        }
        let child_path = path_push(path, k);
        if same_path(&child_path, target) || ts_subtree_has_trailing_empty_descendant(c, &child_path, target) {
            return true;
        }
        j = k;
    }
    false
}

fn sibling_scan<'t, 'l>(
    tree: &'t TSTree<'l>,
    s: &'t Subtree,
    start: Length,
    path: &Vec<u32>,
    target: &Vec<u32>,
    target_start: u32,
    target_end: u32,
    target_empty: bool,
    include_anonymous: bool,
    forward: bool,
) -> (r: (Option<(Vec<u32>, Length, u16)>, Option<(Vec<u32>, Length, u16)>, bool))
    requires
        subtree_wf(s@),
        subtree_at(tree.root@, path@) == Some(s@),
    ensures
        spec_sibling_scan(
            tree.language,
            s@,
            start,
            path@,
            target@,
            target_start,
            target_end,
            target_empty,
            include_anonymous,
            forward,
        ) == (found_view(r.0), found_view(r.1), r.2),
        found_below(tree.root@, s@, r.0),
        found_below(tree.root@, s@, r.1),
{
    let l = tree.language;
    let n = ts_subtree_child_count(s);
    if n == 0 {
        return (None, None, false);
    }
    let production_id = production_id_of(s);
    let ghost cs = spec_children(s@);
    let ghost total = spec_sibling_scan(
        l,
        s@,
        start,
        path@,
        target@,
        target_start,
        target_end,
        target_empty,
        include_anonymous,
        forward,
    );
    let mut held: Option<(Vec<u32>, Length, u16)> = None;
    let mut held_relevant = false;
    let mut i: u32 = 0;
    let mut structural: u32 = 0;
    let mut prev_end = start;
    while i < n
        invariant
            i <= n,
            n == cs.len(),
            cs == spec_children(s@),
            s@ is Heap,
            subtree_wf(s@),
            subtree_at(tree.root@, path@) == Some(s@),
            l == tree.language,
            production_id == s@->Heap_0.production_id,
            structural == spec_structural_index(cs, i as int),
            i > 0 ==> prev_end == spec_child_end(cs, start, i - 1),
            forward ==> !held_relevant,
            forward ==> total == spec_next_scan_from(l, cs, production_id, start, path@, i as int, target@, target_start, target_end, include_anonymous, found_view(held)),
            !forward ==> total == spec_prev_scan_from(l, cs, production_id, start, path@, i as int, target@, target_end, target_empty, include_anonymous, found_view(held), held_relevant),
            found_below(tree.root@, s@, held),
            total == spec_sibling_scan(l, s@, start, path@, target@, target_start, target_end, target_empty, include_anonymous, forward),
        decreases n - i,
    {
        proof {
            lemma_child_facts(s@, i as int);
            lemma_subtree_at_push(tree.root@, path@, s@, i);
        }
        let (c, c_start, alias) = child_position(l, s, i, start, prev_end, structural, production_id);
        let c_end = length_add(c_start, ts_subtree_size(c));
        let child_path = path_push(path, i);
        if forward {
            if c_end.bytes >= target_end {
                if c_start.bytes <= target_start {
                    if !same_path(&child_path, target) {
                        held = Some((child_path, c_start, alias));
                    }
                } else if is_relevant(l, c, alias, include_anonymous) {
                    return (held, Some((child_path, c_start, alias)), true);
                } else if relevant_child_count(c, include_anonymous) > 0 {
                    return (held, Some((child_path, c_start, alias)), false);
                }
            }
        } else {
            if same_path(&child_path, target) {
                return (None, held, held_relevant);
            }
            if c_end.bytes > target_end || (c_end.bytes == target_end && (!target_empty || ts_subtree_has_trailing_empty_descendant(
                c,
                &child_path,
                target,
            ))) {
                return (Some((child_path, c_start, alias)), held, held_relevant);
            }
            if is_relevant(l, c, alias, include_anonymous) {
                held = Some((child_path, c_start, alias));
                held_relevant = true;
            } else if relevant_child_count(c, include_anonymous) > 0 {
                held = Some((child_path, c_start, alias));
                held_relevant = false;
            }
        }
        if !ts_subtree_extra(c) {
            structural = u32_wrapping_add(structural, 1);
        }
        prev_end = c_end;
        i = i + 1;
    }
    if forward {
        (held, None, false)
    } else {
        (None, held, held_relevant)
    }
}

/// The walk of the sibling functions (see `spec_sibling_step`).
fn sibling_walk<'t, 'l>(self_0: &TSNode<'t, 'l>, include_anonymous: bool, forward: bool) -> (r: TSNode<'t, 'l>)
    requires
        node_valid(*self_0),
    ensures
        exists|steps: nat|
            spec_sibling_walk(*self_0, include_anonymous, forward, steps) == WalkOutcome::Done(node_found(r)),
        r.tree is Some ==> r.tree == self_0.tree && node_valid(r),
{
    let tree = self_0.tree.unwrap();
    let ghost l = tree.language;
    let ghost root = tree.root@;
    let self_sub = ts_node_subtree(self_0);
    let target_empty = ts_subtree_total_bytes(self_sub) == 0;
    let target_start = ts_node_start_byte(self_0);
    let target_end = ts_node_end_byte(self_0);
    let mut node = ts_node_parent(self_0);
    let mut other = ts_node_null();
    let mut other_relevant = false;
    let mut fresh = false;
    let ghost w0 = SiblingWalk {
        node: spec_parent_found(*self_0),
        other: None,
        other_relevant: false,
        fresh: false,
    };
    let ghost mut anchor: Seq<u32> = node.path@;
    let ghost mut steps: nat = 0;
    proof {
        assert(node_found(node) == spec_parent_found(*self_0));
    }
    loop
        invariant
            node_valid(*self_0),
            self_0.tree == Some(tree),
            l == tree.language,
            root == tree.root@,
            w0 == (SiblingWalk {
                node: spec_parent_found(*self_0),
                other: None,
                other_relevant: false,
                fresh: false,
            }),
            target_empty == (spec_total_size(node_view(*self_0)).bytes == 0),
            target_start == spec_node_start(*self_0).bytes,
            target_end == spec_node_end_byte(*self_0),
            node.tree is Some ==> node.tree == Some(tree) && node_valid(node),
            other.tree is Some ==> other.tree == Some(tree) && node_valid(other),
            node.tree is Some ==> subtree_at(root, anchor) is Some && (node.path@ == anchor
                || decreases_to!(subtree_at(root, anchor)->0 => node_view(node))),
            fresh && other.tree is Some ==> subtree_at(root, anchor) is Some && decreases_to!(
                subtree_at(root, anchor)->0 => node_view(other)),
            spec_sibling_walk(*self_0, include_anonymous, forward, steps) == WalkOutcome::Walking(
                SiblingWalk { node: node_found(node), other: node_found(other), other_relevant, fresh },
            ),
        decreases subtree_at(root, anchor)->0, node_view(node),
    {
        let ghost cur = SiblingWalk { node: node_found(node), other: node_found(other), other_relevant, fresh };
        proof {
            lemma_sibling_run_extend(
                l,
                root,
                self_0.path@,
                target_start,
                target_end,
                target_empty,
                include_anonymous,
                forward,
                w0,
                steps,
                cur,
            );
        }
        if node.tree.is_none() {
            let r = ts_node_null();
            proof {
                assert(spec_sibling_walk(*self_0, include_anonymous, forward, steps + 1) == WalkOutcome::Done(
                    node_found(r),
                ));
            }
            return r;
        }
        let s = ts_node_subtree(&node);
        let start = Length { bytes: ts_node_start_byte(&node), extent: ts_node_start_point(&node) };
        let (containing, candidate, candidate_relevant) = sibling_scan(
            tree,
            s,
            start,
            &node.path,
            &self_0.path,
            target_start,
            target_end,
            target_empty,
            include_anonymous,
            forward,
        );
        let ghost node_sub = node_view(node);
        let ghost anchor_sub = subtree_at(root, anchor)->0;
        match containing {
            Some((p, st, a)) => {
                if candidate.is_some() {
                    other = found_node(tree, candidate);
                    other_relevant = candidate_relevant;
                    fresh = true;
                }
                node = ts_node_new(tree, p, st, a);
            },
            None => {
                if candidate_relevant {
                    return found_node(tree, candidate);
                }
                if candidate.is_some() {
                    node = found_node(tree, candidate);
                } else if other_relevant {
                    return other;
                } else if other.tree.is_some() && !fresh {
                    return ts_node_null();
                } else if other.tree.is_none() {
                    let ghost next = SiblingWalk { node: None, fresh: false, ..cur };
                    proof {
                        lemma_sibling_run_extend(
                            l,
                            root,
                            self_0.path@,
                            target_start,
                            target_end,
                            target_empty,
                            include_anonymous,
                            forward,
                            w0,
                            steps + 1,
                            next,
                        );
                    }
                    let r = ts_node_null();
                    proof {
                        assert(spec_sibling_walk(*self_0, include_anonymous, forward, steps + 2) == WalkOutcome::Done(
                            node_found(r),
                        ));
                    }
                    return r;
                } else {
                    node = TSNode { context: other.context, path: clone_path(&other.path), tree: other.tree };
                    fresh = false;
                    proof {
                        anchor = other.path@;
                    }
                }
            },
        }
        proof {
            steps = steps + 1;
        }
    }
}

/// The next sibling of a node that shows in the tree, found by the walk of
/// `spec_sibling_step` from the node's parent, or the null node.
pub fn ts_node_next_sibling<'t, 'l>(self_0: &TSNode<'t, 'l>) -> (r: TSNode<'t, 'l>)
    requires
        node_valid(*self_0),
    ensures
        exists|steps: nat| spec_sibling_walk(*self_0, true, true, steps) == WalkOutcome::Done(node_found(r)),
        r.tree is Some ==> r.tree == self_0.tree && node_valid(r),
{
    sibling_walk(self_0, true, true)
}

/// The next named sibling of a node, or the null node.
pub fn ts_node_next_named_sibling<'t, 'l>(self_0: &TSNode<'t, 'l>) -> (r: TSNode<'t, 'l>)
    requires
        node_valid(*self_0),
    ensures
        exists|steps: nat| spec_sibling_walk(*self_0, false, true, steps) == WalkOutcome::Done(node_found(r)),
        r.tree is Some ==> r.tree == self_0.tree && node_valid(r),
{
    sibling_walk(self_0, false, true)
}

/// The previous sibling of a node that shows in the tree, or the null node.
pub fn ts_node_prev_sibling<'t, 'l>(self_0: &TSNode<'t, 'l>) -> (r: TSNode<'t, 'l>)
    requires
        node_valid(*self_0),
    ensures
        exists|steps: nat| spec_sibling_walk(*self_0, true, false, steps) == WalkOutcome::Done(node_found(r)),
        r.tree is Some ==> r.tree == self_0.tree && node_valid(r),
{
    sibling_walk(self_0, true, false)
}

/// The previous named sibling of a node, or the null node.
pub fn ts_node_prev_named_sibling<'t, 'l>(self_0: &TSNode<'t, 'l>) -> (r: TSNode<'t, 'l>)
    requires
        node_valid(*self_0),
    ensures
        exists|steps: nat| spec_sibling_walk(*self_0, false, false, steps) == WalkOutcome::Done(node_found(r)),
        r.tree is Some ==> r.tree == self_0.tree && node_valid(r),
{
    sibling_walk(self_0, false, false)
}

} // verus!
