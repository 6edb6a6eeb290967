use vstd::prelude::*;

use crate::array::{array__delete, array__erase, array__reserve, array_push, VoidArray};
use crate::length::TSPoint;
use crate::node::{spec_node_start, ts_node_start_byte, TSNode};
use crate::query::{
    capture_list_pool_acquire, capture_list_pool_delete, capture_list_pool_new,
    capture_list_pool_release, capture_list_pool_reset, is_free, lemma_acquire_keeps_others,
    capture_list_pool_is_empty,
    ts_query__pattern_map_search, QueryStep, pattern_map_sorted, spec_entry_symbol, is_lower_bound,
    lemma_release_keeps_others, spec_bitmask_for_index, CaptureListPool, PatternEntry, TSQuery,
    MAX_STATE_COUNT, NONE, NAMED_WILDCARD_SYMBOL, PATTERN_DONE_MARKER, WILDCARD_SYMBOL,
};
use crate::query_parse::query_wf;
use crate::tree_cursor::{
    spec_next_sibling, spec_shown_step, spec_first_child_steps, spec_status_from, spec_current_alias,
    cursor_wf, lemma_next_sibling_walk, spec_walk_left, stack_view, ts_tree_cursor_current_node,
    ts_tree_cursor_current_status, ts_tree_cursor_delete, ts_tree_cursor_goto_first_child,
    ts_tree_cursor_goto_next_sibling, ts_tree_cursor_goto_parent, ts_tree_cursor_new, TreeCursor,
};
use crate::length::{point_lte, spec_point_add, spec_point_lte, wadd};
use crate::subtree::{spec_named, spec_size, spec_symbol};
use crate::language::{spec_public_symbol, spec_symbol_metadata};
use crate::node::{ts_node_end_byte, ts_node_end_point, ts_node_is_named, ts_node_start_point, ts_node_symbol};

verus! {

/// A captured node, with the id of the capture's name.
pub struct TSQueryCapture<'t, 'l> {
    pub node: TSNode<'t, 'l>,
    pub index: u32,
}

/// A match found by a query cursor: its id, its pattern and its captures.
pub struct TSQueryMatch<'t, 'l> {
    pub id: u32,
    pub pattern_index: u16,
    pub capture_count: u16,
    pub captures: TSQueryCaptureArray<'t, 'l>,
}

/// A list of captures, as a capture list of the pool holds them.
pub type TSQueryCaptureArray<'t, 'l> = Vec<TSQueryCapture<'t, 'l>>;

/// A pattern in progress, or finished: the depth its first node was found
/// at, its pattern, its next step, its capture list and how many captures
/// it has and has handed out, and its id once finished.
#[derive(Copy, Clone, Debug, PartialEq, Eq, Structural)]
pub struct QueryState {
    pub start_depth: u16,
    pub pattern_index: u16,
    pub step_index: u16,
    pub capture_count: u16,
    pub capture_list_id: u16,
    pub consumed_capture_count: u16,
    pub id: u32,
}

pub type TSQueryCursorStates = VoidArray<QueryState>;

pub type TsQueryCursorFinishedStated = VoidArray<QueryState>;

/// The state of running a query over a tree: the query, a cursor walking the
/// tree and how deep it is, the patterns in progress and those finished, the
/// pool of their capture lists, and the range of the tree to look in.
pub struct TSQueryCursor<'q, 't, 'l> {
    pub query: Option<&'q TSQuery<'l>>,
    pub cursor: Option<TreeCursor<'t, 'l>>,
    pub states: TSQueryCursorStates,
    pub finished_states: TsQueryCursorFinishedStated,
    pub capture_list_pool: CaptureListPool<TSQueryCapture<'t, 'l>>,
    pub depth: u32,
    pub start_byte: u32,
    pub end_byte: u32,
    pub next_state_id: u32,
    pub start_point: TSPoint,
    pub end_point: TSPoint,
    pub ascending: bool,
}

// ---------------------------------------------------------------------------
// Which capture list each state holds.
// ---------------------------------------------------------------------------

/// No two states hold the same capture list.
pub open spec fn ids_distinct(s: Seq<QueryState>) -> bool {
    forall|i: int, j: int|
        0 <= i < j < s.len() ==> (#[trigger] s[i]).capture_list_id != (#[trigger] s[j]).capture_list_id
}

/// A state holds a list of the pool: one in use, as long as its captures.
pub open spec fn holds_list(s: QueryState, map: u32, lists: Seq<Vec<TSQueryCapture>>) -> bool {
    &&& s.capture_list_id < 32
    &&& !is_free(map, s.capture_list_id)
    &&& lists[s.capture_list_id as int]@.len() == s.capture_count
}

/// Each state holds its own list of the pool.
pub open spec fn states_hold_lists(s: Seq<QueryState>, map: u32, lists: Seq<Vec<TSQueryCapture>>) -> bool {
    &&& ids_distinct(s)
    &&& forall|i: int| 0 <= i < s.len() ==> holds_list(#[trigger] s[i], map, lists)
}

/// Every state of a cursor, in progress then finished.
pub open spec fn all_states(c: TSQueryCursor) -> Seq<QueryState> {
    c.states.contents@ + c.finished_states.contents@
}

/// A cursor that runs a query: it has a query and a tree cursor, both well
/// formed; each state holds its own capture list; and each state in progress
/// is at a step of the query.
pub open spec fn query_cursor_wf(c: TSQueryCursor) -> bool {
    &&& c.query is Some
    &&& c.cursor is Some
    &&& query_wf(*c.query->0)
    &&& cursor_wf(c.cursor->0)
    &&& c.states.wf()
    &&& c.finished_states.wf()
    &&& c.capture_list_pool.list@.len() == 32
    &&& states_hold_lists(all_states(c), c.capture_list_pool.usage_map, c.capture_list_pool.list@)
    &&& forall|i: int|
        0 <= i < c.states.contents@.len() ==> (#[trigger] c.states.contents@[i]).step_index
            < (c.query->0).steps.contents@.len()
}

/// Distinct ids below `n` are at most `n`.
proof fn lemma_distinct_below(s: Seq<QueryState>, n: nat)
    requires
        ids_distinct(s),
        forall|i: int| 0 <= i < s.len() ==> (#[trigger] s[i]).capture_list_id < n,
    ensures
        s.len() <= n,
    decreases n,
{
    if n == 0 {
        if s.len() > 0 {
            assert(s[0].capture_list_id < n);
        }
    } else {
        let top = (n - 1) as u16;
        if exists|k: int| 0 <= k < s.len() && (#[trigger] s[k]).capture_list_id == n - 1 {
            let k = choose|k: int| 0 <= k < s.len() && (#[trigger] s[k]).capture_list_id == n - 1;
            let r = s.remove(k);
            assert forall|i: int| 0 <= i < r.len() implies (#[trigger] r[i]).capture_list_id < (n - 1) as nat by {
                if i < k {
                    assert(r[i] == s[i]);
                } else {
                    assert(r[i] == s[i + 1]);
                }
            }
            assert forall|i: int, j: int| 0 <= i < j < r.len() implies (#[trigger] r[i]).capture_list_id
                != (#[trigger] r[j]).capture_list_id by {
                let a = if i < k { i } else { i + 1 };
                let b = if j < k { j } else { j + 1 };
                assert(r[i] == s[a] && r[j] == s[b]);
            }
            lemma_distinct_below(r, (n - 1) as nat);
        } else {
            assert forall|i: int| 0 <= i < s.len() implies (#[trigger] s[i]).capture_list_id < (n - 1) as nat by {
                assert(s[i].capture_list_id < n);
            }
            lemma_distinct_below(s, (n - 1) as nat);
        }
    }
}

/// Where a list is free, the states that hold lists are fewer than the
/// lists.
proof fn lemma_states_fewer(s: Seq<QueryState>, map: u32, lists: Seq<Vec<TSQueryCapture>>, free: u16)
    requires
        states_hold_lists(s, map, lists),
        free < 32,
        is_free(map, free),
    ensures
        s.len() < 32,
{
    let t = s.push(QueryState {
        start_depth: 0,
        pattern_index: 0,
        step_index: 0,
        capture_count: 0,
        capture_list_id: free,
        consumed_capture_count: 0,
        id: 0,
    });
    assert forall|i: int, j: int| 0 <= i < j < t.len() implies (#[trigger] t[i]).capture_list_id
        != (#[trigger] t[j]).capture_list_id by {
        if j == s.len() {
            assert(holds_list(s[i], map, lists));
        } else {
            assert(t[i] == s[i] && t[j] == s[j]);
        }
    }
    assert forall|i: int| 0 <= i < t.len() implies (#[trigger] t[i]).capture_list_id < 32nat by {
        if i < s.len() {
            assert(holds_list(s[i], map, lists));
        }
    }
    lemma_distinct_below(t, 32);
}

/// The states that hold lists are at most as many as the lists.
proof fn lemma_states_at_most(s: Seq<QueryState>, map: u32, lists: Seq<Vec<TSQueryCapture>>)
    requires
        states_hold_lists(s, map, lists),
    ensures
        s.len() <= 32,
{
    assert forall|i: int| 0 <= i < s.len() implies (#[trigger] s[i]).capture_list_id < 32nat by {
        assert(holds_list(s[i], map, lists));
    }
    lemma_distinct_below(s, 32);
}

/// Dropping a state, and giving back its list or not, leaves the others
/// holding theirs.
proof fn lemma_hold_remove(
    s: Seq<QueryState>,
    map: u32,
    lists: Seq<Vec<TSQueryCapture>>,
    i: int,
    new_map: u32,
)
    requires
        states_hold_lists(s, map, lists),
        0 <= i < s.len(),
        new_map == map || new_map == map | spec_bitmask_for_index(s[i].capture_list_id),
    ensures
        states_hold_lists(s.remove(i), new_map, lists),
{
    let r = s.remove(i);
    assert(holds_list(s[i], map, lists));
    assert forall|a: int| 0 <= a < r.len() implies holds_list(#[trigger] r[a], new_map, lists) by {
        let k = if a < i { a } else { a + 1 };
        assert(r[a] == s[k]);
        assert(holds_list(s[k], map, lists));
        if new_map != map {
            lemma_release_keeps_others(map, s[i].capture_list_id, s[k].capture_list_id);
        }
    }
    assert forall|a: int, b: int| 0 <= a < b < r.len() implies (#[trigger] r[a]).capture_list_id
        != (#[trigger] r[b]).capture_list_id by {
        let x = if a < i { a } else { a + 1 };
        let y = if b < i { b } else { b + 1 };
        assert(r[a] == s[x] && r[b] == s[y]);
    }
}

/// A new state with a list just taken from the pool, and emptied, holds it;
/// the others keep theirs.
proof fn lemma_hold_insert_new(
    s: Seq<QueryState>,
    map: u32,
    lists: Seq<Vec<TSQueryCapture>>,
    k: int,
    x: QueryState,
    new_lists: Seq<Vec<TSQueryCapture>>,
)
    requires
        states_hold_lists(s, map, lists),
        lists.len() == 32,
        0 <= k <= s.len(),
        x.capture_list_id < 32,
        is_free(map, x.capture_list_id),
        new_lists.len() == lists.len(),
        new_lists[x.capture_list_id as int]@.len() == x.capture_count,
        forall|j: int| 0 <= j < lists.len() && j != x.capture_list_id ==> #[trigger] new_lists[j] == lists[j],
    ensures
        states_hold_lists(
            s.insert(k, x),
            map & !spec_bitmask_for_index(x.capture_list_id),
            new_lists,
        ),
{
    let t = s.insert(k, x);
    let m2 = map & !spec_bitmask_for_index(x.capture_list_id);
    assert forall|a: int| 0 <= a < t.len() implies holds_list(#[trigger] t[a], m2, new_lists) by {
        if a == k {
            assert(t[a] == x);
            let other: u16 = if x.capture_list_id == 0 {
                1
            } else {
                0
            };
            lemma_acquire_keeps_others(map, x.capture_list_id, other);
        } else {
            let b = if a < k { a } else { a - 1 };
            assert(t[a] == s[b]);
            assert(holds_list(s[b], map, lists));
            assert(s[b].capture_list_id != x.capture_list_id);
            lemma_acquire_keeps_others(map, x.capture_list_id, s[b].capture_list_id);
        }
    }
    assert forall|a: int, b: int| 0 <= a < b < t.len() implies (#[trigger] t[a]).capture_list_id
        != (#[trigger] t[b]).capture_list_id by {
        if a == k {
            assert(t[b] == s[b - 1]);
            assert(holds_list(s[b - 1], map, lists));
        } else if b == k {
            assert(t[a] == s[a]);
            assert(holds_list(s[a], map, lists));
        } else {
            let x1 = if a < k { a } else { a - 1 };
            let y1 = if b < k { b } else { b - 1 };
            assert(t[a] == s[x1] && t[b] == s[y1]);
        }
    }
}

/// A state that keeps its list, with the list as long as its captures,
/// still holds it; the others keep theirs.
proof fn lemma_hold_update(
    s: Seq<QueryState>,
    map: u32,
    lists: Seq<Vec<TSQueryCapture>>,
    i: int,
    x: QueryState,
    new_lists: Seq<Vec<TSQueryCapture>>,
)
    requires
        states_hold_lists(s, map, lists),
        lists.len() == 32,
        0 <= i < s.len(),
        x.capture_list_id == s[i].capture_list_id,
        new_lists.len() == lists.len(),
        new_lists[x.capture_list_id as int]@.len() == x.capture_count,
        forall|j: int| 0 <= j < lists.len() && j != x.capture_list_id ==> #[trigger] new_lists[j] == lists[j],
    ensures
        states_hold_lists(s.update(i, x), map, new_lists),
{
    let t = s.update(i, x);
    assert(holds_list(s[i], map, lists));
    assert forall|a: int| 0 <= a < t.len() implies holds_list(#[trigger] t[a], map, new_lists) by {
        if a != i {
            assert(holds_list(s[a], map, lists));
            if a < i {
                assert(s[a].capture_list_id != s[i].capture_list_id);
            } else {
                assert(s[i].capture_list_id != s[a].capture_list_id);
            }
        }
    }
    assert forall|a: int, b: int| 0 <= a < b < t.len() implies (#[trigger] t[a]).capture_list_id
        != (#[trigger] t[b]).capture_list_id by {
        assert(s[a].capture_list_id != s[b].capture_list_id);
    }
}

/// Moving a state to another place, keeping its list (as long as its
/// captures), keeps every state holding its list.
proof fn lemma_hold_move(
    s: Seq<QueryState>,
    map: u32,
    lists: Seq<Vec<TSQueryCapture>>,
    i: int,
    k: int,
    x: QueryState,
    new_lists: Seq<Vec<TSQueryCapture>>,
)
    requires
        states_hold_lists(s, map, lists),
        lists.len() == 32,
        0 <= i < s.len(),
        0 <= k < s.len(),
        x.capture_list_id == s[i].capture_list_id,
        new_lists.len() == lists.len(),
        new_lists[x.capture_list_id as int]@.len() == x.capture_count,
        forall|j: int| 0 <= j < lists.len() && j != x.capture_list_id ==> #[trigger] new_lists[j] == lists[j],
    ensures
        states_hold_lists(s.remove(i).insert(k, x), map, new_lists),
{
    let r = s.remove(i);
    assert(holds_list(s[i], map, lists));
    lemma_hold_remove(s, map, lists, i, map);
    let t = r.insert(k, x);
    assert forall|a: int| 0 <= a < r.len() implies (#[trigger] r[a]).capture_list_id != x.capture_list_id by {
        let so = if a < i { a } else { a + 1 };
        assert(r[a] == s[so]);
        if so < i {
            assert(s[so].capture_list_id != s[i].capture_list_id);
        } else {
            assert(s[i].capture_list_id != s[so].capture_list_id);
        }
    }
    assert forall|a: int| 0 <= a < t.len() implies holds_list(#[trigger] t[a], map, new_lists) by {
        if a != k {
            let b = if a < k { a } else { a - 1 };
            assert(t[a] == r[b]);
            assert(holds_list(r[b], map, lists));
            assert(r[b].capture_list_id != x.capture_list_id);
        }
    }
    assert forall|a: int, b: int| 0 <= a < b < t.len() implies (#[trigger] t[a]).capture_list_id
        != (#[trigger] t[b]).capture_list_id by {
        if a == k {
            assert(t[b] == r[b - 1]);
        } else if b == k {
            assert(t[a] == r[a]);
        } else {
            let x1 = if a < k { a } else { a - 1 };
            let y1 = if b < k { b } else { b - 1 };
            assert(t[a] == r[x1] && t[b] == r[y1]);
        }
    }
}

// ---------------------------------------------------------------------------
// Copying captures.
// ---------------------------------------------------------------------------

fn copy_node<'t, 'l>(n: &TSNode<'t, 'l>) -> (m: TSNode<'t, 'l>)
    ensures
        m.context == n.context,
        m.path@ == n.path@,
        m.tree == n.tree,
{
    let mut path: Vec<u32> = Vec::new();
    let mut k: usize = 0;
    while k < n.path.len()
        invariant
            k <= n.path@.len(),
            path@ == n.path@.subrange(0, k as int),
        decreases n.path@.len() - k,
    {
        path.push(n.path[k]);
        k = k + 1;
    }
    proof {
        assert(n.path@.subrange(0, n.path@.len() as int) =~= n.path@);
    }
    TSNode { context: n.context, path, tree: n.tree }
}

/// Whether two captures are of the same node, under the same name.
pub open spec fn same_capture(a: TSQueryCapture, b: TSQueryCapture) -> bool {
    &&& a.index == b.index
    &&& a.node.context == b.node.context
    &&& a.node.path@ == b.node.path@
    &&& a.node.tree == b.node.tree
}

fn copy_captures<'t, 'l>(l: &Vec<TSQueryCapture<'t, 'l>>) -> (m: Vec<TSQueryCapture<'t, 'l>>)
    ensures
        m@.len() == l@.len(),
        forall|i: int| 0 <= i < l@.len() ==> same_capture(#[trigger] m@[i], l@[i]),
{
    let mut m: Vec<TSQueryCapture<'t, 'l>> = Vec::new();
    let mut k: usize = 0;
    while k < l.len()
        invariant
            k <= l@.len(),
            m@.len() == k,
            forall|i: int| 0 <= i < k ==> same_capture(#[trigger] m@[i], l@[i]),
        decreases l@.len() - k,
    {
        let c = &l[k];
        m.push(TSQueryCapture { node: copy_node(&c.node), index: c.index });
        k = k + 1;
    }
    m
}

// ---------------------------------------------------------------------------
// The cursor.
// ---------------------------------------------------------------------------

/// A cursor that runs no query yet, over the whole of any tree.
pub fn ts_query_cursor_new<'q, 't, 'l>() -> (c: TSQueryCursor<'q, 't, 'l>)
    ensures
        c.query is None,
        c.cursor is None,
        c.states.contents@.len() == 0,
        c.finished_states.contents@.len() == 0,
        c.states.capacity == MAX_STATE_COUNT,
        c.finished_states.capacity == MAX_STATE_COUNT,
        c.capture_list_pool.usage_map == u32::MAX,
        c.depth == 0,
        c.start_byte == 0,
        c.end_byte == u32::MAX,
        c.next_state_id == 0,
        c.start_point == (TSPoint { row: 0, column: 0 }),
        c.end_point == (TSPoint { row: u32::MAX, column: u32::MAX }),
        !c.ascending,
{
    let mut c = TSQueryCursor {
        query: None,
        cursor: None,
        states: VoidArray::new(),
        finished_states: VoidArray::new(),
        capture_list_pool: capture_list_pool_new(),
        depth: 0,
        start_byte: 0,
        end_byte: 4294967295,
        next_state_id: 0,
        start_point: TSPoint { row: 0, column: 0 },
        end_point: TSPoint { row: 4294967295, column: 4294967295 },
        ascending: false,
    };
    array__reserve(&mut c.states, MAX_STATE_COUNT as u32);
    array__reserve(&mut c.finished_states, MAX_STATE_COUNT as u32);
    c
}

/// Releases a cursor's storage.
pub fn ts_query_cursor_delete(self_0: &mut TSQueryCursor)
    ensures
        final(self_0).states.contents@.len() == 0,
        final(self_0).finished_states.contents@.len() == 0,
        final(self_0).capture_list_pool.list@.len() == 0,
        match final(self_0).cursor {
            Some(c) => c.stack@.len() == 0,
            None => true,
        },
{
    array__delete(&mut self_0.states);
    array__delete(&mut self_0.finished_states);
    if let Some(c) = &mut self_0.cursor {
        ts_tree_cursor_delete(c);
    }
    capture_list_pool_delete(&mut self_0.capture_list_pool);
}

/// Starts running `query` over the tree below `node`: no state, every
/// capture list free, at the node, depth 0. The range is kept.
pub fn ts_query_cursor_exec<'q, 't, 'l>(
    self_0: &mut TSQueryCursor<'q, 't, 'l>,
    query: &'q TSQuery<'l>,
    node: &TSNode<'t, 'l>,
)
    requires
        crate::node::node_valid(*node),
        query_wf(*query),
    ensures
        query_cursor_wf(*final(self_0)),
        final(self_0).query == Some(query),
        final(self_0).states.contents@.len() == 0,
        final(self_0).finished_states.contents@.len() == 0,
        final(self_0).capture_list_pool.usage_map == u32::MAX,
        final(self_0).depth == 0,
        final(self_0).next_state_id == 0,
        !final(self_0).ascending,
        final(self_0).start_byte == old(self_0).start_byte,
        final(self_0).end_byte == old(self_0).end_byte,
        final(self_0).start_point == old(self_0).start_point,
        final(self_0).end_point == old(self_0).end_point,
        ({
            let c = final(self_0).cursor->0;
            &&& Some(c.tree) == node.tree
            &&& c.root_path@ == node.path@
            &&& c.stack@.len() == 1
        }),
{
    self_0.states.contents = Vec::new();
    self_0.finished_states.contents = Vec::new();
    self_0.cursor = Some(ts_tree_cursor_new(node));
    capture_list_pool_reset(&mut self_0.capture_list_pool);
    self_0.next_state_id = 0;
    self_0.depth = 0;
    self_0.ascending = false;
    self_0.query = Some(query);
    proof {
        assert(all_states(*self_0) =~= Seq::<QueryState>::empty());
        assert(crate::tree_cursor::stack_view(self_0.cursor->0.stack@).len() == 1);
    }
}

/// Limits the matches to nodes within bytes `start_byte..end_byte`; an end
/// of 0 stands for no limit.
pub fn ts_query_cursor_set_byte_range(self_0: &mut TSQueryCursor, start_byte: u32, end_byte: u32)
    ensures
        end_byte == 0 ==> final(self_0).start_byte == 0 && final(self_0).end_byte == u32::MAX,
        end_byte != 0 ==> final(self_0).start_byte == start_byte && final(self_0).end_byte == end_byte,
        final(self_0).start_point == old(self_0).start_point,
        final(self_0).end_point == old(self_0).end_point,
        final(self_0).states == old(self_0).states,
        final(self_0).finished_states == old(self_0).finished_states,
        final(self_0).query == old(self_0).query,
{
    if end_byte == 0 {
        self_0.start_byte = 0;
        self_0.end_byte = 4294967295;
    } else {
        self_0.start_byte = start_byte;
        self_0.end_byte = end_byte;
    }
}

/// Limits the matches to nodes within points `start_point..end_point`; an
/// end of row 0, column 0 stands for no limit.
pub fn ts_query_cursor_set_point_range(self_0: &mut TSQueryCursor, start_point: TSPoint, end_point: TSPoint)
    ensures
        end_point.row == 0 && end_point.column == 0 ==> final(self_0).start_point == (TSPoint {
            row: 0,
            column: 0,
        }) && final(self_0).end_point == (TSPoint { row: u32::MAX, column: u32::MAX }),
        !(end_point.row == 0 && end_point.column == 0) ==> final(self_0).start_point == start_point
            && final(self_0).end_point == end_point,
        final(self_0).start_byte == old(self_0).start_byte,
        final(self_0).end_byte == old(self_0).end_byte,
        final(self_0).states == old(self_0).states,
        final(self_0).finished_states == old(self_0).finished_states,
        final(self_0).query == old(self_0).query,
{
    if end_point.row == 0 && end_point.column == 0 {
        self_0.start_point = TSPoint { row: 0, column: 0 };
        self_0.end_point = TSPoint { row: 4294967295, column: 4294967295 };
    } else {
        self_0.start_point = start_point;
        self_0.end_point = end_point;
    }
}

/// The start byte of a state's first capture.
pub open spec fn spec_first_capture_byte(c: TSQueryCursor, s: QueryState) -> u32 {
    spec_node_start(c.capture_list_pool.list@[s.capture_list_id as int]@[0].node).bytes
}

/// Whether a capture at `byte` in pattern `pattern` comes before one at
/// `other_byte` in `other_pattern`: an earlier byte, or a lower pattern.
pub open spec fn capture_before(byte: u32, pattern: u32, other_byte: u32, other_pattern: u32) -> bool {
    byte < other_byte || (byte == other_byte && pattern < other_pattern)
}

/// Whether state `i` in progress has the earliest first capture: the first
/// such state, by byte and then pattern.
pub open spec fn is_first_in_progress(c: TSQueryCursor, i: int) -> bool {
    let s = c.states.contents@;
    &&& 0 <= i < s.len()
    &&& s[i].capture_count > 0
    &&& forall|j: int|
        0 <= j < s.len() && (#[trigger] s[j]).capture_count > 0 ==> !capture_before(
            spec_first_capture_byte(c, s[j]),
            s[j].pattern_index as u32,
            spec_first_capture_byte(c, s[i]),
            s[i].pattern_index as u32,
        )
    &&& forall|j: int|
        0 <= j < i && (#[trigger] s[j]).capture_count > 0 ==> capture_before(
            spec_first_capture_byte(c, s[i]),
            s[i].pattern_index as u32,
            spec_first_capture_byte(c, s[j]),
            s[j].pattern_index as u32,
        )
}

/// Whether some state in progress has a capture.
pub open spec fn some_in_progress_capture(c: TSQueryCursor) -> bool {
    exists|i: int| 0 <= i < c.states.contents@.len() && (#[trigger] c.states.contents@[i]).capture_count > 0
}

proof fn lemma_state_holds(c: TSQueryCursor, i: int)
    requires
        query_cursor_wf(c),
        0 <= i < c.states.contents@.len(),
    ensures
        holds_list(c.states.contents@[i], c.capture_list_pool.usage_map, c.capture_list_pool.list@),
{
    assert(all_states(c)[i] == c.states.contents@[i]);
}

/// Finds the state in progress whose first capture comes first (see
/// `is_first_in_progress`): its index, that capture's byte and its pattern.
/// Where no state has a capture, `false`, with the outputs as they were.
pub fn ts_query_cursor__first_in_progress_capture(
    self_0: &TSQueryCursor,
    state_index: &mut u32,
    byte_offset: &mut u32,
    pattern_index: &mut u32,
) -> (r: bool)
    requires
        query_cursor_wf(*self_0),
    ensures
        r == some_in_progress_capture(*self_0),
        r ==> {
            &&& is_first_in_progress(*self_0, *final(state_index) as int)
            &&& *final(byte_offset) == spec_first_capture_byte(
                *self_0,
                self_0.states.contents@[*final(state_index) as int],
            )
            &&& *final(pattern_index) == self_0.states.contents@[*final(state_index) as int].pattern_index
        },
        !r ==> *final(state_index) == *old(state_index) && *final(byte_offset) == *old(byte_offset)
            && *final(pattern_index) == *old(pattern_index),
{
    let ghost c = *self_0;
    let mut result = false;
    let n = self_0.states.contents.len();
    proof {
        lemma_states_at_most(all_states(c), c.capture_list_pool.usage_map, c.capture_list_pool.list@);
    }
    let mut i: usize = 0;
    while i < n
        invariant
            i <= n,
            n == c.states.contents@.len(),
            n <= 32,
            c == *self_0,
            query_cursor_wf(c),
            result == exists|k: int| 0 <= k < i && (#[trigger] c.states.contents@[k]).capture_count > 0,
            !result ==> *state_index == *old(state_index) && *byte_offset == *old(byte_offset)
                && *pattern_index == *old(pattern_index),
            result ==> {
                let s = c.states.contents@;
                let si = *state_index as int;
                &&& 0 <= si < i
                &&& s[si].capture_count > 0
                &&& *byte_offset == spec_first_capture_byte(c, s[si])
                &&& *pattern_index == s[si].pattern_index
                &&& forall|j: int|
                    0 <= j < i && (#[trigger] s[j]).capture_count > 0 ==> !capture_before(
                        spec_first_capture_byte(c, s[j]),
                        s[j].pattern_index as u32,
                        *byte_offset,
                        *pattern_index,
                    )
                &&& forall|j: int|
                    0 <= j < si && (#[trigger] s[j]).capture_count > 0 ==> capture_before(
                        *byte_offset,
                        *pattern_index,
                        spec_first_capture_byte(c, s[j]),
                        s[j].pattern_index as u32,
                    )
            },
        decreases n - i,
    {
        let state = self_0.states.contents[i];
        if state.capture_count > 0 {
            proof {
                lemma_state_holds(c, i as int);
            }
            let captures = &self_0.capture_list_pool.list[state.capture_list_id as usize];
            let capture_byte = ts_node_start_byte(&captures[0].node);
            if !result || capture_byte < *byte_offset || (capture_byte == *byte_offset
                && (state.pattern_index as u32) < *pattern_index) {
                result = true;
                *state_index = i as u32;
                *byte_offset = capture_byte;
                *pattern_index = state.pattern_index as u32;
            }
        }
        i = i + 1;
    }
    result
}

/// Starts a state for `pattern` at the cursor's depth, with a free capture
/// list. With none free, the state in progress whose first capture comes
/// first gives up its list (see `is_first_in_progress`); with no such state
/// either, `false`, and nothing changes.
pub fn ts_query__cursor_add_state(self_0: &mut TSQueryCursor, pattern: PatternEntry) -> (r: bool)
    requires
        query_cursor_wf(*old(self_0)),
        pattern.step_index < (old(self_0).query->0).steps.contents@.len(),
    ensures
        query_cursor_wf(*final(self_0)),
        r == (old(self_0).capture_list_pool.usage_map != 0 || some_in_progress_capture(*old(self_0))),
        !r ==> *final(self_0) == *old(self_0),
        r ==> {
            let s = final(self_0).states.contents@;
            let new_state = s[s.len() - 1];
            &&& s.len() > 0
            &&& new_state.start_depth == old(self_0).depth as u16
            &&& new_state.pattern_index == pattern.pattern_index
            &&& new_state.step_index == pattern.step_index
            &&& new_state.capture_count == 0
            &&& new_state.consumed_capture_count == 0
            &&& new_state.id == 0
            &&& old(self_0).capture_list_pool.usage_map != 0 ==> s.drop_last() == old(self_0).states.contents@
            &&& old(self_0).capture_list_pool.usage_map == 0 ==> exists|i: int|
                is_first_in_progress(*old(self_0), i) && #[trigger] old(self_0).states.contents@.remove(i)
                    == s.drop_last()
        },
        final(self_0).query == old(self_0).query,
        final(self_0).cursor == old(self_0).cursor,
        final(self_0).finished_states == old(self_0).finished_states,
        final(self_0).depth == old(self_0).depth,
        final(self_0).ascending == old(self_0).ascending,
        final(self_0).next_state_id == old(self_0).next_state_id,
        final(self_0).start_byte == old(self_0).start_byte,
        final(self_0).end_byte == old(self_0).end_byte,
        final(self_0).start_point == old(self_0).start_point,
        final(self_0).end_point == old(self_0).end_point,
{
    let ghost c0 = *self_0;
    let ghost mut stolen: int = -1;
    let mut list_id = capture_list_pool_acquire(&mut self_0.capture_list_pool);
    if list_id == NONE {
        let mut state_index: u32 = 0;
        let mut byte_offset: u32 = 0;
        let mut pattern_index: u32 = 0;
        if ts_query_cursor__first_in_progress_capture(
            self_0,
            &mut state_index,
            &mut byte_offset,
            &mut pattern_index,
        ) {
            list_id = self_0.states.contents[state_index as usize].capture_list_id;
            array__erase(&mut self_0.states, state_index);
            proof {
                stolen = state_index as int;
                assert(all_states(c0)[stolen] == c0.states.contents@[stolen]);
                assert(holds_list(all_states(c0)[stolen], c0.capture_list_pool.usage_map, c0.capture_list_pool.list@));
            }
        } else {
            return false;
        }
    }
    let ghost c2 = *self_0;
    self_0.capture_list_pool.list.set(list_id as usize, Vec::new());
    let new_state = QueryState {
        start_depth: self_0.depth as u16,
        pattern_index: pattern.pattern_index,
        step_index: pattern.step_index,
        capture_count: 0,
        capture_list_id: list_id,
        consumed_capture_count: 0,
        id: 0,
    };
    proof {
        if c0.capture_list_pool.usage_map != 0 {
            lemma_states_fewer(all_states(c0), c0.capture_list_pool.usage_map, c0.capture_list_pool.list@, list_id);
        } else {
            lemma_states_at_most(all_states(c0), c0.capture_list_pool.usage_map, c0.capture_list_pool.list@);
        }
    }
    array_push(&mut self_0.states, new_state);
    proof {
        let c = *self_0;
        if c0.capture_list_pool.usage_map != 0 {
            assert(all_states(c) =~= all_states(c0).insert(c0.states.contents@.len() as int, new_state));
            lemma_hold_insert_new(
                all_states(c0),
                c0.capture_list_pool.usage_map,
                c0.capture_list_pool.list@,
                c0.states.contents@.len() as int,
                new_state,
                c.capture_list_pool.list@,
            );
            assert(c.states.contents@.drop_last() =~= c0.states.contents@);
        } else {
            let k = c0.states.contents@.len() - 1;
            assert(all_states(c) =~= all_states(c0).remove(stolen).insert(k, new_state));
            lemma_hold_move(
                all_states(c0),
                c0.capture_list_pool.usage_map,
                c0.capture_list_pool.list@,
                stolen,
                k,
                new_state,
                c.capture_list_pool.list@,
            );
            assert(c.states.contents@.drop_last() =~= c0.states.contents@.remove(stolen));
            assert(is_first_in_progress(c0, stolen));
        }
        assert forall|i: int| 0 <= i < c.states.contents@.len() implies (#[trigger] c.states.contents@[i]).step_index
            < (c.query->0).steps.contents@.len() by {
            if i < c.states.contents@.len() - 1 {
                assert(c.states.contents@[i] == c2.states.contents@[i]);
            }
        }
    }
    true
}

/// Copies state `index` in progress to the end of the states, with a new
/// capture list that holds copies of its captures; `None` when no list is
/// free, and nothing changes.
pub fn ts_query__cursor_copy_state(self_0: &mut TSQueryCursor, index: usize) -> (r: Option<usize>)
    requires
        query_cursor_wf(*old(self_0)),
        index < old(self_0).states.contents@.len(),
    ensures
        query_cursor_wf(*final(self_0)),
        old(self_0).capture_list_pool.usage_map == 0 ==> r is None && *final(self_0) == *old(self_0),
        old(self_0).capture_list_pool.usage_map != 0 ==> {
            let s = final(self_0).states.contents@;
            let copy = s[s.len() - 1];
            let original = old(self_0).states.contents@[index as int];
            let old_list = old(self_0).capture_list_pool.list@[original.capture_list_id as int]@;
            let new_list = final(self_0).capture_list_pool.list@[copy.capture_list_id as int]@;
            &&& r == Some(old(self_0).states.contents@.len() as usize)
            &&& s.len() == old(self_0).states.contents@.len() + 1
            &&& s.drop_last() == old(self_0).states.contents@
            &&& copy == QueryState { capture_list_id: copy.capture_list_id, ..original }
            &&& new_list.len() == old_list.len()
            &&& forall|i: int| 0 <= i < old_list.len() ==> same_capture(#[trigger] new_list[i], old_list[i])
        },
        final(self_0).query == old(self_0).query,
        final(self_0).cursor == old(self_0).cursor,
        final(self_0).finished_states == old(self_0).finished_states,
        final(self_0).depth == old(self_0).depth,
        final(self_0).ascending == old(self_0).ascending,
        final(self_0).next_state_id == old(self_0).next_state_id,
        final(self_0).start_byte == old(self_0).start_byte,
        final(self_0).end_byte == old(self_0).end_byte,
        final(self_0).start_point == old(self_0).start_point,
        final(self_0).end_point == old(self_0).end_point,
{
    let ghost c0 = *self_0;
    let new_list_id = capture_list_pool_acquire(&mut self_0.capture_list_pool);
    if new_list_id == NONE {
        return None;
    }
    let state = self_0.states.contents[index];
    proof {
        lemma_state_holds(c0, index as int);
        lemma_states_fewer(all_states(c0), c0.capture_list_pool.usage_map, c0.capture_list_pool.list@, new_list_id);
    }
    let copied = copy_captures(&self_0.capture_list_pool.list[state.capture_list_id as usize]);
    self_0.capture_list_pool.list.set(new_list_id as usize, copied);
    let copy = QueryState { capture_list_id: new_list_id, ..state };
    array_push(&mut self_0.states, copy);
    proof {
        let c = *self_0;
        assert(all_states(c) =~= all_states(c0).insert(c0.states.contents@.len() as int, copy));
        lemma_hold_insert_new(
            all_states(c0),
            c0.capture_list_pool.usage_map,
            c0.capture_list_pool.list@,
            c0.states.contents@.len() as int,
            copy,
            c.capture_list_pool.list@,
        );
        assert(c.states.contents@.drop_last() =~= c0.states.contents@);
        assert forall|i: int| 0 <= i < c.states.contents@.len() implies (#[trigger] c.states.contents@[i]).step_index
            < (c.query->0).steps.contents@.len() by {
            if i < c0.states.contents@.len() {
                assert(c.states.contents@[i] == c0.states.contents@[i]);
            }
        }
    }
    Some(self_0.states.contents.len() - 1)
}

/// Adds a capture of `node` under the name `index` to state `k`.
fn push_capture<'q, 't, 'l>(self_0: &mut TSQueryCursor<'q, 't, 'l>, k: usize, node: &TSNode<'t, 'l>, index: u32)
    requires
        query_cursor_wf(*old(self_0)),
        k < old(self_0).states.contents@.len(),
        old(self_0).states.contents@[k as int].capture_count < u16::MAX,
    ensures
        query_cursor_wf(*final(self_0)),
        final(self_0).states.contents@ == old(self_0).states.contents@.update(
            k as int,
            QueryState {
                capture_count: (old(self_0).states.contents@[k as int].capture_count + 1) as u16,
                ..old(self_0).states.contents@[k as int]
            },
        ),
        final(self_0).finished_states == old(self_0).finished_states,
        final(self_0).next_state_id == old(self_0).next_state_id,
        final(self_0).query == old(self_0).query,
        final(self_0).cursor == old(self_0).cursor,
        final(self_0).depth == old(self_0).depth,
        final(self_0).ascending == old(self_0).ascending,
        final(self_0).start_byte == old(self_0).start_byte,
        final(self_0).end_byte == old(self_0).end_byte,
        final(self_0).start_point == old(self_0).start_point,
        final(self_0).end_point == old(self_0).end_point,
{
    let ghost c0 = *self_0;
    let mut state = self_0.states.contents[k];
    proof {
        lemma_state_holds(c0, k as int);
    }
    let id = state.capture_list_id as usize;
    let ghost lists0 = self_0.capture_list_pool.list@;
    let mut list = self_0.capture_list_pool.list.remove(id);
    list.push(TSQueryCapture { node: copy_node(node), index });
    self_0.capture_list_pool.list.insert(id, list);
    proof {
        assert(self_0.capture_list_pool.list@ =~= lists0.update(id as int, list));
    }
    state.capture_count = state.capture_count + 1;
    self_0.states.contents.set(k, state);
    proof {
        let c = *self_0;
        assert(all_states(c) =~= all_states(c0).update(k as int, state));
        assert(all_states(c0)[k as int] == c0.states.contents@[k as int]);
        lemma_hold_update(
            all_states(c0),
            c0.capture_list_pool.usage_map,
            c0.capture_list_pool.list@,
            k as int,
            state,
            c.capture_list_pool.list@,
        );
        assert forall|i: int| 0 <= i < c.states.contents@.len() implies (#[trigger] c.states.contents@[i]).step_index
            < (c.query->0).steps.contents@.len() by {
            assert(c.states.contents@[i].step_index == c0.states.contents@[i].step_index);
        }
    }
}

/// Moves state `k` on to step `step_index`.
fn set_state_step(self_0: &mut TSQueryCursor, k: usize, step_index: u16)
    requires
        query_cursor_wf(*old(self_0)),
        k < old(self_0).states.contents@.len(),
        step_index < (old(self_0).query->0).steps.contents@.len(),
    ensures
        query_cursor_wf(*final(self_0)),
        final(self_0).states.contents@ == old(self_0).states.contents@.update(
            k as int,
            QueryState { step_index, ..old(self_0).states.contents@[k as int] },
        ),
        final(self_0).finished_states == old(self_0).finished_states,
        final(self_0).next_state_id == old(self_0).next_state_id,
        final(self_0).query == old(self_0).query,
        final(self_0).cursor == old(self_0).cursor,
        final(self_0).depth == old(self_0).depth,
        final(self_0).ascending == old(self_0).ascending,
        final(self_0).start_byte == old(self_0).start_byte,
        final(self_0).end_byte == old(self_0).end_byte,
        final(self_0).start_point == old(self_0).start_point,
        final(self_0).end_point == old(self_0).end_point,
{
    let ghost c0 = *self_0;
    let mut state = self_0.states.contents[k];
    state.step_index = step_index;
    self_0.states.contents.set(k, state);
    proof {
        let c = *self_0;
        assert(all_states(c) =~= all_states(c0).update(k as int, state));
        assert(all_states(c0)[k as int] == c0.states.contents@[k as int]);
        lemma_state_holds(c0, k as int);
        lemma_hold_update(
            all_states(c0),
            c0.capture_list_pool.usage_map,
            c0.capture_list_pool.list@,
            k as int,
            state,
            c.capture_list_pool.list@,
        );
        assert forall|i: int| 0 <= i < c.states.contents@.len() implies (#[trigger] c.states.contents@[i]).step_index
            < (c.query->0).steps.contents@.len() by {
            if i != k {
                assert(c.states.contents@[i] == c0.states.contents@[i]);
            }
        }
    }
}

/// Ends state `k`: it gives back its capture list and leaves.
fn drop_state(self_0: &mut TSQueryCursor, k: usize)
    requires
        query_cursor_wf(*old(self_0)),
        k < old(self_0).states.contents@.len(),
    ensures
        query_cursor_wf(*final(self_0)),
        final(self_0).states.contents@ == old(self_0).states.contents@.remove(k as int),
        final(self_0).finished_states == old(self_0).finished_states,
        final(self_0).next_state_id == old(self_0).next_state_id,
        final(self_0).query == old(self_0).query,
        final(self_0).cursor == old(self_0).cursor,
        final(self_0).depth == old(self_0).depth,
        final(self_0).ascending == old(self_0).ascending,
        final(self_0).start_byte == old(self_0).start_byte,
        final(self_0).end_byte == old(self_0).end_byte,
        final(self_0).start_point == old(self_0).start_point,
        final(self_0).end_point == old(self_0).end_point,
{
    let ghost c0 = *self_0;
    let id = self_0.states.contents[k].capture_list_id;
    proof {
        lemma_state_holds(c0, k as int);
    }
    capture_list_pool_release(&mut self_0.capture_list_pool, id);
    array__erase(&mut self_0.states, k as u32);
    proof {
        let c = *self_0;
        assert(all_states(c) =~= all_states(c0).remove(k as int));
        assert(all_states(c0)[k as int] == c0.states.contents@[k as int]);
        lemma_hold_remove(
            all_states(c0),
            c0.capture_list_pool.usage_map,
            c0.capture_list_pool.list@,
            k as int,
            c.capture_list_pool.usage_map,
        );
        assert forall|i: int| 0 <= i < c.states.contents@.len() implies (#[trigger] c.states.contents@[i]).step_index
            < (c.query->0).steps.contents@.len() by {
            if i < k {
                assert(c.states.contents@[i] == c0.states.contents@[i]);
            } else {
                assert(c.states.contents@[i] == c0.states.contents@[i + 1]);
            }
        }
    }
}

/// Finishes state `k` at step `step_index`: it gets the next match id and
/// moves, with its capture list, to the end of the finished states.
fn finish_state(self_0: &mut TSQueryCursor, k: usize, step_index: u16)
    requires
        query_cursor_wf(*old(self_0)),
        k < old(self_0).states.contents@.len(),
    ensures
        query_cursor_wf(*final(self_0)),
        final(self_0).states.contents@ == old(self_0).states.contents@.remove(k as int),
        final(self_0).finished_states.contents@ == old(self_0).finished_states.contents@.push(
            QueryState {
                step_index,
                id: old(self_0).next_state_id,
                ..old(self_0).states.contents@[k as int]
            },
        ),
        final(self_0).next_state_id == old(self_0).next_state_id.wrapping_add(1),
        final(self_0).query == old(self_0).query,
        final(self_0).cursor == old(self_0).cursor,
        final(self_0).depth == old(self_0).depth,
        final(self_0).ascending == old(self_0).ascending,
        final(self_0).start_byte == old(self_0).start_byte,
        final(self_0).end_byte == old(self_0).end_byte,
        final(self_0).start_point == old(self_0).start_point,
        final(self_0).end_point == old(self_0).end_point,
{
    let ghost c0 = *self_0;
    let mut state = self_0.states.contents[k];
    state.step_index = step_index;
    state.id = self_0.next_state_id;
    self_0.next_state_id = self_0.next_state_id.wrapping_add(1);
    proof {
        lemma_states_at_most(all_states(c0), c0.capture_list_pool.usage_map, c0.capture_list_pool.list@);
    }
    array_push(&mut self_0.finished_states, state);
    array__erase(&mut self_0.states, k as u32);
    proof {
        let c = *self_0;
        let all0 = all_states(c0);
        assert(all_states(c) =~= all0.remove(k as int).insert(all0.len() - 1, state));
        assert(all0[k as int] == c0.states.contents@[k as int]);
        lemma_state_holds(c0, k as int);
        lemma_hold_move(
            all0,
            c0.capture_list_pool.usage_map,
            c0.capture_list_pool.list@,
            k as int,
            all0.len() - 1,
            state,
            c.capture_list_pool.list@,
        );
        assert forall|i: int| 0 <= i < c.states.contents@.len() implies (#[trigger] c.states.contents@[i]).step_index
            < (c.query->0).steps.contents@.len() by {
            if i < k {
                assert(c.states.contents@[i] == c0.states.contents@[i]);
            } else {
                assert(c.states.contents@[i] == c0.states.contents@[i + 1]);
            }
        }
    }
}

/// Whether state `s` still has to match within the node at `depth`: its
/// step is deeper than that.
pub open spec fn needs_inside(c: TSQueryCursor, s: QueryState) -> bool {
    s.start_depth as u32 + (c.query->0).steps.contents@[s.step_index as int].depth as u32 > c.depth
}

/// When the walk leaves a node: ends the states in progress whose next step
/// had to match within it (see `needs_inside`), keeping the others in order.
fn drop_states_inside(self_0: &mut TSQueryCursor)
    requires
        query_cursor_wf(*old(self_0)),
    ensures
        query_cursor_wf(*final(self_0)),
        final(self_0).states.contents@ == old(self_0).states.contents@.filter(
            |s: QueryState| !needs_inside(*old(self_0), s),
        ),
        final(self_0).finished_states == old(self_0).finished_states,
        final(self_0).next_state_id == old(self_0).next_state_id,
        final(self_0).query == old(self_0).query,
        final(self_0).cursor == old(self_0).cursor,
        final(self_0).depth == old(self_0).depth,
        final(self_0).ascending == old(self_0).ascending,
        final(self_0).start_byte == old(self_0).start_byte,
        final(self_0).end_byte == old(self_0).end_byte,
        final(self_0).start_point == old(self_0).start_point,
        final(self_0).end_point == old(self_0).end_point,
{
    let ghost c0 = *self_0;
    let ghost orig = self_0.states.contents@;
    let ghost keep = |s: QueryState| !needs_inside(c0, s);
    let query = self_0.query.unwrap();
    let mut i: usize = 0;
    let mut k: usize = 0;
    let n = self_0.states.contents.len();
    while k < n
        invariant
            query_cursor_wf(*self_0),
            k <= n,
            n == orig.len(),
            i <= k,
            self_0.states.contents@ == orig.subrange(0, k as int).filter(keep) + orig.subrange(k as int, n as int),
            i == orig.subrange(0, k as int).filter(keep).len(),
            Some(query) == self_0.query,
            self_0.query == c0.query,
            self_0.cursor == c0.cursor,
            self_0.depth == c0.depth,
            self_0.ascending == c0.ascending,
            self_0.start_byte == c0.start_byte,
            self_0.end_byte == c0.end_byte,
            self_0.start_point == c0.start_point,
            self_0.end_point == c0.end_point,
            self_0.finished_states == c0.finished_states,
            self_0.next_state_id == c0.next_state_id,
            orig == c0.states.contents@,
            keep == (|s: QueryState| !needs_inside(c0, s)),
        decreases n - k,
    {
        let ghost before = self_0.states.contents@;
        let state = self_0.states.contents[i];
        proof {
            assert(state == orig[k as int]);
            orig.subrange(0, k as int).lemma_filter_push(orig[k as int], keep);
            assert(orig.subrange(0, k as int).push(orig[k as int]) =~= orig.subrange(0, k as int + 1));
        }
        let step_depth = query.steps.contents[state.step_index as usize].depth;
        if state.start_depth as u32 + step_depth as u32 > self_0.depth {
            drop_state(self_0, i);
            proof {
                assert(self_0.states.contents@ =~= orig.subrange(0, k as int + 1).filter(keep) + orig.subrange(k as int + 1, n as int));
            }
        } else {
            i = i + 1;
            proof {
                assert(self_0.states.contents@ =~= orig.subrange(0, k as int + 1).filter(keep) + orig.subrange(k as int + 1, n as int));
            }
        }
        k = k + 1;
    }
    proof {
        assert(orig.subrange(0, n as int) =~= orig);
        assert(self_0.states.contents@ =~= orig.filter(keep));
    }
}

/// Whether a pattern's first step can match a node with field `field_id`:
/// it asks for no field, or for that one.
pub open spec fn root_step_fits(step: QueryStep, field_id: u16) -> bool {
    !(step.field != 0 && field_id != step.field)
}

/// Whether the first step of pattern-map entry `e` fits a node in field
/// `field_id` (see `root_step_fits`).
pub open spec fn entry_fits(q: TSQuery, e: PatternEntry, field_id: u16) -> bool {
    root_step_fits(q.steps.contents@[e.step_index as int], field_id)
}

/// Whether pattern-map entry `e` is for `symbol` and fits field `field_id`.
pub open spec fn entry_starts(q: TSQuery, e: PatternEntry, symbol: u16, field_id: u16) -> bool {
    q.steps.contents@[e.step_index as int].symbol == symbol && entry_fits(q, e, field_id)
}

/// The patterns that a node of `symbol` in field `field_id` can start, in
/// order: the wildcard patterns, then those of `symbol`, each whose first step
/// fits the field.
pub open spec fn spec_root_candidates(q: TSQuery, symbol: u16, field_id: u16) -> Seq<PatternEntry> {
    let pm = q.pattern_map.contents@;
    let wc = q.wildcard_root_pattern_count as int;
    pm.take(wc).filter(|e: PatternEntry| entry_fits(q, e, field_id)) + pm.skip(wc).filter(
        |e: PatternEntry| entry_starts(q, e, symbol, field_id),
    )
}

/// The state that pattern-map entry `e` starts at `depth` (its capture list
/// aside).
pub open spec fn spec_new_state(e: PatternEntry, depth: u32) -> QueryState {
    QueryState {
        start_depth: depth as u16,
        pattern_index: e.pattern_index,
        step_index: e.step_index,
        capture_count: 0,
        capture_list_id: 0,
        consumed_capture_count: 0,
        id: 0,
    }
}

/// Whether the states `s` are states of `olds` (some ended to give up their
/// capture lists), then states started for the first `m` entries of `cands`
/// at `depth`.
pub open spec fn spec_kept_then_started(
    olds: Seq<QueryState>,
    s: Seq<QueryState>,
    cands: Seq<PatternEntry>,
    m: int,
    depth: u32,
) -> bool {
    &&& 0 <= m <= cands.len()
    &&& m <= s.len()
    &&& s.len() - m <= olds.len()
    &&& forall|t: int| 0 <= t < s.len() - m ==> olds.contains(#[trigger] s[t])
    &&& forall|t: int|
        0 <= t < m ==> strip_list(#[trigger] s[s.len() - m + t]) == spec_new_state(cands[t], depth)
}

/// Whether `new` is `old` once the patterns a node of `symbol` in field
/// `field_id` can start have been started, in order, for the first `m` of
/// them: all of them, unless the pool then had no list to give and no state
/// in progress with a capture to give one up.
pub open spec fn spec_started(old: TSQueryCursor, new: TSQueryCursor, symbol: u16, field_id: u16, m: int) -> bool {
    let cands = spec_root_candidates(*old.query->0, symbol, field_id);
    &&& spec_kept_then_started(old.states.contents@, new.states.contents@, cands, m, old.depth)
    &&& m < cands.len() ==> new.capture_list_pool.usage_map == 0 && !some_in_progress_capture(new)
}

/// Starting one more state keeps the states before it and those started
/// before, when the state ended for its list had a capture.
proof fn lemma_started_push(
    olds: Seq<QueryState>,
    s: Seq<QueryState>,
    s2: Seq<QueryState>,
    cands: Seq<PatternEntry>,
    m: int,
    depth: u32,
    stolen: int,
)
    requires
        spec_kept_then_started(olds, s, cands, m, depth),
        m < cands.len(),
        s2.len() > 0,
        strip_list(s2.last()) == spec_new_state(cands[m], depth),
        stolen < 0 ==> s2.drop_last() == s,
        stolen >= 0 ==> 0 <= stolen < s.len() && s[stolen].capture_count > 0 && s2.drop_last() == s.remove(
            stolen,
        ),
    ensures
        spec_kept_then_started(olds, s2, cands, m + 1, depth),
{
    let k = s.len() - m;
    if stolen >= 0 {
        if stolen >= k {
            let t = stolen - k;
            assert(strip_list(s[k + t]) == spec_new_state(cands[t], depth));
            assert(false);
        }
        assert forall|t: int| 0 <= t < s2.len() - (m + 1) implies olds.contains(#[trigger] s2[t]) by {
            assert(s2.drop_last()[t] == s2[t]);
            assert(s.remove(stolen) =~= s.subrange(0, stolen) + s.subrange(stolen + 1, s.len() as int));
            assert(s.remove(stolen).len() == s.len() - 1);
            assert(s2.len() == s.len());
            assert(t + 1 < s.len());
            if t < stolen {
                assert(s.remove(stolen)[t] == s[t]);
                assert(olds.contains(s[t]));
            } else {
                assert(s.remove(stolen)[t] == s.subrange(stolen + 1, s.len() as int)[t - stolen]);
                assert(s.remove(stolen)[t] == s[t + 1]);
                assert(olds.contains(s[t + 1]));
            }
        }
        assert forall|t: int| 0 <= t < m + 1 implies strip_list(#[trigger] s2[s2.len() - (m + 1) + t])
            == spec_new_state(cands[t], depth) by {
            if t < m {
                assert(s2.drop_last()[k - 1 + t] == s2[k - 1 + t]);
                assert(s.remove(stolen) =~= s.subrange(0, stolen) + s.subrange(stolen + 1, s.len() as int));
                assert(s.remove(stolen)[k - 1 + t] == s.subrange(stolen + 1, s.len() as int)[k - 1 + t - stolen]);
                assert(s.remove(stolen)[k - 1 + t] == s[k + t]);
            } else {
                assert(s2[s2.len() - (m + 1) + t] == s2.last());
            }
        }
    } else {
        assert forall|t: int| 0 <= t < s2.len() - (m + 1) implies olds.contains(#[trigger] s2[t]) by {
            assert(s2.drop_last()[t] == s2[t]);
        }
        assert forall|t: int| 0 <= t < m + 1 implies strip_list(#[trigger] s2[s2.len() - (m + 1) + t])
            == spec_new_state(cands[t], depth) by {
            if t < m {
                assert(s2.drop_last()[k + t] == s2[k + t]);
            } else {
                assert(s2[s2.len() - (m + 1) + t] == s2.last());
            }
        }
    }
}

/// A filter over a longer prefix extends the filter over a shorter one.
proof fn lemma_filter_prefix(a: Seq<PatternEntry>, i: int, j: int, p: spec_fn(PatternEntry) -> bool)
    requires
        0 <= i <= j <= a.len(),
    ensures
        a.take(i).filter(p).len() <= a.take(j).filter(p).len(),
        a.take(j).filter(p).take(a.take(i).filter(p).len() as int) == a.take(i).filter(p),
{
    assert(a.take(j) =~= a.take(i) + a.subrange(i, j));
    Seq::filter_distributes_over_add(a.take(i), a.subrange(i, j), p);
    assert((a.take(i).filter(p) + a.subrange(i, j).filter(p)).take(a.take(i).filter(p).len() as int)
        =~= a.take(i).filter(p));
}

/// A filter that keeps nothing of a sequence leaves it empty.
proof fn lemma_filter_none(a: Seq<PatternEntry>, p: spec_fn(PatternEntry) -> bool)
    requires
        forall|i: int| 0 <= i < a.len() ==> !p(#[trigger] a[i]),
    ensures
        a.filter(p) =~= Seq::<PatternEntry>::empty(),
    decreases a.len(),
{
    reveal(Seq::filter);
    if a.len() > 0 {
        assert forall|i: int| 0 <= i < a.drop_last().len() implies !p(#[trigger] a.drop_last()[i]) by {
            assert(a.drop_last()[i] == a[i]);
        }
        lemma_filter_none(a.drop_last(), p);
        assert(!p(a.last()));
    }
}

/// When the walk enters a node of `symbol` with field `field_id`: starts a
/// state for each wildcard pattern, then for each pattern of `symbol`, whose
/// first step fits the field (see `spec_root_candidates`), in the order of
/// the pattern map, until no capture list can be had.
fn add_new_states(self_0: &mut TSQueryCursor, symbol: u16, field_id: u16)
    requires
        query_cursor_wf(*old(self_0)),
    ensures
        query_cursor_wf(*final(self_0)),
        pattern_map_sorted(*(old(self_0).query->0)) ==> exists|m: int|
            #[trigger] spec_started(*old(self_0), *final(self_0), symbol, field_id, m),
        final(self_0).finished_states == old(self_0).finished_states,
        final(self_0).next_state_id == old(self_0).next_state_id,
        final(self_0).query == old(self_0).query,
        final(self_0).cursor == old(self_0).cursor,
        final(self_0).depth == old(self_0).depth,
        final(self_0).ascending == old(self_0).ascending,
        final(self_0).start_byte == old(self_0).start_byte,
        final(self_0).end_byte == old(self_0).end_byte,
        final(self_0).start_point == old(self_0).start_point,
        final(self_0).end_point == old(self_0).end_point,
{
    let ghost c0 = *self_0;
    let query = self_0.query.unwrap();
    let ghost q = *query;
    let ghost pm = q.pattern_map.contents@;
    let ghost fits = |e: PatternEntry| entry_fits(q, e, field_id);
    let ghost starts = |e: PatternEntry| entry_starts(q, e, symbol, field_id);
    let ghost cands = spec_root_candidates(q, symbol, field_id);
    let ghost olds = c0.states.contents@;
    let wildcard_count = query.wildcard_root_pattern_count;
    let ghost wc = wildcard_count as int;
    let ghost wild = pm.take(wc).filter(fits);
    let ghost mut m: int = 0;
    let ghost mut failed = false;
    let mut i: u16 = 0;
    proof {
        assert(pm.take(0).filter(fits) =~= Seq::<PatternEntry>::empty()) by {
            reveal(Seq::filter);
        }
        assert forall|t: int| 0 <= t < olds.len() implies olds.contains(#[trigger] olds[t]) by {}
        assert(cands == wild + pm.skip(wc).filter(starts));
    }
    while i < wildcard_count
        invariant_except_break
            !failed,
            m == pm.take(i as int).filter(fits).len(),
        invariant
            query_cursor_wf(*self_0),
            Some(query) == self_0.query,
            self_0.query == c0.query,
            self_0.cursor == c0.cursor,
            self_0.depth == c0.depth,
            self_0.ascending == c0.ascending,
            self_0.start_byte == c0.start_byte,
            self_0.end_byte == c0.end_byte,
            self_0.start_point == c0.start_point,
            self_0.end_point == c0.end_point,
            self_0.finished_states == c0.finished_states,
            self_0.next_state_id == c0.next_state_id,
            wildcard_count == query.wildcard_root_pattern_count,
            q == *query,
            pm == q.pattern_map.contents@,
            wc == wildcard_count,
            wc <= pm.len(),
            i <= wc,
            fits == (|e: PatternEntry| entry_fits(q, e, field_id)),
            wild == pm.take(wc).filter(fits),
            cands == wild + pm.skip(wc).filter(starts),
            olds == c0.states.contents@,
            spec_kept_then_started(olds, self_0.states.contents@, cands, m, c0.depth),
        ensures
            failed ==> m < wild.len() && self_0.capture_list_pool.usage_map == 0 && !some_in_progress_capture(
                *self_0,
            ),
            !failed ==> m == wild.len(),
        decreases wc - i,
    {
        let pattern = query.pattern_map.contents[i as usize];
        let step = &query.steps.contents[pattern.step_index as usize];
        let ghost before = *self_0;
        let ghost a = pm.take(i as int).filter(fits);
        let ghost b = pm.take(i + 1).filter(fits);
        proof {
            pm.take(i as int).lemma_filter_push(pm[i as int], fits);
            assert(pm.take(i as int).push(pm[i as int]) =~= pm.take(i + 1));
            lemma_filter_prefix(pm, i + 1, wc, fits);
            assert(pm.take(wc).take(wc) =~= pm.take(wc));
            assert(pattern == pm[i as int]);
        }
        if !(step.field != 0 && field_id != step.field) {
            proof {
                assert(fits(pattern));
                assert(b == a.push(pattern));
                assert(wild.take(b.len() as int) == b);
                assert(wild.take(b.len() as int)[m] == wild[m]);
                assert(wild[m] == pattern);
            }
            if !ts_query__cursor_add_state(self_0, pattern) {
                proof {
                    failed = true;
                }
                break;
            }
            proof {
                let s = before.states.contents@;
                let s2 = self_0.states.contents@;
                assert(cands[m] == wild[m]);
                if before.capture_list_pool.usage_map != 0 {
                    lemma_started_push(olds, s, s2, cands, m, c0.depth, -1);
                } else {
                    let st = choose|st: int| is_first_in_progress(before, st) && #[trigger] s.remove(st) == s2.drop_last();
                    lemma_started_push(olds, s, s2, cands, m, c0.depth, st);
                }
                m = m + 1;
            }
        } else {
            proof {
                assert(!fits(pattern));
                assert(b == a);
            }
        }
        i = i + 1;
        proof {
            if i == wildcard_count {
                assert(pm.take(i as int).filter(fits) == wild);
            }
        }
    }
    let ghost sorted = pattern_map_sorted(q);
    let ghost rest = pm.skip(wc).filter(starts);
    let (found, index) = ts_query__pattern_map_search(query, symbol);
    let len = query.pattern_map.contents.len();
    proof {
        assert(cands == wild + rest);
        if sorted {
            assert(pm.skip(wc) =~= pm.subrange(wc, index as int) + pm.subrange(index as int, len as int));
            Seq::filter_distributes_over_add(pm.subrange(wc, index as int), pm.subrange(index as int, len as int), starts);
            assert forall|t: int| 0 <= t < pm.subrange(wc, index as int).len() implies !starts(
                #[trigger] pm.subrange(wc, index as int)[t],
            ) by {
                assert(spec_entry_symbol(q, wc + t) < symbol);
            }
            lemma_filter_none(pm.subrange(wc, index as int), starts);
            assert(rest =~= pm.subrange(index as int, len as int).filter(starts));
            if !(found && (index as usize) < len) {
                assert forall|t: int| 0 <= t < pm.subrange(index as int, len as int).len() implies !starts(
                    #[trigger] pm.subrange(index as int, len as int)[t],
                ) by {
                    let u = index + t;
                    assert(spec_entry_symbol(q, u) >= symbol);
                    if spec_entry_symbol(q, u) == symbol {
                        assert(spec_entry_symbol(q, index as int) <= spec_entry_symbol(q, u));
                        assert(spec_entry_symbol(q, index as int) >= symbol);
                    }
                }
                lemma_filter_none(pm.subrange(index as int, len as int), starts);
            }
        }
    }
    if found && (index as usize) < len {
        let mut j: usize = index as usize;
        proof {
            assert(pm.subrange(index as int, j as int) =~= Seq::<PatternEntry>::empty());
            assert(Seq::<PatternEntry>::empty().filter(starts) =~= Seq::<PatternEntry>::empty()) by {
                reveal(Seq::filter);
            }
        }
        loop
            invariant_except_break
                j < len,
                sorted ==> spec_entry_symbol(q, j as int) == symbol,
            invariant
                query_cursor_wf(*self_0),
                Some(query) == self_0.query,
                self_0.query == c0.query,
                self_0.cursor == c0.cursor,
                self_0.depth == c0.depth,
                self_0.ascending == c0.ascending,
                self_0.start_byte == c0.start_byte,
                self_0.end_byte == c0.end_byte,
                self_0.start_point == c0.start_point,
                self_0.end_point == c0.end_point,
                self_0.finished_states == c0.finished_states,
                self_0.next_state_id == c0.next_state_id,
                len == query.pattern_map.contents@.len(),
                q == *query,
                pm == q.pattern_map.contents@,
                index <= j <= len,
                olds == c0.states.contents@,
                cands == wild + rest,
                starts == (|e: PatternEntry| entry_starts(q, e, symbol, field_id)),
                sorted == pattern_map_sorted(q),
                sorted ==> rest == pm.subrange(index as int, len as int).filter(starts),
                sorted ==> is_lower_bound(q, symbol, index as int),
                sorted ==> spec_kept_then_started(olds, self_0.states.contents@, cands, m, c0.depth),
                sorted && !failed ==> m == wild.len() + pm.subrange(index as int, j as int).filter(starts).len(),
                sorted && !failed ==> pm.subrange(index as int, len as int).filter(starts).take(
                    pm.subrange(index as int, j as int).filter(starts).len() as int,
                ) == pm.subrange(index as int, j as int).filter(starts),
                failed ==> self_0.capture_list_pool.usage_map == 0 && !some_in_progress_capture(*self_0),
                failed && sorted ==> m < cands.len(),
            ensures
                sorted ==> spec_kept_then_started(olds, self_0.states.contents@, cands, m, c0.depth),
                sorted ==> failed || m == cands.len(),
                failed ==> self_0.capture_list_pool.usage_map == 0 && !some_in_progress_capture(*self_0),
                failed && sorted ==> m < cands.len(),
            decreases len - j,
        {
            let pattern = query.pattern_map.contents[j];
            let step = &query.steps.contents[pattern.step_index as usize];
            let ghost before = *self_0;
            let ghost done_before = pm.subrange(index as int, j as int).filter(starts);
            proof {
                pm.subrange(index as int, j as int).lemma_filter_push(pm[j as int], starts);
                assert(pm.subrange(index as int, j as int).push(pm[j as int]) =~= pm.subrange(index as int, j + 1));
                if sorted {
                    assert(pm.subrange(index as int, len as int) =~= pm.subrange(index as int, j + 1) + pm.subrange(
                        j + 1,
                        len as int,
                    ));
                    Seq::filter_distributes_over_add(pm.subrange(index as int, j + 1), pm.subrange(j + 1, len as int), starts);
                }
            }
            if !(step.field != 0 && field_id != step.field) {
                proof {
                    if sorted && !failed {
                        assert(starts(pattern));
                        assert(pm.subrange(index as int, j + 1).filter(starts) == done_before.push(pattern));
                        assert(rest[m - wild.len()] == pattern);
                        assert(cands[m] == pattern);
                    }
                }
                if !ts_query__cursor_add_state(self_0, pattern) {
                    proof {
                        if !failed {
                            if sorted {
                                assert(m < cands.len());
                            }
                            failed = true;
                        }
                    }
                    break;
                }
                proof {
                    if failed {
                        assert(false);
                    }
                    if sorted {
                        let s0 = before.states.contents@;
                        let s2 = self_0.states.contents@;
                        if before.capture_list_pool.usage_map != 0 {
                            lemma_started_push(olds, s0, s2, cands, m, c0.depth, -1);
                        } else {
                            let st = choose|st: int| is_first_in_progress(before, st) && #[trigger] s0.remove(st) == s2.drop_last();
                            lemma_started_push(olds, s0, s2, cands, m, c0.depth, st);
                        }
                    }
                    m = m + 1;
                }
            } else {
                proof {
                    assert(!starts(pattern));
                    if sorted && !failed {
                        assert(pm.subrange(index as int, j + 1).filter(starts) == done_before);
                    }
                }
            }
            j = j + 1;
            if j == len {
                proof {
                    if sorted && !failed {
                        assert(pm.subrange(j as int, len as int) =~= Seq::<PatternEntry>::empty());
                        lemma_filter_none(pm.subrange(j as int, len as int), starts);
                        assert(pm.subrange(index as int, j as int).filter(starts) + Seq::<PatternEntry>::empty()
                            =~= pm.subrange(index as int, j as int).filter(starts));
                    }
                }
                break;
            }
            let next = query.pattern_map.contents[j];
            if query.steps.contents[next.step_index as usize].symbol != symbol {
                proof {
                    if sorted && !failed {
                        assert forall|t: int| 0 <= t < pm.subrange(j as int, len as int).len() implies !starts(
                            #[trigger] pm.subrange(j as int, len as int)[t],
                        ) by {
                            assert(spec_entry_symbol(q, j as int) <= spec_entry_symbol(q, j + t));
                            assert(spec_entry_symbol(q, j as int) >= symbol);
                        }
                        lemma_filter_none(pm.subrange(j as int, len as int), starts);
                        assert(pm.subrange(index as int, j as int).filter(starts) + Seq::<PatternEntry>::empty()
                            =~= pm.subrange(index as int, j as int).filter(starts));
                    }
                }
                break;
            }
            proof {
                if sorted && !failed {
                    let a = pm.subrange(index as int, j as int).filter(starts);
                    assert(pm.subrange(index as int, len as int) =~= pm.subrange(index as int, j as int) + pm.subrange(
                        j as int,
                        len as int,
                    ));
                    Seq::filter_distributes_over_add(pm.subrange(index as int, j as int), pm.subrange(j as int, len as int), starts);
                    assert((a + pm.subrange(j as int, len as int).filter(starts)).take(a.len() as int) =~= a);
                }
            }
        }
    }
    proof {
        if sorted {
            if !failed {
                assert(m == cands.len());
            }
            assert(spec_started(c0, *self_0, symbol, field_id, m));
        }
    }
}

/// What a node entered by the walk tells the states in progress: its symbol,
/// whether it is named, the field it is in, and whether later siblings (and
/// later siblings in that field) can follow it.
pub struct NodeFacts {
    pub symbol: u16,
    pub is_named: bool,
    pub field_id: u16,
    pub has_later_siblings: bool,
    pub can_have_later_siblings_with_this_field: bool,
}

/// Whether a step matches the node: by symbol (or a wildcard, named or not),
/// not as a last step with siblings after the node, and in the step's field if
/// it has one.
pub open spec fn spec_step_matches(step: QueryStep, f: NodeFacts) -> bool {
    &&& step.symbol == f.symbol || step.symbol == WILDCARD_SYMBOL || (step.symbol == NAMED_WILDCARD_SYMBOL
        && f.is_named)
    &&& !(step.is_last && f.has_later_siblings)
    &&& step.field == 0 || step.field == f.field_id
}

/// Whether a later sibling of the node could still match the step: there are
/// later siblings; the step is not anchored right after a named node; and, in
/// the step's field, a later sibling can have that field.
pub open spec fn spec_later_can_match(step: QueryStep, f: NodeFacts) -> bool {
    &&& f.has_later_siblings
    &&& !(step.is_immediate && f.is_named)
    &&& !(step.field != 0 && step.field == f.field_id && !f.can_have_later_siblings_with_this_field)
}

/// The capture count once the captures of a step, from its `j`-th capture id
/// on, are added: one for each id before the first `NONE`, while the count is
/// below `u16::MAX`.
pub open spec fn spec_count_with_captures(count: u16, ids: Seq<u16>, j: int) -> u16
    decreases 4 - j,
{
    if j < 0 || j >= 4 || ids[j] == NONE {
        count
    } else {
        spec_count_with_captures(
            if count < u16::MAX {
                (count + 1) as u16
            } else {
                count
            },
            ids,
            j + 1,
        )
    }
}

/// What entering the node does to one state in progress: the state it leaves
/// in place (if any), the copy it adds at the end of the states (if any), and
/// the state it finishes (if any, with id `next_id`). A state whose next step
/// is not at the node's depth stays. One whose step does not match stays if a
/// later sibling could match, and ends otherwise. One whose step matches takes
/// the step's captures and moves on a step, finishing at the end of its
/// pattern; when the step is below the root, captures, and a later sibling
/// could match too, a copy moves on (if `copied`: the pool had a list for
/// it) and the state stays.
pub open spec fn spec_state_update(
    steps: Seq<QueryStep>,
    depth: u32,
    f: NodeFacts,
    s: QueryState,
    copied: bool,
    next_id: u32,
) -> (Option<QueryState>, Option<QueryState>, Option<QueryState>) {
    let step = steps[s.step_index as int];
    if s.start_depth as u32 + step.depth as u32 != depth {
        (Some(s), None, None)
    } else if !spec_step_matches(step, f) {
        if spec_later_can_match(step, f) {
            (Some(s), None, None)
        } else {
            (None, None, None)
        }
    } else {
        let copy = copied && step.depth > 0 && step.contains_captures && spec_later_can_match(step, f);
        let moved = QueryState {
            capture_count: spec_count_with_captures(s.capture_count, step.capture_ids@, 0),
            step_index: ((s.step_index + 1) % 0x10000) as u16,
            ..s
        };
        let next = s.step_index as int + 1;
        let done = next >= steps.len() || steps[next].depth == PATTERN_DONE_MARKER as u16;
        if done {
            (
                if copy {
                    Some(s)
                } else {
                    None
                },
                None,
                Some(QueryState { id: next_id, ..moved }),
            )
        } else if copy {
            (Some(s), Some(moved), None)
        } else {
            (Some(moved), None, None)
        }
    }
}

pub open spec fn opt_seq(o: Option<QueryState>) -> Seq<QueryState> {
    match o {
        Some(s) => seq![s],
        None => Seq::empty(),
    }
}

/// The states in progress `olds` after the node is entered, one after the
/// other (see `spec_state_update`; `copied` says for each whether the pool had
/// a list for its copy): the states left in place, the copies added after
/// them, the finished states after `finished`, and the next id for a finished
/// state.
pub open spec fn spec_update_states(
    steps: Seq<QueryStep>,
    depth: u32,
    f: NodeFacts,
    olds: Seq<QueryState>,
    copied: Seq<bool>,
    finished: Seq<QueryState>,
    next_id: u32,
) -> (Seq<QueryState>, Seq<QueryState>, Seq<QueryState>, u32)
    decreases olds.len(),
{
    if olds.len() == 0 {
        (Seq::empty(), Seq::empty(), finished, next_id)
    } else {
        let (kept, copies, done, id) = spec_update_states(
            steps,
            depth,
            f,
            olds.drop_last(),
            copied.drop_last(),
            finished,
            next_id,
        );
        let (a, b, c) = spec_state_update(steps, depth, f, olds.last(), copied.last(), id);
        (
            kept + opt_seq(a),
            copies + opt_seq(b),
            done + opt_seq(c),
            if c is Some {
                id.wrapping_add(1)
            } else {
                id
            },
        )
    }
}

/// A step that names a field moves a state on only at a node in that field:
/// where the state's step has a field other than the node's, the state is
/// neither moved on, nor copied, nor finished; it stays as it was, or ends.
pub proof fn lemma_field_decides_match(
    steps: Seq<QueryStep>,
    depth: u32,
    f: NodeFacts,
    s: QueryState,
    copied: bool,
    next_id: u32,
)
    ensures
        ({
            let step = steps[s.step_index as int];
            let r = spec_state_update(steps, depth, f, s, copied, next_id);
            step.field != 0 && step.field != f.field_id ==> {
                &&& r.0 is None || r.0 == Some(s)
                &&& r.1 is None
                &&& r.2 is None
            }
        }),
{
}

/// A state moves on only at a node its step can stand for: the node's
/// symbol, or any node for a wildcard, or any named node for a named
/// wildcard; and not for a step that must be the last child when the node
/// has later siblings. Otherwise the state is neither moved on, nor copied,
/// nor finished.
pub proof fn lemma_symbol_decides_match(
    steps: Seq<QueryStep>,
    depth: u32,
    f: NodeFacts,
    s: QueryState,
    copied: bool,
    next_id: u32,
)
    ensures
        ({
            let step = steps[s.step_index as int];
            let r = spec_state_update(steps, depth, f, s, copied, next_id);
            !(step.symbol == f.symbol || step.symbol == WILDCARD_SYMBOL || (step.symbol
                == NAMED_WILDCARD_SYMBOL && f.is_named)) || (step.is_last && f.has_later_siblings) ==> {
                &&& r.0 is None || r.0 == Some(s)
                &&& r.1 is None
                &&& r.2 is None
            }
        }),
{
}

/// Entering a node whose field differs from the field of every state's step
/// (each naming a field) moves nothing on: no copies, no new finished
/// states, the same next id, and each state left in place is one of the
/// states that were there.
pub proof fn lemma_field_mismatch_moves_nothing(
    steps: Seq<QueryStep>,
    depth: u32,
    f: NodeFacts,
    olds: Seq<QueryState>,
    copied: Seq<bool>,
    finished: Seq<QueryState>,
    next_id: u32,
)
    requires
        forall|k: int|
            0 <= k < olds.len() ==> steps[(#[trigger] olds[k]).step_index as int].field != 0
                && steps[olds[k].step_index as int].field != f.field_id,
    ensures
        ({
            let r = spec_update_states(steps, depth, f, olds, copied, finished, next_id);
            &&& r.1.len() == 0
            &&& r.2 == finished
            &&& r.3 == next_id
            &&& forall|j: int| 0 <= j < r.0.len() ==> olds.contains(#[trigger] r.0[j])
        }),
    decreases olds.len(),
{
    if olds.len() > 0 {
        let d = olds.drop_last();
        assert forall|k: int| 0 <= k < d.len() implies steps[(#[trigger] d[k]).step_index as int].field != 0
            && steps[d[k].step_index as int].field != f.field_id by {
            assert(d[k] == olds[k]);
        }
        lemma_field_mismatch_moves_nothing(steps, depth, f, d, copied.drop_last(), finished, next_id);
        let (kept, copies, done, id) = spec_update_states(steps, depth, f, d, copied.drop_last(), finished, next_id);
        lemma_field_decides_match(steps, depth, f, olds.last(), copied.last(), id);
        assert(steps[olds[olds.len() - 1].step_index as int].field != 0);
        let r = spec_update_states(steps, depth, f, olds, copied, finished, next_id);
        let (a, b, c) = spec_state_update(steps, depth, f, olds.last(), copied.last(), id);
        assert(r.1 =~= copies + opt_seq(b));
        assert(r.2 =~= done + opt_seq(c));
        assert forall|j: int| 0 <= j < r.0.len() implies olds.contains(#[trigger] r.0[j]) by {
            if j < kept.len() {
                assert(r.0[j] == kept[j]);
                let w = choose|w: int| 0 <= w < d.len() && d[w] == kept[j];
                assert(olds[w] == d[w]);
            } else {
                assert(r.0[j] == olds.last());
                assert(olds[olds.len() - 1] == olds.last());
            }
        }
    }
}

/// A state with its capture list left out (the list of a copy is whichever
/// the pool hands out).
pub open spec fn strip_list(s: QueryState) -> QueryState {
    QueryState { capture_list_id: 0, ..s }
}

pub open spec fn strip_lists(s: Seq<QueryState>) -> Seq<QueryState> {
    Seq::new(s.len(), |i: int| strip_list(s[i]))
}

/// Whether the cursor `new` holds what `update_states` leaves of `old` when
/// the node `f` is entered and the copies went as `copied` says: its states in
/// progress, its finished states (their capture lists aside) and its next id.
pub open spec fn spec_updated(old: TSQueryCursor, new: TSQueryCursor, f: NodeFacts, copied: Seq<bool>) -> bool {
    let r = spec_update_states(
        (old.query->0).steps.contents@,
        old.depth,
        f,
        old.states.contents@,
        copied,
        old.finished_states.contents@,
        old.next_state_id,
    );
    &&& copied.len() == old.states.contents@.len()
    &&& strip_lists(new.states.contents@) == strip_lists(r.0 + r.1)
    &&& strip_lists(new.finished_states.contents@) == strip_lists(r.2)
    &&& new.next_state_id == r.3
}

/// One more state in progress moved on: the result for the first `k + 1`
/// states extends that for the first `k`.
proof fn lemma_update_step(
    steps: Seq<QueryStep>,
    depth: u32,
    f: NodeFacts,
    olds: Seq<QueryState>,
    copied: Seq<bool>,
    b: bool,
    finished: Seq<QueryState>,
    next_id: u32,
    k: int,
)
    requires
        0 <= k < olds.len(),
        copied.len() == k,
    ensures
        ({
            let r = spec_update_states(steps, depth, f, olds.take(k), copied, finished, next_id);
            let r2 = spec_update_states(steps, depth, f, olds.take(k + 1), copied.push(b), finished, next_id);
            let (a, bb, c) = spec_state_update(steps, depth, f, olds[k], b, r.3);
            &&& r2.0 == r.0 + opt_seq(a)
            &&& r2.1 == r.1 + opt_seq(bb)
            &&& r2.2 == r.2 + opt_seq(c)
            &&& r2.3 == (if c is Some {
                r.3.wrapping_add(1)
            } else {
                r.3
            })
        }),
{
    assert(olds.take(k + 1).drop_last() =~= olds.take(k));
    assert(copied.push(b).drop_last() =~= copied);
    assert(olds.take(k + 1).last() == olds[k]);
}

/// Leaving the capture lists out goes element by element.
proof fn lemma_strip_concat(a: Seq<QueryState>, b: Seq<QueryState>)
    ensures
        strip_lists(a + b) == strip_lists(a) + strip_lists(b),
{
    assert(strip_lists(a + b) =~= strip_lists(a) + strip_lists(b));
}

/// When the walk enters `node` (see `NodeFacts`): moves each state in
/// progress as `spec_update_states` says, the copies' capture lists aside.
#[verifier::rlimit(50)]
fn update_states<'q, 't, 'l>(
    self_0: &mut TSQueryCursor<'q, 't, 'l>,
    node: &TSNode<'t, 'l>,
    symbol: u16,
    is_named: bool,
    field_id: u16,
    has_later_siblings: bool,
    can_have_later_siblings_with_this_field: bool,
)
    requires
        query_cursor_wf(*old(self_0)),
    ensures
        query_cursor_wf(*final(self_0)),
        exists|copied: Seq<bool>|
            #[trigger] spec_updated(
                *old(self_0),
                *final(self_0),
                (NodeFacts {
                    symbol,
                    is_named,
                    field_id,
                    has_later_siblings,
                    can_have_later_siblings_with_this_field,
                }),
                copied,
            ),
        final(self_0).query == old(self_0).query,
        final(self_0).cursor == old(self_0).cursor,
        final(self_0).depth == old(self_0).depth,
        final(self_0).ascending == old(self_0).ascending,
        final(self_0).start_byte == old(self_0).start_byte,
        final(self_0).end_byte == old(self_0).end_byte,
        final(self_0).start_point == old(self_0).start_point,
        final(self_0).end_point == old(self_0).end_point,
{
    let ghost c0 = *self_0;
    let ghost olds = self_0.states.contents@;
    let ghost n0 = olds.len() as int;
    let ghost f = NodeFacts {
        symbol,
        is_named,
        field_id,
        has_later_siblings,
        can_have_later_siblings_with_this_field,
    };
    let ghost fin0 = c0.finished_states.contents@;
    let ghost id0 = c0.next_state_id;
    let ghost mut copied: Seq<bool> = Seq::empty();
    let ghost mut k: int = 0;
    let query = self_0.query.unwrap();
    let ghost steps = query.steps.contents@;
    let mut i: usize = 0;
    let mut n: usize = self_0.states.contents.len();
    proof {
        let s = self_0.states.contents@;
        assert(olds.take(0) =~= Seq::<QueryState>::empty());
        assert(strip_lists(s.subrange(0, 0)) =~= strip_lists(Seq::<QueryState>::empty()));
        assert(strip_lists(s.subrange(n as int, n as int)) =~= strip_lists(Seq::<QueryState>::empty()));
        assert(s.subrange(0, n as int) =~= olds.subrange(0, n0));
    }
    while i < n
        invariant
            query_cursor_wf(*self_0),
            Some(query) == self_0.query,
            self_0.query == c0.query,
            self_0.cursor == c0.cursor,
            self_0.depth == c0.depth,
            self_0.ascending == c0.ascending,
            self_0.start_byte == c0.start_byte,
            self_0.end_byte == c0.end_byte,
            self_0.start_point == c0.start_point,
            self_0.end_point == c0.end_point,
            steps == query.steps.contents@,
            f == (NodeFacts {
                symbol,
                is_named,
                field_id,
                has_later_siblings,
                can_have_later_siblings_with_this_field,
            }),
            i <= n,
            n <= self_0.states.contents@.len(),
            0 <= k <= n0,
            n0 == olds.len(),
            copied.len() == k,
            n - i == n0 - k,
            self_0.states.contents@.subrange(i as int, n as int) == olds.subrange(k, n0),
            strip_lists(self_0.states.contents@.subrange(0, i as int)) == strip_lists(
                spec_update_states(steps, c0.depth, f, olds.take(k), copied, fin0, id0).0,
            ),
            strip_lists(self_0.states.contents@.subrange(n as int, self_0.states.contents@.len() as int))
                == strip_lists(spec_update_states(steps, c0.depth, f, olds.take(k), copied, fin0, id0).1),
            strip_lists(self_0.finished_states.contents@) == strip_lists(
                spec_update_states(steps, c0.depth, f, olds.take(k), copied, fin0, id0).2,
            ),
            self_0.next_state_id == spec_update_states(steps, c0.depth, f, olds.take(k), copied, fin0, id0).3,
        decreases n - i,
    {
        let ghost s0 = self_0.states.contents@;
        let ghost r = spec_update_states(steps, c0.depth, f, olds.take(k), copied, fin0, id0);
        let state = self_0.states.contents[i];
        proof {
            assert(s0.subrange(i as int, n as int)[0] == olds.subrange(k, n0)[0]);
            assert(state == olds[k]);
        }
        let step = query.steps.contents[state.step_index as usize];
        let mut node_does_match = step.symbol == symbol || step.symbol == WILDCARD_SYMBOL || (
        step.symbol == NAMED_WILDCARD_SYMBOL && is_named);
        let mut later_sibling_can_match = has_later_siblings;
        if step.is_immediate && is_named {
            later_sibling_can_match = false;
        }
        if step.is_last && has_later_siblings {
            node_does_match = false;
        }
        if step.field != 0 {
            if step.field == field_id {
                if !can_have_later_siblings_with_this_field {
                    later_sibling_can_match = false;
                }
            } else {
                node_does_match = false;
            }
        }
        proof {
            assert(node_does_match == spec_step_matches(step, f));
            assert(later_sibling_can_match == spec_later_can_match(step, f));
        }
        let at_depth = state.start_depth as u32 + step.depth as u32 == self_0.depth;
        if !at_depth || (!node_does_match && later_sibling_can_match) {
            proof {
                lemma_update_step(steps, c0.depth, f, olds, copied, false, fin0, id0, k);
                copied = copied.push(false);
                k = k + 1;
                assert(s0.subrange(0, i + 1) =~= s0.subrange(0, i as int).push(olds[k - 1]));
                assert(strip_lists(s0.subrange(0, i as int).push(olds[k - 1])) =~= strip_lists(
                    s0.subrange(0, i as int),
                ).push(strip_list(olds[k - 1])));
                assert(strip_lists(r.0 + opt_seq(Some(olds[k - 1]))) =~= strip_lists(r.0).push(strip_list(olds[k - 1])));
                assert(s0.subrange(i + 1, n as int) =~= s0.subrange(i as int, n as int).subrange(1, n - i));
                assert(olds.subrange(k, n0) =~= olds.subrange(k - 1, n0).subrange(1, n0 - k + 1));
                assert(r.1 + opt_seq(None) =~= r.1);
                assert(r.2 + opt_seq(None) =~= r.2);
            }
            i = i + 1;
        } else if !node_does_match {
            drop_state(self_0, i);
            n = n - 1;
            proof {
                lemma_update_step(steps, c0.depth, f, olds, copied, false, fin0, id0, k);
                copied = copied.push(false);
                k = k + 1;
                let s1 = self_0.states.contents@;
                assert(s1.subrange(0, i as int) =~= s0.subrange(0, i as int));
                assert(s1.subrange(i as int, n as int) =~= s0.subrange(i + 1, n + 1));
                assert(s0.subrange(i + 1, n + 1) =~= s0.subrange(i as int, n + 1).subrange(1, n + 1 - i));
                assert(olds.subrange(k, n0) =~= olds.subrange(k - 1, n0).subrange(1, n0 - k + 1));
                assert(s1.subrange(n as int, s1.len() as int) =~= s0.subrange(n + 1, s0.len() as int));
                assert(r.0 + opt_seq(None) =~= r.0);
                assert(r.1 + opt_seq(None) =~= r.1);
                assert(r.2 + opt_seq(None) =~= r.2);
            }
        } else {
            let mut next_index = i;
            let mut did_copy = false;
            if step.depth > 0 && step.contains_captures && later_sibling_can_match {
                match ts_query__cursor_copy_state(self_0, i) {
                    Some(c) => {
                        next_index = c;
                        did_copy = true;
                    },
                    None => {},
                }
            }
            let ghost s_copied = self_0.states.contents@;
            let ghost fin_copied = self_0.finished_states;
            let ghost len = s_copied.len();
            proof {
                if did_copy {
                    assert(s_copied.drop_last() == s0);
                }
                assert(s_copied[next_index as int] == QueryState {
                    capture_list_id: s_copied[next_index as int].capture_list_id,
                    ..state
                });
            }
            let mut j: usize = 0;
            while j < 4
                invariant
                    query_cursor_wf(*self_0),
                    Some(query) == self_0.query,
                    self_0.query == c0.query,
                    self_0.cursor == c0.cursor,
                    self_0.depth == c0.depth,
                    self_0.ascending == c0.ascending,
                    self_0.start_byte == c0.start_byte,
                    self_0.end_byte == c0.end_byte,
                    self_0.start_point == c0.start_point,
                    self_0.end_point == c0.end_point,
                    self_0.finished_states == fin_copied,
                    self_0.next_state_id == r.3,
                    next_index < len,
                    len == s_copied.len(),
                    len == self_0.states.contents@.len(),
                    j <= 4,
                    self_0.states.contents@ == s_copied.update(
                        next_index as int,
                        QueryState {
                            capture_count: self_0.states.contents@[next_index as int].capture_count,
                            ..s_copied[next_index as int]
                        },
                    ),
                    spec_count_with_captures(state.capture_count, step.capture_ids@, 0)
                        == spec_count_with_captures(
                        self_0.states.contents@[next_index as int].capture_count,
                        step.capture_ids@,
                        j as int,
                    ),
                ensures
                    spec_count_with_captures(state.capture_count, step.capture_ids@, 0)
                        == self_0.states.contents@[next_index as int].capture_count,
                decreases 4 - j,
            {
                let capture_id = step.capture_ids[j];
                if capture_id == NONE {
                    break;
                }
                if self_0.states.contents[next_index].capture_count < 65535 {
                    push_capture(self_0, next_index, node, capture_id as u32);
                }
                j = j + 1;
            }
            let ghost s_captured = self_0.states.contents@;
            let next_pos = state.step_index as usize + 1;
            let done = next_pos >= query.steps.contents.len()
                || query.steps.contents[next_pos].depth == PATTERN_DONE_MARKER as u16;
            let new_step = state.step_index.wrapping_add(1);
            let ghost moved = QueryState {
                capture_count: spec_count_with_captures(state.capture_count, step.capture_ids@, 0),
                step_index: ((state.step_index + 1) % 0x10000) as u16,
                ..state
            };
            proof {
                lemma_update_step(steps, c0.depth, f, olds, copied, did_copy, fin0, id0, k);
                assert(new_step == moved.step_index);
                assert(strip_list(QueryState { step_index: new_step, ..s_captured[next_index as int] })
                    == strip_list(moved));
            }
            if done {
                finish_state(self_0, next_index, new_step);
                if next_index == i {
                    n = n - 1;
                } else {
                    i = i + 1;
                }
            } else {
                set_state_step(self_0, next_index, new_step);
                i = i + 1;
            }
            proof {
                let s1 = self_0.states.contents@;
                copied = copied.push(did_copy);
                k = k + 1;
                let r2 = spec_update_states(steps, c0.depth, f, olds.take(k), copied, fin0, id0);
                assert(olds.subrange(k, n0) =~= olds.subrange(k - 1, n0).subrange(1, n0 - k + 1));
                assert(strip_lists(r.0 + seq![olds[k - 1]]) =~= strip_lists(r.0).push(strip_list(olds[k - 1])));
                assert(strip_lists(r.0 + seq![moved]) =~= strip_lists(r.0).push(strip_list(moved)));
                assert(strip_lists(r.1 + seq![moved]) =~= strip_lists(r.1).push(strip_list(moved)));
                assert(strip_lists(r.2 + seq![QueryState { id: r.3, ..moved }]) =~= strip_lists(r.2).push(
                    strip_list(QueryState { id: r.3, ..moved }),
                ));
                assert(r.0 + opt_seq(None) =~= r.0);
                assert(r.1 + opt_seq(None) =~= r.1);
                assert(r.2 + opt_seq(None) =~= r.2);
                if did_copy {
                    assert(s_captured.drop_last() =~= s0);
                    if done {
                        assert(s1 =~= s0);
                    } else {
                        assert(s1.drop_last() =~= s0);
                    }
                    assert(s1.subrange(0, i as int) =~= s0.subrange(0, i - 1).push(olds[k - 1]));
                    assert(s1.subrange(i as int, n as int) =~= s0.subrange(i - 1, n as int).subrange(1, n - i + 1));
                    if done {
                        assert(s1.subrange(n as int, s1.len() as int) =~= s0.subrange(n as int, s0.len() as int));
                    } else {
                        assert(s1.subrange(n as int, s1.len() as int) =~= s0.subrange(n as int, s0.len() as int).push(
                            s1.last(),
                        ));
                    }
                } else {
                    if done {
                        assert(s1.subrange(0, i as int) =~= s0.subrange(0, i as int));
                        assert(s1.subrange(i as int, n as int) =~= s0.subrange(i + 1, n + 1));
                        assert(s0.subrange(i + 1, n + 1) =~= s0.subrange(i as int, n + 1).subrange(1, n + 1 - i));
                        assert(s1.subrange(n as int, s1.len() as int) =~= s0.subrange(n + 1, s0.len() as int));
                    } else {
                        assert(s1.subrange(0, i as int) =~= s0.subrange(0, i - 1).push(s1[i - 1]));
                        assert(s1.subrange(i as int, n as int) =~= s0.subrange(i - 1, n as int).subrange(1, n - i + 1));
                        assert(s1.subrange(n as int, s1.len() as int) =~= s0.subrange(n as int, s0.len() as int));
                    }
                }
            }
        }
    }
    proof {
        assert(olds.take(n0) =~= olds);
        let r = spec_update_states(steps, c0.depth, f, olds, copied, fin0, id0);
        let s = self_0.states.contents@;
        assert(s.subrange(0, i as int) + s.subrange(n as int, s.len() as int) =~= s);
        lemma_strip_concat(s.subrange(0, i as int), s.subrange(n as int, s.len() as int));
        lemma_strip_concat(r.0, r.1);
        assert(spec_updated(c0, *self_0, f, copied));
    }
}

/// The steps of the tree cursor of a query cursor.
pub open spec fn cursor_steps(c: TSQueryCursor) -> Seq<crate::tree_cursor::EntryView> {
    stack_view((c.cursor->0).stack@)
}

/// How far a query cursor's walk has still to go: the nodes left to visit,
/// then whether it is entering rather than leaving a node, then how deep it
/// is.
pub open spec fn walk_measure(c: TSQueryCursor) -> (nat, nat, nat) {
    (
        spec_walk_left(cursor_steps(c), c.ascending),
        if c.ascending {
            1nat
        } else {
            0nat
        },
        (c.cursor->0).stack@.len(),
    )
}

/// Whether the walk of `a` is further on than that of `b` (see
/// `walk_measure`, compared in order).
pub open spec fn walked_past(a: TSQueryCursor, b: TSQueryCursor) -> bool {
    let (x0, x1, x2) = walk_measure(a);
    let (y0, y1, y2) = walk_measure(b);
    x0 < y0 || (x0 == y0 && (x1 < y1 || (x1 == y1 && x2 < y2)))
}

fn walk_next_sibling(self_0: &mut TSQueryCursor) -> (r: bool)
    requires
        query_cursor_wf(*old(self_0)),
    ensures
        query_cursor_wf(*final(self_0)),
        r ==> spec_walk_left(cursor_steps(*final(self_0)), false) <= spec_walk_left(
            cursor_steps(*old(self_0)),
            true,
        ),
        !r ==> cursor_steps(*final(self_0)) == cursor_steps(*old(self_0)),
        ({
            let s = cursor_steps(*old(self_0));
            let l = (old(self_0).cursor->0).tree.language;
            match spec_next_sibling(l, s, s.len() as int, s.len() as int) {
                Some(t) => r && cursor_steps(*final(self_0)) == t,
                None => !r,
            }
        }),
        final(self_0).states == old(self_0).states,
        final(self_0).finished_states == old(self_0).finished_states,
        final(self_0).capture_list_pool == old(self_0).capture_list_pool,
        final(self_0).query == old(self_0).query,
        final(self_0).depth == old(self_0).depth,
        final(self_0).ascending == old(self_0).ascending,
        final(self_0).next_state_id == old(self_0).next_state_id,
        final(self_0).start_byte == old(self_0).start_byte,
        final(self_0).end_byte == old(self_0).end_byte,
        final(self_0).start_point == old(self_0).start_point,
        final(self_0).end_point == old(self_0).end_point,
        (final(self_0).cursor->0).tree == (old(self_0).cursor->0).tree,
        (final(self_0).cursor->0).root_path@ == (old(self_0).cursor->0).root_path@,
        final(self_0).cursor is Some,
{
    let ghost c0 = *self_0;
    let mut c = self_0.cursor.take().unwrap();
    let r = ts_tree_cursor_goto_next_sibling(&mut c);
    proof {
        let s = stack_view(c0.cursor->0.stack@);
        lemma_next_sibling_walk(
            c.tree.language,
            c.tree.root@,
            c.root_path@,
            s,
            s.len() as int,
            s.len() as int,
        );
    }
    self_0.cursor = Some(c);
    r
}

fn walk_parent(self_0: &mut TSQueryCursor) -> (r: bool)
    requires
        query_cursor_wf(*old(self_0)),
    ensures
        query_cursor_wf(*final(self_0)),
        r ==> spec_walk_left(cursor_steps(*final(self_0)), true) <= spec_walk_left(
            cursor_steps(*old(self_0)),
            true,
        ),
        r ==> (final(self_0).cursor->0).stack@.len() < (old(self_0).cursor->0).stack@.len(),
        !r ==> cursor_steps(*final(self_0)) == cursor_steps(*old(self_0)),
        ({
            let s = cursor_steps(*old(self_0));
            let j = spec_shown_step((old(self_0).cursor->0).tree.language, s, s.len() - 2);
            &&& r == (j >= 0)
            &&& r ==> cursor_steps(*final(self_0)) == s.take(j + 1)
        }),
        final(self_0).states == old(self_0).states,
        final(self_0).finished_states == old(self_0).finished_states,
        final(self_0).capture_list_pool == old(self_0).capture_list_pool,
        final(self_0).query == old(self_0).query,
        final(self_0).depth == old(self_0).depth,
        final(self_0).ascending == old(self_0).ascending,
        final(self_0).next_state_id == old(self_0).next_state_id,
        final(self_0).start_byte == old(self_0).start_byte,
        final(self_0).end_byte == old(self_0).end_byte,
        final(self_0).start_point == old(self_0).start_point,
        final(self_0).end_point == old(self_0).end_point,
        (final(self_0).cursor->0).tree == (old(self_0).cursor->0).tree,
        (final(self_0).cursor->0).root_path@ == (old(self_0).cursor->0).root_path@,
        final(self_0).cursor is Some,
{
    let mut c = self_0.cursor.take().unwrap();
    let r = ts_tree_cursor_goto_parent(&mut c);
    self_0.cursor = Some(c);
    r
}

fn walk_first_child(self_0: &mut TSQueryCursor) -> (r: bool)
    requires
        query_cursor_wf(*old(self_0)),
    ensures
        query_cursor_wf(*final(self_0)),
        spec_walk_left(cursor_steps(*final(self_0)), true) < spec_walk_left(
            cursor_steps(*old(self_0)),
            false,
        ),
        r ==> spec_walk_left(cursor_steps(*final(self_0)), false) < spec_walk_left(
            cursor_steps(*old(self_0)),
            false,
        ),
        ({
            let s = cursor_steps(*old(self_0));
            let steps = spec_first_child_steps((old(self_0).cursor->0).tree.language, s.last().subtree, s.last().position);
            &&& r == steps.0
            &&& cursor_steps(*final(self_0)) == s + steps.1
        }),
        final(self_0).states == old(self_0).states,
        final(self_0).finished_states == old(self_0).finished_states,
        final(self_0).capture_list_pool == old(self_0).capture_list_pool,
        final(self_0).query == old(self_0).query,
        final(self_0).depth == old(self_0).depth,
        final(self_0).ascending == old(self_0).ascending,
        final(self_0).next_state_id == old(self_0).next_state_id,
        final(self_0).start_byte == old(self_0).start_byte,
        final(self_0).end_byte == old(self_0).end_byte,
        final(self_0).start_point == old(self_0).start_point,
        final(self_0).end_point == old(self_0).end_point,
        (final(self_0).cursor->0).tree == (old(self_0).cursor->0).tree,
        (final(self_0).cursor->0).root_path@ == (old(self_0).cursor->0).root_path@,
        final(self_0).cursor is Some,
{
    let mut c = self_0.cursor.take().unwrap();
    let r = ts_tree_cursor_goto_first_child(&mut c);
    self_0.cursor = Some(c);
    r
}

/// What the node that a query cursor's walk is at tells the states in
/// progress (see `NodeFacts`): its public symbol, mapped to the query's
/// symbols, whether it is named, and the field and later siblings that the
/// tree cursor's status gives.
pub open spec fn spec_walk_facts(c: TSQueryCursor) -> NodeFacts {
    let tc = c.cursor->0;
    let s = stack_view(tc.stack@);
    let l = tc.tree.language;
    let st = spec_status_from(l, s, s.len() - 1, (0u16, false, false));
    let e = s.last();
    let alias = spec_current_alias(l, s);
    let raw = if alias != 0 {
        alias
    } else {
        spec_symbol(e.subtree)
    };
    let public = spec_public_symbol(l, raw);
    let map = (c.query->0).symbol_map@;
    NodeFacts {
        symbol: if public != 65535 && public < map.len() {
            map[public as int]
        } else {
            public
        },
        is_named: if alias != 0 {
            spec_symbol_metadata(l, alias).named
        } else {
            spec_named(e.subtree)
        },
        field_id: st.0,
        has_later_siblings: st.1,
        can_have_later_siblings_with_this_field: st.2,
    }
}

/// Whether the node the walk is at ends before the cursor's range starts.
pub open spec fn spec_walk_before_range(c: TSQueryCursor) -> bool {
    let e = cursor_steps(c).last();
    ||| wadd(e.position.bytes, spec_size(e.subtree).bytes) <= c.start_byte
    ||| spec_point_lte(spec_point_add(e.position.extent, spec_size(e.subtree).extent), c.start_point)
}

/// Whether the node the walk is at starts after the cursor's range ends.
pub open spec fn spec_walk_after_range(c: TSQueryCursor) -> bool {
    let e = cursor_steps(c).last();
    ||| c.end_byte <= e.position.bytes
    ||| spec_point_lte(c.end_point, e.position.extent)
}

/// Whether `b` is `a` with the given tree cursor steps, states, finished
/// states, depth, direction and next id, and all else kept.
pub open spec fn walk_moved(
    a: TSQueryCursor,
    b: TSQueryCursor,
    steps: Seq<crate::tree_cursor::EntryView>,
    states: Seq<QueryState>,
    finished: Seq<QueryState>,
    depth: u32,
    ascending: bool,
    next_id: u32,
) -> bool {
    &&& b.query == a.query
    &&& b.start_byte == a.start_byte
    &&& b.end_byte == a.end_byte
    &&& b.start_point == a.start_point
    &&& b.end_point == a.end_point
    &&& (b.cursor->0).tree == (a.cursor->0).tree
    &&& (b.cursor->0).root_path@ == (a.cursor->0).root_path@
    &&& cursor_steps(b) == steps
    &&& b.states.contents@ == states
    &&& b.finished_states.contents@ == finished
    &&& b.depth == depth
    &&& b.ascending == ascending
    &&& b.next_state_id == next_id
}

/// Whether `b`'s states come from `a`'s when the walk enters the node it is at
/// (facts `f`): the patterns that can start there are started (see
/// `spec_started`, where the pattern map is sorted), giving `mid`, and the
/// states are moved on (see `spec_updated`).
pub open spec fn walk_entered(a: TSQueryCursor, mid: TSQueryCursor, b: TSQueryCursor, f: NodeFacts) -> bool {
    &&& pattern_map_sorted(*(a.query->0)) ==> exists|m: int| #[trigger] spec_started(a, mid, f.symbol, f.field_id, m)
    &&& mid.finished_states == a.finished_states
    &&& mid.next_state_id == a.next_state_id
    &&& mid.query == a.query
    &&& mid.depth == a.depth
    &&& exists|copied: Seq<bool>| #[trigger] spec_updated(mid, b, f, copied)
}

/// One round of the walk that does not end it. Leaving a node (`ascending`):
/// the states that had to match inside it end (see `needs_inside`), and the
/// walk moves to the next sibling, entering it, or else up to the parent.
/// Entering a node: before the range, the walk moves to the next sibling, or
/// else leaves the node; within the range, the states take the node (see
/// `walk_entered`) and the walk moves to the first child, one level deeper,
/// or else leaves the node (keeping the steps it took down).
pub open spec fn spec_walk_step(a: TSQueryCursor, b: TSQueryCursor) -> bool {
    let s = cursor_steps(a);
    let l = (a.cursor->0).tree.language;
    let fin = a.finished_states.contents@;
    if a.ascending {
        let kept = a.states.contents@.filter(|st: QueryState| !needs_inside(a, st));
        match spec_next_sibling(l, s, s.len() as int, s.len() as int) {
            Some(t) => walk_moved(a, b, t, kept, fin, a.depth, false, a.next_state_id),
            None => {
                let j = spec_shown_step(l, s, s.len() - 2);
                j >= 0 && walk_moved(a, b, s.take(j + 1), kept, fin, a.depth.wrapping_sub(1), true, a.next_state_id)
            },
        }
    } else if spec_walk_before_range(a) {
        match spec_next_sibling(l, s, s.len() as int, s.len() as int) {
            Some(t) => walk_moved(a, b, t, a.states.contents@, fin, a.depth, false, a.next_state_id),
            None => walk_moved(a, b, s, a.states.contents@, fin, a.depth, true, a.next_state_id),
        }
    } else if spec_walk_after_range(a) {
        false
    } else {
        let down = spec_first_child_steps(l, s.last().subtree, s.last().position);
        exists|mid: TSQueryCursor|
            #[trigger] walk_entered(a, mid, b, spec_walk_facts(a)) && walk_moved(
                a,
                b,
                s + down.1,
                b.states.contents@,
                b.finished_states.contents@,
                if down.0 {
                    a.depth.wrapping_add(1)
                } else {
                    a.depth
                },
                !down.0,
                b.next_state_id,
            )
    }
}

/// How the walk ends from `last`, the state after its last full round
/// (`moved` when there was one), in `fin` with result `r`: a pattern finished
/// in that round; or, leaving a node with no next sibling and no parent, the
/// walk is over (ended with finished patterns there before, done with none);
/// or the node the walk enters starts past the range.
pub open spec fn spec_walk_end(last: TSQueryCursor, fin: TSQueryCursor, r: u8, moved: bool) -> bool {
    let s = cursor_steps(last);
    let l = (last.cursor->0).tree.language;
    ||| moved && fin == last && last.finished_states.contents@.len() > 0 && r == WALK_FOUND
    ||| {
        &&& last.ascending
        &&& spec_next_sibling(l, s, s.len() as int, s.len() as int) is None
        &&& spec_shown_step(l, s, s.len() - 2) < 0
        &&& walk_moved(
            last,
            fin,
            s,
            last.states.contents@.filter(|st: QueryState| !needs_inside(last, st)),
            last.finished_states.contents@,
            last.depth,
            true,
            last.next_state_id,
        )
        &&& r == (if last.finished_states.contents@.len() > 0 {
            if moved {
                WALK_FOUND
            } else {
                WALK_ENDED
            }
        } else {
            WALK_DONE
        })
    }
    ||| !last.ascending && !spec_walk_before_range(last) && spec_walk_after_range(last) && fin == last && r
        == WALK_DONE
}

/// Whether `trace` is a walk from its first state: each round follows
/// `spec_walk_step`, and no round but possibly the last finished a pattern.
pub open spec fn spec_walk_trace(trace: Seq<TSQueryCursor>) -> bool {
    &&& trace.len() >= 1
    &&& forall|i: int| 0 <= i < trace.len() - 1 ==> #[trigger] spec_walk_step(trace[i], trace[i + 1])
    &&& forall|i: int| 1 <= i < trace.len() - 1 ==> (#[trigger] trace[i]).finished_states.contents@.len() == 0
}

/// Whether the walk from `old` ends in `new` with result `w` (see
/// `spec_walk_trace` and `spec_walk_end`).
pub open spec fn spec_walk(old: TSQueryCursor, new: TSQueryCursor, w: u8) -> bool {
    exists|trace: Seq<TSQueryCursor>|
        #[trigger] spec_walk_trace(trace) && trace[0] == old && spec_walk_end(trace.last(), new, w, trace.len() > 1)
}

/// How a walk of `advance_walk` ended: nothing more to find, a pattern
/// finished after the walk moved on, or the walk was over and there were
/// finished patterns already.
pub const WALK_DONE: u8 = 0;
pub const WALK_FOUND: u8 = 1;
pub const WALK_ENDED: u8 = 2;

/// Walks the tree depth-first. Entering a node within the range, it starts
/// the patterns that can start there (see `add_new_states`) and moves the
/// others on (see `update_states`); before the range it skips the node;
/// past the range it stops. Leaving a node, it ends the states that had to
/// match within it (see `drop_states_inside`). It goes on until a pattern
/// finishes (`WALK_FOUND`), past the range or to the end of the walk
/// (`WALK_DONE`), or, with finished patterns there already, to the end
/// (`WALK_ENDED`).
#[verifier::rlimit(50)]
fn advance_walk(self_0: &mut TSQueryCursor) -> (r: u8)
    requires
        query_cursor_wf(*old(self_0)),
    ensures
        query_cursor_wf(*final(self_0)),
        r == WALK_DONE || r == WALK_FOUND || r == WALK_ENDED,
        r == WALK_FOUND ==> final(self_0).finished_states.contents@.len() > 0 && walked_past(
            *final(self_0),
            *old(self_0),
        ),
        r == WALK_ENDED ==> final(self_0).finished_states.contents@.len() > 0 && walk_measure(
            *final(self_0),
        ) == walk_measure(*old(self_0)),
        spec_walk(*old(self_0), *final(self_0), r),
        final(self_0).query == old(self_0).query,
        final(self_0).start_byte == old(self_0).start_byte,
        final(self_0).end_byte == old(self_0).end_byte,
        final(self_0).start_point == old(self_0).start_point,
        final(self_0).end_point == old(self_0).end_point,
        (final(self_0).cursor->0).tree == (old(self_0).cursor->0).tree,
{
    let ghost c0 = *self_0;
    let ghost mut trace: Seq<TSQueryCursor> = seq![c0];
    let mut moved = false;
    let query = self_0.query.unwrap();
    loop
        invariant
            query_cursor_wf(*self_0),
            self_0.query == c0.query,
            self_0.start_byte == c0.start_byte,
            self_0.end_byte == c0.end_byte,
            self_0.start_point == c0.start_point,
            self_0.end_point == c0.end_point,
            (self_0.cursor->0).tree == (c0.cursor->0).tree,
            (self_0.cursor->0).root_path@ == (c0.cursor->0).root_path@,
            moved ==> walked_past(*self_0, c0),
            !moved ==> walk_measure(*self_0) == walk_measure(c0) && self_0.finished_states == c0.finished_states,
            c0 == *old(self_0),
            Some(query) == self_0.query,
            spec_walk_trace(trace),
            trace[0] == c0,
            trace.last() == *self_0,
            moved == (trace.len() > 1),
            moved ==> self_0.finished_states.contents@.len() == 0,
        decreases walk_measure(*self_0).0, walk_measure(*self_0).1, walk_measure(*self_0).2,
    {
        let ghost before = *self_0;
        if self_0.ascending {
            drop_states_inside(self_0);
            if walk_next_sibling(self_0) {
                self_0.ascending = false;
            } else if walk_parent(self_0) {
                self_0.depth = self_0.depth.wrapping_sub(1);
            } else {
                let ghost fin = *self_0;
                let result = if self_0.finished_states.contents.len() > 0 {
                    if !moved {
                        WALK_ENDED
                    } else {
                        WALK_FOUND
                    }
                } else {
                    WALK_DONE
                };
                proof {
                    assert(spec_walk_end(trace.last(), fin, result, trace.len() > 1));
                }
                return result;
            }
        } else {
            let c = self_0.cursor.as_ref().unwrap();
            let mut has_later_siblings = false;
            let mut can_have_later_siblings_with_this_field = false;
            let field_id = ts_tree_cursor_current_status(
                c,
                &mut has_later_siblings,
                &mut can_have_later_siblings_with_this_field,
            );
            let node = ts_tree_cursor_current_node(c);
            let mut symbol = ts_node_symbol(&node);
            let is_named = ts_node_is_named(&node);
            if symbol != 65535 && (symbol as usize) < query.symbol_map.len() {
                symbol = query.symbol_map[symbol as usize];
            }
            let ghost f = NodeFacts {
                symbol,
                is_named,
                field_id,
                has_later_siblings,
                can_have_later_siblings_with_this_field,
            };
            proof {
                assert(f == spec_walk_facts(before));
            }
            if ts_node_end_byte(&node) <= self_0.start_byte || point_lte(
                ts_node_end_point(&node),
                self_0.start_point,
            ) {
                proof {
                    assert(spec_walk_before_range(before));
                }
                if !walk_next_sibling(self_0) {
                    self_0.ascending = true;
                }
            } else {
                if self_0.end_byte <= ts_node_start_byte(&node) || point_lte(
                    self_0.end_point,
                    ts_node_start_point(&node),
                ) {
                    proof {
                        assert(!spec_walk_before_range(before));
                        assert(spec_walk_after_range(before));
                        assert(spec_walk_end(trace.last(), *self_0, WALK_DONE, trace.len() > 1));
                    }
                    return WALK_DONE;
                }
                proof {
                    assert(!spec_walk_before_range(before));
                    assert(!spec_walk_after_range(before));
                }
                add_new_states(self_0, symbol, field_id);
                let ghost mid = *self_0;
                proof {
                    assert(f.symbol == symbol && f.field_id == field_id);
                    if pattern_map_sorted(*(before.query->0)) {
                        let m = choose|m: int| #[trigger] spec_started(before, mid, symbol, field_id, m);
                        assert(spec_started(before, mid, f.symbol, f.field_id, m));
                    }
                    assert(pattern_map_sorted(*(before.query->0)) ==> exists|m: int| #[trigger] spec_started(before, mid, f.symbol, f.field_id, m));
                }
                update_states(
                    self_0,
                    &node,
                    symbol,
                    is_named,
                    field_id,
                    has_later_siblings,
                    can_have_later_siblings_with_this_field,
                );
                let ghost updated = *self_0;
                if walk_first_child(self_0) {
                    self_0.depth = self_0.depth.wrapping_add(1);
                } else {
                    self_0.ascending = true;
                }
                proof {
                    let b = *self_0;
                    assert(pattern_map_sorted(*(before.query->0)) ==> exists|m: int| #[trigger] spec_started(before, mid, f.symbol, f.field_id, m));
                    assert(mid.finished_states == before.finished_states);
                    assert(mid.next_state_id == before.next_state_id);
                    assert(mid.query == before.query);
                    assert(mid.depth == before.depth);
                    assert(exists|copied: Seq<bool>| #[trigger] spec_updated(mid, updated, f, copied));
                    assert(walk_entered(before, mid, updated, f));
                    assert(spec_updated(mid, b, f, choose|copied: Seq<bool>| #[trigger] spec_updated(mid, updated, f, copied)));
                    assert(walk_entered(before, mid, b, spec_walk_facts(before)));
                }
            }
        }
        proof {
            assert(walked_past(*self_0, before));
            assert(spec_walk_step(before, *self_0));
            let t2 = trace.push(*self_0);
            assert forall|i: int| 0 <= i < t2.len() - 1 implies #[trigger] spec_walk_step(t2[i], t2[i + 1]) by {
                if i < trace.len() - 1 {
                    assert(t2[i] == trace[i] && t2[i + 1] == trace[i + 1]);
                } else {
                    assert(t2[i] == before);
                }
            }
            assert forall|i: int| 1 <= i < t2.len() - 1 implies (#[trigger] t2[i]).finished_states.contents@.len() == 0 by {
                assert(t2[i] == trace[i]);
            }
            assert(spec_walk_trace(t2));
            trace = t2;
        }
        moved = true;
        if self_0.finished_states.contents.len() > 0 {
            proof {
                assert(spec_walk_end(trace.last(), *self_0, WALK_FOUND, trace.len() > 1));
            }
            return WALK_FOUND;
        }
    }
}

/// Walks the tree until a pattern finishes (see `advance_walk`): `true`
/// when there are finished patterns.
fn ts_query_cursor__advance(self_0: &mut TSQueryCursor) -> (r: bool)
    requires
        query_cursor_wf(*old(self_0)),
    ensures
        query_cursor_wf(*final(self_0)),
        r ==> final(self_0).finished_states.contents@.len() > 0,
        !r ==> final(self_0).finished_states.contents@.len() == 0 || (!final(self_0).ascending
            && spec_walk_after_range(*final(self_0))),
        exists|w: u8| #[trigger] spec_walk(*old(self_0), *final(self_0), w) && r == (w != WALK_DONE),
        final(self_0).query == old(self_0).query,
        final(self_0).start_byte == old(self_0).start_byte,
        final(self_0).end_byte == old(self_0).end_byte,
        final(self_0).start_point == old(self_0).start_point,
        final(self_0).end_point == old(self_0).end_point,
{
    let ghost c0 = *self_0;
    let w = advance_walk(self_0);
    proof {
        if w == WALK_DONE {
            let trace = choose|trace: Seq<TSQueryCursor>|
                #[trigger] spec_walk_trace(trace) && trace[0] == c0 && spec_walk_end(
                    trace.last(),
                    *self_0,
                    w,
                    trace.len() > 1,
                );
            let last = trace.last();
            if last.ascending && spec_walk_end(last, *self_0, w, trace.len() > 1) && !(!last.ascending
                && !spec_walk_before_range(last) && spec_walk_after_range(last) && *self_0 == last) {
                assert(last.finished_states.contents@.len() == 0);
            }
        }
    }
    w != WALK_DONE
}

/// Whether `m` reports finished state `s`, whose captures were `captures`.
pub open spec fn reports(m: TSQueryMatch, s: QueryState, captures: Seq<TSQueryCapture>) -> bool {
    &&& m.id == s.id
    &&& m.pattern_index == s.pattern_index
    &&& m.capture_count == s.capture_count
    &&& m.captures@.len() == captures.len()
    &&& forall|i: int| 0 <= i < captures.len() ==> same_capture(#[trigger] m.captures@[i], captures[i])
}

proof fn lemma_finished_holds(c: TSQueryCursor, i: int)
    requires
        query_cursor_wf(c),
        0 <= i < c.finished_states.contents@.len(),
    ensures
        holds_list(c.finished_states.contents@[i], c.capture_list_pool.usage_map, c.capture_list_pool.list@),
        all_states(c)[c.states.contents@.len() + i] == c.finished_states.contents@[i],
{
    assert(all_states(c)[c.states.contents@.len() + i] == c.finished_states.contents@[i]);
}

/// Hands out finished state `i` as a match: its captures are copied out, and
/// it gives back its capture list and leaves.
fn take_finished<'q, 't, 'l>(self_0: &mut TSQueryCursor<'q, 't, 'l>, i: usize, match_0: &mut TSQueryMatch<'t, 'l>)
    requires
        query_cursor_wf(*old(self_0)),
        i < old(self_0).finished_states.contents@.len(),
    ensures
        query_cursor_wf(*final(self_0)),
        reports(
            *final(match_0),
            old(self_0).finished_states.contents@[i as int],
            old(self_0).capture_list_pool.list@[old(self_0).finished_states.contents@[i as int].capture_list_id as int]@,
        ),
        final(self_0).finished_states.contents@ == old(self_0).finished_states.contents@.remove(i as int),
        final(self_0).states == old(self_0).states,
        final(self_0).cursor == old(self_0).cursor,
        final(self_0).ascending == old(self_0).ascending,
        final(self_0).query == old(self_0).query,
        final(self_0).start_byte == old(self_0).start_byte,
        final(self_0).end_byte == old(self_0).end_byte,
        final(self_0).start_point == old(self_0).start_point,
        final(self_0).end_point == old(self_0).end_point,
{
    let ghost c0 = *self_0;
    let state = self_0.finished_states.contents[i];
    proof {
        lemma_finished_holds(c0, i as int);
    }
    match_0.id = state.id;
    match_0.pattern_index = state.pattern_index;
    match_0.capture_count = state.capture_count;
    match_0.captures = copy_captures(&self_0.capture_list_pool.list[state.capture_list_id as usize]);
    capture_list_pool_release(&mut self_0.capture_list_pool, state.capture_list_id);
    array__erase(&mut self_0.finished_states, i as u32);
    proof {
        let c = *self_0;
        let k = c0.states.contents@.len() + i;
        assert(all_states(c) =~= all_states(c0).remove(k));
        lemma_hold_remove(
            all_states(c0),
            c0.capture_list_pool.usage_map,
            c0.capture_list_pool.list@,
            k,
            c.capture_list_pool.usage_map,
        );
    }
}

/// The next match: the first finished pattern, walking the tree for more
/// (see `advance_walk`) when there is none; `false` when there is no more.
/// The match's state gives back its capture list and leaves.
pub fn ts_query_cursor_next_match<'q, 't, 'l>(
    self_0: &mut TSQueryCursor<'q, 't, 'l>,
    match_0: &mut TSQueryMatch<'t, 'l>,
) -> (r: bool)
    requires
        query_cursor_wf(*old(self_0)),
    ensures
        query_cursor_wf(*final(self_0)),
        old(self_0).finished_states.contents@.len() > 0 ==> {
            &&& r
            &&& reports(
                *final(match_0),
                old(self_0).finished_states.contents@[0],
                old(self_0).capture_list_pool.list@[old(self_0).finished_states.contents@[0].capture_list_id as int]@,
            )
            &&& final(self_0).finished_states.contents@ == old(self_0).finished_states.contents@.remove(0)
            &&& final(self_0).states == old(self_0).states
            &&& final(self_0).cursor == old(self_0).cursor
        },
        old(self_0).finished_states.contents@.len() == 0 ==> exists|walked: TSQueryCursor, w: u8|
            #[trigger] spec_walk(*old(self_0), walked, w) && if w == WALK_DONE {
                !r && *final(self_0) == walked
            } else {
                &&& r
                &&& reports(
                    *final(match_0),
                    walked.finished_states.contents@[0],
                    walked.capture_list_pool.list@[walked.finished_states.contents@[0].capture_list_id as int]@,
                )
                &&& final(self_0).finished_states.contents@ == walked.finished_states.contents@.remove(0)
                &&& final(self_0).states == walked.states
                &&& final(self_0).cursor == walked.cursor
            },
        r ==> final(match_0).captures@.len() == final(match_0).capture_count,
        !r ==> *final(match_0) == *old(match_0),
        final(self_0).query == old(self_0).query,
        final(self_0).start_byte == old(self_0).start_byte,
        final(self_0).end_byte == old(self_0).end_byte,
        final(self_0).start_point == old(self_0).start_point,
        final(self_0).end_point == old(self_0).end_point,
{
    let ghost c0 = *self_0;
    if self_0.finished_states.contents.len() == 0 {
        if !ts_query_cursor__advance(self_0) {
            return false;
        }
    }
    let ghost walked = *self_0;
    proof {
        lemma_finished_holds(*self_0, 0);
    }
    take_finished(self_0, 0, match_0);
    true
}

/// Whether finished state `i` is the first with the id `id`.
pub open spec fn first_with_id(s: Seq<QueryState>, id: u32, i: int) -> bool {
    &&& 0 <= i < s.len()
    &&& s[i].id == id
    &&& forall|j: int| 0 <= j < i ==> (#[trigger] s[j]).id != id
}

/// Drops the first finished match with the id `match_id`, giving back its
/// capture list; nothing changes when there is none.
pub fn ts_query_cursor_remove_match(self_0: &mut TSQueryCursor, match_id: u32)
    requires
        query_cursor_wf(*old(self_0)),
    ensures
        query_cursor_wf(*final(self_0)),
        (forall|j: int|
            0 <= j < old(self_0).finished_states.contents@.len() ==> (#[trigger] old(
                self_0,
            ).finished_states.contents@[j]).id != match_id) ==> *final(self_0) == *old(self_0),
        forall|i: int|
            first_with_id(old(self_0).finished_states.contents@, match_id, i)
                ==> #[trigger] old(self_0).finished_states.contents@.remove(i)
                == final(self_0).finished_states.contents@,
        final(self_0).states == old(self_0).states,
        final(self_0).query == old(self_0).query,
        final(self_0).start_byte == old(self_0).start_byte,
        final(self_0).end_byte == old(self_0).end_byte,
        final(self_0).start_point == old(self_0).start_point,
        final(self_0).end_point == old(self_0).end_point,
{
    let ghost c0 = *self_0;
    let n = self_0.finished_states.contents.len();
    let mut i: usize = 0;
    while i < n
        invariant
            *self_0 == c0,
            c0 == *old(self_0),
            query_cursor_wf(c0),
            n == c0.finished_states.contents@.len(),
            i <= n,
            forall|j: int| 0 <= j < i ==> (#[trigger] c0.finished_states.contents@[j]).id != match_id,
        decreases n - i,
    {
        let state = self_0.finished_states.contents[i];
        if state.id == match_id {
            proof {
                lemma_finished_holds(c0, i as int);
            }
            capture_list_pool_release(&mut self_0.capture_list_pool, state.capture_list_id);
            array__erase(&mut self_0.finished_states, i as u32);
            proof {
                let c = *self_0;
                let k = c0.states.contents@.len() + i;
                assert(all_states(c) =~= all_states(c0).remove(k));
                lemma_hold_remove(
                    all_states(c0),
                    c0.capture_list_pool.usage_map,
                    c0.capture_list_pool.list@,
                    k,
                    c.capture_list_pool.usage_map,
                );
                assert forall|m: int| first_with_id(c0.finished_states.contents@, match_id, m) implies m == i by {
                    if m < i {
                        assert(c0.finished_states.contents@[m].id != match_id);
                    } else if m > i {
                        assert(c0.finished_states.contents@[i as int].id != match_id);
                    }
                }
            }
            return;
        }
        i = i + 1;
    }
}

/// Whether a state has captures it has not handed out yet.
pub open spec fn has_captures_left(s: QueryState) -> bool {
    s.capture_count > s.consumed_capture_count
}

/// The finished states with captures left, in their order.
pub open spec fn with_captures_left(s: Seq<QueryState>) -> Seq<QueryState>
    decreases s.len(),
{
    if s.len() == 0 {
        s
    } else {
        let rest = with_captures_left(s.drop_last());
        if has_captures_left(s.last()) {
            rest.push(s.last())
        } else {
            rest
        }
    }
}

/// The start byte of the next capture a state hands out.
pub open spec fn next_capture_byte(c: TSQueryCursor, s: QueryState) -> u32 {
    spec_node_start(c.capture_list_pool.list@[s.capture_list_id as int]@[s.consumed_capture_count as int].node).bytes
}

/// Whether a state's next capture is due: it has one, and it comes before
/// (by byte, then pattern) the first capture of every state in progress.
pub open spec fn capture_due(c: TSQueryCursor, s: QueryState) -> bool {
    &&& has_captures_left(s)
    &&& forall|j: int|
        0 <= j < c.states.contents@.len() && (#[trigger] c.states.contents@[j]).capture_count > 0
            ==> capture_before(
            next_capture_byte(c, s),
            s.pattern_index as u32,
            spec_first_capture_byte(c, c.states.contents@[j]),
            c.states.contents@[j].pattern_index as u32,
        )
}

/// Whether some finished state has a capture due.
pub open spec fn some_capture_due(c: TSQueryCursor) -> bool {
    let u = with_captures_left(c.finished_states.contents@);
    exists|k: int| 0 <= k < u.len() && capture_due(c, #[trigger] u[k])
}

/// Whether state `k` of `u` is the one whose capture is handed out: its
/// capture is due, no state of `u` has an earlier next capture, and every
/// state before it has a later one.
pub open spec fn first_due_capture(c: TSQueryCursor, u: Seq<QueryState>, k: int) -> bool {
    &&& 0 <= k < u.len()
    &&& capture_due(c, u[k])
    &&& forall|j: int|
        0 <= j < u.len() ==> !capture_before(
            next_capture_byte(c, #[trigger] u[j]),
            u[j].pattern_index as u32,
            next_capture_byte(c, u[k]),
            u[k].pattern_index as u32,
        )
    &&& forall|j: int|
        0 <= j < k ==> capture_before(
            next_capture_byte(c, u[k]),
            u[k].pattern_index as u32,
            next_capture_byte(c, #[trigger] u[j]),
            u[j].pattern_index as u32,
        )
}

/// A state that has handed out one more capture.
pub open spec fn consumed_one(s: QueryState) -> QueryState {
    QueryState { consumed_capture_count: (s.consumed_capture_count + 1) as u16, ..s }
}

proof fn lemma_captures_left_remove(s: Seq<QueryState>, i: int)
    requires
        0 <= i < s.len(),
        !has_captures_left(s[i]),
    ensures
        with_captures_left(s.remove(i)) == with_captures_left(s),
    decreases s.len(),
{
    if i == s.len() - 1 {
        assert(s.remove(i) =~= s.drop_last());
    } else {
        let r = s.remove(i);
        assert(r.drop_last() =~= s.drop_last().remove(i));
        assert(r.last() == s.last());
        lemma_captures_left_remove(s.drop_last(), i);
    }
}

proof fn lemma_captures_left_all(s: Seq<QueryState>)
    requires
        forall|j: int| 0 <= j < s.len() ==> has_captures_left(#[trigger] s[j]),
    ensures
        with_captures_left(s) == s,
    decreases s.len(),
{
    if s.len() > 0 {
        let d = s.drop_last();
        assert forall|j: int| 0 <= j < d.len() implies has_captures_left(#[trigger] d[j]) by {
            assert(d[j] == s[j]);
        }
        lemma_captures_left_all(d);
        assert(has_captures_left(s[s.len() - 1]));
        assert(d.push(s.last()) =~= s);
    }
}

/// What a round of `ts_query_cursor_next_capture` that hands out no capture
/// leaves of `c` in `m` before it walks on: the finished states that have
/// captures left, in their order; the states in progress as they were, or,
/// where there were finished states, without the one whose first capture
/// comes first (the first one where no state has a capture); and the walk
/// where it was. A state is dropped only when no capture list was free after
/// the finished states gave theirs back, which this does not state; without
/// a drop, a list is free or there is no state in progress.
pub open spec fn capture_tidied(c: TSQueryCursor, m: TSQueryCursor) -> bool {
    &&& m.finished_states.contents@ == with_captures_left(c.finished_states.contents@)
    &&& m.query == c.query
    &&& m.cursor == c.cursor
    &&& m.depth == c.depth
    &&& m.ascending == c.ascending
    &&& m.next_state_id == c.next_state_id
    &&& m.start_byte == c.start_byte
    &&& m.end_byte == c.end_byte
    &&& m.start_point == c.start_point
    &&& m.end_point == c.end_point
    &&& {
        ||| m.states.contents@ == c.states.contents@ && (c.finished_states.contents@.len() > 0
            ==> m.capture_list_pool.usage_map != 0 || c.states.contents@.len() == 0)
        ||| c.finished_states.contents@.len() > 0 && some_in_progress_capture(c) && exists|j: int|
            is_first_in_progress(c, j) && m.states.contents@ == #[trigger] c.states.contents@.remove(j)
        ||| c.finished_states.contents@.len() > 0 && !some_in_progress_capture(c)
            && c.states.contents@.len() > 0 && m.states.contents@ == c.states.contents@.remove(0)
    }
}

/// One round of `ts_query_cursor_next_capture` that hands out nothing: no
/// capture of `c` is due, `c` is tidied into `m`, and the walk from `m`
/// reaches `next` with result `w`.
pub open spec fn capture_round(c: TSQueryCursor, m: TSQueryCursor, next: TSQueryCursor, w: u8) -> bool {
    &&& !some_capture_due(c)
    &&& capture_tidied(c, m)
    &&& spec_walk(m, next, w)
}

/// Whether `t` are the states at the start of each round of
/// `ts_query_cursor_next_capture`, `mids` the states each round walked from:
/// every walk found a finished pattern, but the last, which ended the walk
/// where `ended`.
pub open spec fn capture_rounds(t: Seq<TSQueryCursor>, mids: Seq<TSQueryCursor>, ended: bool) -> bool {
    &&& t.len() == mids.len() + 1
    &&& forall|i: int|
        0 <= i < mids.len() ==> capture_round(
            t[i],
            #[trigger] mids[i],
            t[i + 1],
            if ended && i == mids.len() - 1 {
                WALK_ENDED
            } else {
                WALK_FOUND
            },
        )
}

/// How the last round, from `last`, ends in `fin`: the first due capture is
/// handed out as `m` and `index`; or, with none due, `false`, after tidying
/// when the walk had ended, else after a walk that found nothing more.
pub open spec fn capture_outcome(
    last: TSQueryCursor,
    fin: TSQueryCursor,
    m: TSQueryMatch,
    index: u32,
    r: bool,
    ended: bool,
) -> bool {
    if some_capture_due(last) {
        let u = with_captures_left(last.finished_states.contents@);
        &&& r
        &&& exists|k: int|
            #[trigger] first_due_capture(last, u, k) && {
                &&& reports(m, u[k], last.capture_list_pool.list@[u[k].capture_list_id as int]@)
                &&& index == u[k].consumed_capture_count
                &&& fin.finished_states.contents@ == u.update(k, consumed_one(u[k]))
            }
        &&& fin.states == last.states
        &&& fin.cursor == last.cursor
    } else if ended {
        !r && capture_tidied(last, fin)
    } else {
        !r && exists|mid: TSQueryCursor| capture_tidied(last, mid) && #[trigger] spec_walk(mid, fin, WALK_DONE)
    }
}

/// The next capture, in the order of the document: among the finished
/// patterns, the first whose next capture comes first (by byte, then
/// pattern), provided it comes before the first capture of every pattern in
/// progress; its match, and the capture's index in it, are handed out.
/// Finished patterns with no capture left give back their lists and leave;
/// when every list is in use, the pattern in progress whose first capture
/// comes first ends. Otherwise the tree is walked for more (see
/// `advance_walk`); `false` when there is no more, or when the walk is over
/// and no finished capture can be handed out.
pub fn ts_query_cursor_next_capture<'q, 't, 'l>(
    self_0: &mut TSQueryCursor<'q, 't, 'l>,
    match_0: &mut TSQueryMatch<'t, 'l>,
    capture_index: &mut u32,
) -> (r: bool)
    requires
        query_cursor_wf(*old(self_0)),
    ensures
        query_cursor_wf(*final(self_0)),
        r ==> final(match_0).captures@.len() == final(match_0).capture_count,
        r ==> *final(capture_index) < final(match_0).capture_count,
        some_capture_due(*old(self_0)) ==> {
            let u = with_captures_left(old(self_0).finished_states.contents@);
            &&& r
            &&& exists|k: int|
                #[trigger] first_due_capture(*old(self_0), u, k) && {
                    &&& reports(
                        *final(match_0),
                        u[k],
                        old(self_0).capture_list_pool.list@[u[k].capture_list_id as int]@,
                    )
                    &&& *final(capture_index) == u[k].consumed_capture_count
                    &&& final(self_0).finished_states.contents@ == u.update(k, consumed_one(u[k]))
                }
            &&& final(self_0).states == old(self_0).states
            &&& final(self_0).cursor == old(self_0).cursor
        },
        exists|t: Seq<TSQueryCursor>, mids: Seq<TSQueryCursor>, ended: bool|
            #[trigger] capture_rounds(t, mids, ended) && t[0] == *old(self_0) && capture_outcome(
                t.last(),
                *final(self_0),
                *final(match_0),
                *final(capture_index),
                r,
                ended,
            ),
        final(self_0).query == old(self_0).query,
        final(self_0).start_byte == old(self_0).start_byte,
        final(self_0).end_byte == old(self_0).end_byte,
        final(self_0).start_point == old(self_0).start_point,
        final(self_0).end_point == old(self_0).end_point,
{
    let ghost c0 = *self_0;
    let mut walk_ended = false;
    let ghost mut fresh = true;
    let ghost mut rounds: Seq<TSQueryCursor> = seq![c0];
    let ghost mut mids: Seq<TSQueryCursor> = Seq::empty();
    loop
        invariant
            query_cursor_wf(*self_0),
            self_0.query == c0.query,
            self_0.start_byte == c0.start_byte,
            self_0.end_byte == c0.end_byte,
            self_0.start_point == c0.start_point,
            self_0.end_point == c0.end_point,
            c0 == *old(self_0),
            fresh ==> *self_0 == c0,
            !fresh ==> !some_capture_due(c0),
            capture_rounds(rounds, mids, walk_ended),
            rounds[0] == c0,
            rounds.last() == *self_0,
            fresh ==> mids.len() == 0,
        decreases walk_measure(*self_0).0, walk_measure(*self_0).1, walk_measure(*self_0).2, if walk_ended {
            0nat
        } else {
            1nat
        },
    {
        let ghost before = *self_0;
        if self_0.finished_states.contents.len() > 0 {
            let mut first_unfinished_capture_byte: u32 = 4294967295;
            let mut first_unfinished_pattern_index: u32 = 4294967295;
            let mut first_unfinished_state_index: u32 = 0;
            let has_first = ts_query_cursor__first_in_progress_capture(
                self_0,
                &mut first_unfinished_state_index,
                &mut first_unfinished_capture_byte,
                &mut first_unfinished_pattern_index,
            );
            let ghost fub = first_unfinished_capture_byte;
            let ghost fup = first_unfinished_pattern_index;
            proof {
                assert forall|st: QueryState| #[trigger] has_captures_left(st) implies capture_before(
                    next_capture_byte(before, st),
                    st.pattern_index as u32,
                    fub,
                    fup,
                ) == capture_due(before, st) by {
                    if some_in_progress_capture(before) {
                        let m = first_unfinished_state_index as int;
                        let sm = before.states.contents@[m];
                        if capture_before(next_capture_byte(before, st), st.pattern_index as u32, fub, fup) {
                            assert forall|j: int|
                                0 <= j < before.states.contents@.len()
                                    && (#[trigger] before.states.contents@[j]).capture_count > 0 implies capture_before(
                                next_capture_byte(before, st),
                                st.pattern_index as u32,
                                spec_first_capture_byte(before, before.states.contents@[j]),
                                before.states.contents@[j].pattern_index as u32,
                            ) by {
                                assert(!capture_before(
                                    spec_first_capture_byte(before, before.states.contents@[j]),
                                    before.states.contents@[j].pattern_index as u32,
                                    spec_first_capture_byte(before, sm),
                                    sm.pattern_index as u32,
                                ));
                            }
                        }
                        if capture_due(before, st) {
                            assert(before.states.contents@[m].capture_count > 0);
                        }
                    }
                }
            }
            let mut first_finished: Option<usize> = None;
            let mut first_finished_capture_byte = first_unfinished_capture_byte;
            let mut first_finished_pattern_index = first_unfinished_pattern_index;
            let mut i: usize = 0;
            while i < self_0.finished_states.contents.len()
                invariant
                    query_cursor_wf(*self_0),
                    self_0.query == c0.query,
                    self_0.start_byte == c0.start_byte,
                    self_0.end_byte == c0.end_byte,
                    self_0.start_point == c0.start_point,
                    self_0.end_point == c0.end_point,
                    self_0.cursor == before.cursor,
                    self_0.ascending == before.ascending,
                    self_0.depth == before.depth,
                    self_0.next_state_id == before.next_state_id,
                    self_0.states == before.states,
                    self_0.capture_list_pool.list == before.capture_list_pool.list,
                    i <= self_0.finished_states.contents@.len(),
                    with_captures_left(self_0.finished_states.contents@) == with_captures_left(
                        before.finished_states.contents@,
                    ),
                    forall|j: int| 0 <= j < i ==> has_captures_left(#[trigger] self_0.finished_states.contents@[j]),
                    forall|st: QueryState| #[trigger] has_captures_left(st) ==> capture_before(
                        next_capture_byte(before, st),
                        st.pattern_index as u32,
                        fub,
                        fup,
                    ) == capture_due(before, st),
                    match first_finished {
                        Some(k) => {
                            let f = self_0.finished_states.contents@;
                            &&& k < i
                            &&& has_captures_left(f[k as int])
                            &&& first_finished_capture_byte == next_capture_byte(before, f[k as int])
                            &&& first_finished_pattern_index == f[k as int].pattern_index as u32
                            &&& capture_before(first_finished_capture_byte, first_finished_pattern_index, fub, fup)
                            &&& forall|j: int|
                                0 <= j < i ==> !capture_before(
                                    next_capture_byte(before, #[trigger] f[j]),
                                    f[j].pattern_index as u32,
                                    first_finished_capture_byte,
                                    first_finished_pattern_index,
                                )
                            &&& forall|j: int|
                                0 <= j < k ==> capture_before(
                                    first_finished_capture_byte,
                                    first_finished_pattern_index,
                                    next_capture_byte(before, #[trigger] f[j]),
                                    f[j].pattern_index as u32,
                                )
                        },
                        None => {
                            let f = self_0.finished_states.contents@;
                            &&& first_finished_capture_byte == fub
                            &&& first_finished_pattern_index == fup
                            &&& forall|j: int|
                                0 <= j < i ==> !capture_before(
                                    next_capture_byte(before, #[trigger] f[j]),
                                    f[j].pattern_index as u32,
                                    fub,
                                    fup,
                                )
                        },
                    },
                decreases self_0.finished_states.contents@.len() - i,
            {
                let state = self_0.finished_states.contents[i];
                if state.capture_count > state.consumed_capture_count {
                    proof {
                        lemma_finished_holds(*self_0, i as int);
                    }
                    let captures = &self_0.capture_list_pool.list[state.capture_list_id as usize];
                    let capture_byte = ts_node_start_byte(&captures[state.consumed_capture_count as usize].node);
                    proof {
                        assert(capture_byte == next_capture_byte(before, state));
                    }
                    if capture_byte < first_finished_capture_byte || (capture_byte
                        == first_finished_capture_byte && (state.pattern_index as u32)
                        < first_finished_pattern_index) {
                        first_finished = Some(i);
                        first_finished_capture_byte = capture_byte;
                        first_finished_pattern_index = state.pattern_index as u32;
                    }
                    i = i + 1;
                } else {
                    let ghost c1 = *self_0;
                    proof {
                        lemma_finished_holds(c1, i as int);
                        lemma_captures_left_remove(c1.finished_states.contents@, i as int);
                    }
                    capture_list_pool_release(&mut self_0.capture_list_pool, state.capture_list_id);
                    array__erase(&mut self_0.finished_states, i as u32);
                    proof {
                        let c = *self_0;
                        let k = c1.states.contents@.len() + i;
                        assert(all_states(c) =~= all_states(c1).remove(k));
                        lemma_hold_remove(
                            all_states(c1),
                            c1.capture_list_pool.usage_map,
                            c1.capture_list_pool.list@,
                            k,
                            c.capture_list_pool.usage_map,
                        );
                        assert(c.finished_states.contents@ == c1.finished_states.contents@.remove(i as int));
                        assert forall|j: int| 0 <= j < i implies #[trigger] c.finished_states.contents@[j]
                            == c1.finished_states.contents@[j] by {}
                        match first_finished {
                            Some(f) => {
                                assert(c.finished_states.contents@[f as int] == c1.finished_states.contents@[f as int]);
                            },
                            None => {},
                        }
                    }
                }
            }
            proof {
                lemma_captures_left_all(self_0.finished_states.contents@);
            }
            match first_finished {
                Some(k) => {
                    let ghost c1 = *self_0;
                    let mut state = self_0.finished_states.contents[k];
                    proof {
                        lemma_finished_holds(c1, k as int);
                    }
                    match_0.id = state.id;
                    match_0.pattern_index = state.pattern_index;
                    match_0.capture_count = state.capture_count;
                    match_0.captures = copy_captures(&self_0.capture_list_pool.list[state.capture_list_id as usize]);
                    *capture_index = state.consumed_capture_count as u32;
                    state.consumed_capture_count = state.consumed_capture_count + 1;
                    self_0.finished_states.contents.set(k, state);
                    proof {
                        let c = *self_0;
                        let j = c1.states.contents@.len() + k;
                        assert(all_states(c) =~= all_states(c1).update(j, state));
                        lemma_hold_update(
                            all_states(c1),
                            c1.capture_list_pool.usage_map,
                            c1.capture_list_pool.list@,
                            j,
                            state,
                            c.capture_list_pool.list@,
                        );
                        let u = with_captures_left(before.finished_states.contents@);
                        assert(u == c1.finished_states.contents@);
                        assert(first_due_capture(before, u, k as int));
                        assert(c.finished_states.contents@ =~= u.update(k as int, consumed_one(u[k as int])));
                        assert(capture_due(before, u[k as int]));
                        assert(some_capture_due(before));
                        assert(capture_outcome(rounds.last(), c, *match_0, *capture_index, true, walk_ended));
                        assert(capture_rounds(rounds, mids, walk_ended));
                    }
                    return true;
                },
                None => {
                    proof {
                        let u = with_captures_left(before.finished_states.contents@);
                        assert(u == self_0.finished_states.contents@);
                        assert forall|k: int| 0 <= k < u.len() implies !capture_due(before, #[trigger] u[k]) by {
                            assert(has_captures_left(u[k]));
                        }
                    }
                },
            }
            let ghost c2 = *self_0;
            if capture_list_pool_is_empty(&self_0.capture_list_pool) && (first_unfinished_state_index as usize)
                < self_0.states.contents.len() {
                drop_state(self_0, first_unfinished_state_index as usize);
                proof {
                    if has_first {
                        assert(is_first_in_progress(before, first_unfinished_state_index as int));
                    }
                }
            }
        } else {
            proof {
                assert(with_captures_left(before.finished_states.contents@).len() == 0);
                assert(with_captures_left(before.finished_states.contents@) =~= before.finished_states.contents@);
            }
        }
        proof {
            fresh = false;
            assert(!some_capture_due(before));
            assert(capture_tidied(before, *self_0));
        }
        if walk_ended {
            proof {
                assert(capture_outcome(rounds.last(), *self_0, *match_0, *capture_index, false, walk_ended));
            }
            return false;
        }
        let ghost mid = *self_0;
        let outcome = advance_walk(self_0);
        if outcome == WALK_DONE {
            proof {
                assert(capture_outcome(rounds.last(), *self_0, *match_0, *capture_index, false, walk_ended));
            }
            return false;
        }
        let ghost old_ended = walk_ended;
        if outcome == WALK_ENDED {
            walk_ended = true;
        }
        proof {
            assert(walk_measure(mid) == walk_measure(before));
            let t2 = rounds.push(*self_0);
            let m2 = mids.push(mid);
            assert(!old_ended);
            assert forall|i: int| 0 <= i < m2.len() implies capture_round(
                t2[i],
                #[trigger] m2[i],
                t2[i + 1],
                if walk_ended && i == m2.len() - 1 {
                    WALK_ENDED
                } else {
                    WALK_FOUND
                },
            ) by {
                if i < mids.len() {
                    assert(m2[i] == mids[i]);
                    assert(t2[i] == rounds[i]);
                    assert(t2[i + 1] == rounds[i + 1]);
                }
            }
            rounds = t2;
            mids = m2;
        }
    }
}

} // verus!
