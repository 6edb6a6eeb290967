use vstd::prelude::*;

use crate::language::{TSLanguage, TSLexMode, TableEntry};
use crate::subtree::{
    spec_dynamic_precedence, spec_error_cost, spec_is_keyword, spec_leaf_parse_state,
    spec_leaf_symbol, spec_parse_state, spec_size, subtree_wf, ts_subtree_dynamic_precedence,
    ts_subtree_error_cost, ts_subtree_is_keyword, ts_subtree_leaf_parse_state,
    ts_subtree_leaf_symbol, ts_subtree_parse_state, ts_subtree_size, Subtree,
};
use crate::subtree_ops::{spec_subtree_compare, ts_subtree_compare};
use crate::reusable_node::{
    lemma_reusable_steps_wf, reusable_node_descend, reusable_node_tree, reusable_view, reusable_wf,
    ReusableEntry, ReusableNode,
};
use crate::subtree::{
    opt_view, spec_child_count, spec_children, spec_scanner_state_of, spec_symbol,
    ts_subtree_child_count, ts_subtree_external_scanner_state_eq, ts_subtree_retain,
    ts_subtree_symbol, SubtreeView,
};
use crate::subtree_balance::{lemma_set_children_wf, node_total};
use crate::subtree_build::{spec_set_children, ts_subtree_set_children};
use crate::subtree::{heap_data_clone, heap_view, lemma_views_of, views_of, SubtreeHeapData};
use std::rc::Rc;
use crate::language::{spec_table_entry, ts_language_table_entry};

verus! {

/// The settings of a parser that stand apart from its parse stack and
/// lexer: the grammar it parses with, and how long a parse may take.
pub struct TSParser<'l> {
    pub language: Option<&'l TSLanguage>,
    pub timeout_duration: crate::clock::TSDuration,
}

/// The oldest grammar version a parser accepts.
pub const TREE_SITTER_MIN_COMPATIBLE_LANGUAGE_VERSION: u32 = 9;

/// The newest grammar version a parser accepts.
pub const TREE_SITTER_LANGUAGE_VERSION: u32 = 11;

/// The grammar a parser parses with.
pub fn ts_parser_language<'l>(self_0: &TSParser<'l>) -> (r: Option<&'l TSLanguage>)
    ensures
        r == self_0.language,
{
    self_0.language
}

/// Gives a parser a grammar, or none: a grammar whose version is outside
/// the versions accepted is refused with `false`, and the parser keeps its
/// grammar.
pub fn ts_parser_set_language<'l>(self_0: &mut TSParser<'l>, language: Option<&'l TSLanguage>) -> (r: bool)
    ensures
        r == match language {
            Some(l) => TREE_SITTER_MIN_COMPATIBLE_LANGUAGE_VERSION <= l.version
                <= TREE_SITTER_LANGUAGE_VERSION,
            None => true,
        },
        r ==> final(self_0).language == language,
        !r ==> final(self_0).language == old(self_0).language,
        final(self_0).timeout_duration == old(self_0).timeout_duration,
{
    if let Some(l) = language {
        if l.version > TREE_SITTER_LANGUAGE_VERSION {
            return false;
        }
        if l.version < TREE_SITTER_MIN_COMPATIBLE_LANGUAGE_VERSION {
            return false;
        }
    }
    self_0.language = language;
    true
}

/// How long a parse may take, in microseconds (0 for no limit).
pub fn ts_parser_timeout_micros(self_0: &TSParser) -> (r: u64)
    ensures
        r == self_0.timeout_duration,
{
    crate::clock::duration_to_micros(self_0.timeout_duration)
}

/// Sets how long a parse may take, in microseconds (0 for no limit).
pub fn ts_parser_set_timeout_micros(self_0: &mut TSParser, timeout_micros: u64)
    ensures
        final(self_0).timeout_duration == timeout_micros,
        final(self_0).language == old(self_0).language,
{
    self_0.timeout_duration = crate::clock::duration_from_micros(timeout_micros);
}

/// How much more costly one version must be, per node since the error, to
/// be dropped for another.
pub const MAX_COST_DIFFERENCE: u32 = 1600;

/// How one version of a parse compares with another: take one and drop the
/// other, prefer one, or neither.
#[derive(Copy, Clone, Debug, PartialEq, Eq, Structural)]
pub enum ErrorComparison {
    TakeLeft,
    PreferLeft,
    Even,
    PreferRight,
    TakeRight,
}

/// The error status of a version of a parse: its error cost, the nodes since
/// its last error, its dynamic precedence, and whether it is in an error.
#[derive(Copy, Clone, Debug, PartialEq, Eq, Structural)]
pub struct ErrorStatus {
    pub cost: u32,
    pub node_count: u32,
    pub dynamic_precedence: i32,
    pub is_in_error: bool,
}

/// A source held in memory.
pub struct TSStringInput {
    pub string: Vec<u8>,
    pub length: u32,
}

/// The text of a string input from `byte` on, with its length; empty past
/// the end.
pub fn ts_string_input_read<'a>(self_0: &'a TSStringInput, byte: u32, length: &mut u32) -> (r: &'a [u8])
    requires
        self_0.length <= self_0.string@.len(),
    ensures
        byte >= self_0.length ==> r@.len() == 0 && *final(length) == 0,
        byte < self_0.length ==> r@ == self_0.string@.subrange(byte as int, self_0.string@.len() as int)
            && *final(length) == self_0.length - byte,
{
    if byte >= self_0.length {
        *length = 0;
        &[]
    } else {
        *length = self_0.length - byte;
        vstd::slice::slice_subrange(self_0.string.as_slice(), byte as usize, self_0.string.len())
    }
}

/// The cost difference, in 32-bit wrapping arithmetic, weighed by the nodes
/// since the error.
pub open spec fn spec_weighed(more: u32, less: u32, node_count: u32) -> u32 {
    (((more - less) as u32 as int * (1 + node_count as int) % 0x1_0000_0000) as nat) as u32
}

/// How two versions compare: one out of an error beats one in an error
/// (taken when it also costs less); else the cheaper one is preferred, and
/// taken when the difference, weighed by its nodes since the error, exceeds
/// `MAX_COST_DIFFERENCE`; else the one of higher dynamic precedence is
/// preferred.
pub open spec fn spec_compare_versions(a: ErrorStatus, b: ErrorStatus) -> ErrorComparison {
    if !a.is_in_error && b.is_in_error {
        if a.cost < b.cost {
            ErrorComparison::TakeLeft
        } else {
            ErrorComparison::PreferLeft
        }
    } else if a.is_in_error && !b.is_in_error {
        if b.cost < a.cost {
            ErrorComparison::TakeRight
        } else {
            ErrorComparison::PreferRight
        }
    } else if a.cost < b.cost {
        if spec_weighed(b.cost, a.cost, a.node_count) > MAX_COST_DIFFERENCE {
            ErrorComparison::TakeLeft
        } else {
            ErrorComparison::PreferLeft
        }
    } else if b.cost < a.cost {
        if spec_weighed(a.cost, b.cost, b.node_count) > MAX_COST_DIFFERENCE {
            ErrorComparison::TakeRight
        } else {
            ErrorComparison::PreferRight
        }
    } else if a.dynamic_precedence > b.dynamic_precedence {
        ErrorComparison::PreferLeft
    } else if b.dynamic_precedence > a.dynamic_precedence {
        ErrorComparison::PreferRight
    } else {
        ErrorComparison::Even
    }
}

fn weighed(more: u32, less: u32, node_count: u32) -> (r: u32)
    requires
        less < more,
    ensures
        r == spec_weighed(more, less, node_count),
{
    let d = more - less;
    let w = node_count.wrapping_add(1);
    proof {
        assert((1 + node_count as int) % 0x1_0000_0000 == w as int);
        assert((d as int * (1 + node_count as int)) % 0x1_0000_0000 == (d as int * w as int) % 0x1_0000_0000)
            by (nonlinear_arith)
            requires
                (1 + node_count as int) % 0x1_0000_0000 == w as int,
                0 <= node_count,
        {
            vstd::arithmetic::div_mod::lemma_mul_mod_noop_right(d as int, 1 + node_count as int, 0x1_0000_0000);
        }
    }
    d.wrapping_mul(w)
}

/// Compares two versions of a parse (see `spec_compare_versions`).
pub fn ts_parser__compare_versions(a: ErrorStatus, b: ErrorStatus) -> (r: ErrorComparison)
    ensures
        r == spec_compare_versions(a, b),
{
    if !a.is_in_error && b.is_in_error {
        if a.cost < b.cost {
            return ErrorComparison::TakeLeft;
        } else {
            return ErrorComparison::PreferLeft;
        }
    }
    if a.is_in_error && !b.is_in_error {
        if b.cost < a.cost {
            return ErrorComparison::TakeRight;
        } else {
            return ErrorComparison::PreferRight;
        }
    }
    if a.cost < b.cost {
        if weighed(b.cost, a.cost, a.node_count) > MAX_COST_DIFFERENCE {
            return ErrorComparison::TakeLeft;
        } else {
            return ErrorComparison::PreferLeft;
        }
    }
    if b.cost < a.cost {
        if weighed(a.cost, b.cost, b.node_count) > MAX_COST_DIFFERENCE {
            return ErrorComparison::TakeRight;
        } else {
            return ErrorComparison::PreferRight;
        }
    }
    if a.dynamic_precedence > b.dynamic_precedence {
        return ErrorComparison::PreferLeft;
    }
    if b.dynamic_precedence > a.dynamic_precedence {
        return ErrorComparison::PreferRight;
    }
    ErrorComparison::Even
}

/// Comparing versions is symmetric: swapping them swaps left and right.
pub proof fn lemma_compare_versions_swap(a: ErrorStatus, b: ErrorStatus)
    ensures
        spec_compare_versions(b, a) == match spec_compare_versions(a, b) {
            ErrorComparison::TakeLeft => ErrorComparison::TakeRight,
            ErrorComparison::PreferLeft => ErrorComparison::PreferRight,
            ErrorComparison::Even => ErrorComparison::Even,
            ErrorComparison::PreferRight => ErrorComparison::PreferLeft,
            ErrorComparison::TakeRight => ErrorComparison::TakeLeft,
        },
{
}

/// Whether the first leaf of `tree`, lexed in the parse state of its leaf,
/// can be reused in parse state `state` with the actions `table_entry`: not
/// at the end of a non-terminal extra; when lexed alike (and, for the
/// keyword-capture token, unless a keyword, in the same state); else, for a
/// non-empty leaf or the end, when the state allows no external tokens and
/// the actions are reusable.
pub open spec fn spec_can_reuse_first_leaf(
    l: &TSLanguage,
    state: u16,
    tree: crate::subtree::SubtreeView,
    table_entry: TableEntry,
) -> bool {
    let current = l.lex_modes@[state as int];
    let leaf_symbol = spec_leaf_symbol(tree);
    let leaf_mode = l.lex_modes@[spec_leaf_parse_state(tree) as int];
    if current.lex_state == 65535 {
        false
    } else if table_entry.action_count > 0 && leaf_mode == current && (leaf_symbol
        != l.keyword_capture_token || (!spec_is_keyword(tree) && spec_parse_state(tree) == state)) {
        true
    } else if spec_size(tree).bytes == 0 && leaf_symbol != 0 {
        false
    } else {
        current.external_lex_state == 0 && table_entry.is_reusable
    }
}

/// Whether the first leaf of `tree` can be reused in parse state `state`
/// (see `spec_can_reuse_first_leaf`).
pub fn ts_parser__can_reuse_first_leaf(
    language: &TSLanguage,
    state: u16,
    tree: &Subtree,
    table_entry: &TableEntry,
) -> (r: bool)
    requires
        state < language.lex_modes@.len(),
        spec_leaf_parse_state(tree@) < language.lex_modes@.len(),
    ensures
        r == spec_can_reuse_first_leaf(language, state, tree@, *table_entry),
{
    let current_lex_mode: TSLexMode = language.lex_modes[state as usize];
    let leaf_symbol = ts_subtree_leaf_symbol(tree);
    let leaf_state = ts_subtree_leaf_parse_state(tree);
    let leaf_lex_mode: TSLexMode = language.lex_modes[leaf_state as usize];
    if current_lex_mode.lex_state == 65535 {
        return false;
    }
    if table_entry.action_count > 0 && leaf_lex_mode.lex_state == current_lex_mode.lex_state
        && leaf_lex_mode.external_lex_state == current_lex_mode.external_lex_state && (leaf_symbol
        != language.keyword_capture_token || (!ts_subtree_is_keyword(tree) && ts_subtree_parse_state(
        tree,
    ) == state)) {
        return true;
    }
    if ts_subtree_size(tree).bytes == 0 && leaf_symbol != 0 {
        return false;
    }
    current_lex_mode.external_lex_state == 0 && table_entry.is_reusable
}

/// Which of two subtrees for the same text to keep: `true` for the right
/// one. A missing one loses; then the one of lower error cost, of higher
/// dynamic precedence; with errors the right one; else the earlier one by
/// `ts_subtree_compare`, the left one when they compare equal.
pub open spec fn spec_select_tree(
    left: Option<crate::subtree::SubtreeView>,
    right: Option<crate::subtree::SubtreeView>,
) -> bool {
    match (left, right) {
        (None, _) => true,
        (_, None) => false,
        (Some(l), Some(r)) => if spec_error_cost(r) < spec_error_cost(l) {
            true
        } else if spec_error_cost(l) < spec_error_cost(r) {
            false
        } else if spec_dynamic_precedence(r) > spec_dynamic_precedence(l) {
            true
        } else if spec_dynamic_precedence(l) > spec_dynamic_precedence(r) {
            false
        } else if spec_error_cost(l) > 0 {
            true
        } else {
            spec_subtree_compare(l, r) == 1
        },
    }
}

/// Chooses between two subtrees for the same text (see `spec_select_tree`).
pub fn ts_parser__select_tree(left: &Option<Subtree>, right: &Option<Subtree>) -> (r: bool)
    requires
        left is Some ==> subtree_wf(left->0@),
        right is Some ==> subtree_wf(right->0@),
    ensures
        r == spec_select_tree(crate::subtree::opt_view(*left), crate::subtree::opt_view(*right)),
{
    match (left, right) {
        (None, _) => true,
        (_, None) => false,
        (Some(l), Some(r)) => {
            if ts_subtree_error_cost(r) < ts_subtree_error_cost(l) {
                return true;
            }
            if ts_subtree_error_cost(l) < ts_subtree_error_cost(r) {
                return false;
            }
            if ts_subtree_dynamic_precedence(r) > ts_subtree_dynamic_precedence(l) {
                return true;
            }
            if ts_subtree_dynamic_precedence(l) > ts_subtree_dynamic_precedence(r) {
                return false;
            }
            if ts_subtree_error_cost(l) > 0 {
                return true;
            }
            ts_subtree_compare(l, r) == 1
        },
    }
}


/// The steps a walk over an old tree takes down from `e`: into the first
/// child, as long as the subtree it is at has children and was built in a
/// parse state other than `state`.
pub open spec fn spec_breakdown_steps(e: ReusableEntry, state: u16) -> Seq<ReusableEntry>
    decreases e.tree,
{
    match e.tree {
        SubtreeView::Heap(h) => if h.children.len() > 0 && h.parse_state != state {
            let child = ReusableEntry { tree: h.children[0], child_index: 0, byte_offset: e.byte_offset };
            seq![child] + spec_breakdown_steps(child, state)
        } else {
            Seq::empty()
        },
        SubtreeView::Inline(_) => Seq::empty(),
    }
}

/// Takes the walk over an old tree down through subtrees built in another
/// parse state than `state` (see `spec_breakdown_steps`); when it went down,
/// the lookahead becomes the subtree it stopped at.
pub fn ts_parser__breakdown_lookahead(lookahead: &mut Subtree, state: u16, reusable_node: &mut ReusableNode)
    requires
        old(reusable_node).stack.wf(),
        old(reusable_node).stack.contents@.len() > 0,
        reusable_wf(reusable_view(old(reusable_node).stack.contents@)),
        old(reusable_node).stack.contents@.len() + node_total(
            reusable_view(old(reusable_node).stack.contents@).last().tree,
        ) < u32::MAX,
    ensures
        ({
            let s0 = reusable_view(old(reusable_node).stack.contents@);
            let s1 = reusable_view(final(reusable_node).stack.contents@);
            &&& s1 == s0 + spec_breakdown_steps(s0.last(), state)
            &&& s1.len() > s0.len() ==> final(lookahead)@ == s1.last().tree
            &&& s1.len() == s0.len() ==> *final(lookahead) == *old(lookahead)
        }),
        reusable_wf(reusable_view(final(reusable_node).stack.contents@)),
        final(reusable_node).stack.wf(),
        final(reusable_node).stack.contents@.len() > 0,
        final(reusable_node).last_external_token == old(reusable_node).last_external_token,
{
    let ghost s0 = reusable_view(reusable_node.stack.contents@);
    let mut did_descend = false;
    let mut tree = reusable_node_tree(reusable_node).unwrap();
    proof {
        assert(s0 =~= s0 + Seq::<ReusableEntry>::empty());
    }
    loop
        invariant
            reusable_node.stack.wf(),
            reusable_node.stack.contents@.len() > 0,
            reusable_wf(reusable_view(reusable_node.stack.contents@)),
            reusable_node.stack.contents@.len() + node_total(reusable_view(reusable_node.stack.contents@).last().tree)
                < u32::MAX,
            tree@ == reusable_view(reusable_node.stack.contents@).last().tree,
            reusable_view(reusable_node.stack.contents@).len() >= s0.len(),
            s0 + spec_breakdown_steps(s0.last(), state) == reusable_view(reusable_node.stack.contents@)
                + spec_breakdown_steps(reusable_view(reusable_node.stack.contents@).last(), state),
            did_descend == (reusable_view(reusable_node.stack.contents@).len() > s0.len()),
            !did_descend ==> *lookahead == *old(lookahead),
            s0 == reusable_view(old(reusable_node).stack.contents@),
            reusable_view(reusable_node.stack.contents@).subrange(0, s0.len() as int) == s0,
            reusable_node.last_external_token == old(reusable_node).last_external_token,
        ensures
            spec_breakdown_steps(reusable_view(reusable_node.stack.contents@).last(), state) == Seq::<
                ReusableEntry,
            >::empty(),
        decreases node_total(reusable_view(reusable_node.stack.contents@).last().tree),
    {
        let ghost s = reusable_view(reusable_node.stack.contents@);
        proof {
            lemma_reusable_steps_wf(s, s.len() - 1);
        }
        if !(ts_subtree_child_count(&tree) > 0 && ts_subtree_parse_state(&tree) != state) {
            proof {
                assert(spec_breakdown_steps(s.last(), state) =~= Seq::<ReusableEntry>::empty());
                assert(s + Seq::<ReusableEntry>::empty() =~= s);
            }
            break;
        }
        reusable_node_descend(reusable_node);
        tree = reusable_node_tree(reusable_node).unwrap();
        did_descend = true;
        proof {
            let t = s.last().tree;
            let s2 = reusable_view(reusable_node.stack.contents@);
            crate::tree_cursor::lemma_nodes_split(spec_children(t), 0, 0);
            assert(spec_children(t).subrange(0, spec_children(t).len() as int) =~= spec_children(t));
            assert(s2.last() == s2[s2.len() - 1]);
            assert(s + spec_breakdown_steps(s.last(), state) =~= s2 + spec_breakdown_steps(s2.last(), state));
            assert(s2.subrange(0, s0.len() as int) =~= s.subrange(0, s0.len() as int));
        }
    }
    if did_descend {
        *lookahead = tree;
    }
    proof {
        let s1 = reusable_view(reusable_node.stack.contents@);
        assert(s1 + Seq::<ReusableEntry>::empty() =~= s1);
    }
}

/// The last token lexed, kept to be reused when the parse comes back to
/// where it was lexed: the token, the byte where it was lexed, and the
/// external token before it.
pub struct TokenCache {
    pub token: Option<Subtree>,
    pub last_external_token: Option<Subtree>,
    pub byte_index: u32,
}

/// Keeps `token`, lexed at `byte_index` after `last_external_token`, in the
/// cache, in place of what it held.
pub fn ts_parser__set_cached_token(
    cache: &mut TokenCache,
    byte_index: u32,
    last_external_token: Option<Subtree>,
    token: Option<Subtree>,
)
    ensures
        final(cache).token == token,
        final(cache).byte_index == byte_index,
        final(cache).last_external_token == last_external_token,
{
    cache.token = token;
    cache.byte_index = byte_index;
    cache.last_external_token = last_external_token;
}

/// Whether the cached token was lexed at `position`, after an external token
/// of the same scanner state as `last_external_token`.
pub open spec fn spec_cache_hit(cache: &TokenCache, position: u32, last_external_token: Option<SubtreeView>) -> bool {
    &&& cache.token is Some
    &&& cache.byte_index == position
    &&& spec_scanner_state_of(opt_view(cache.last_external_token)) == spec_scanner_state_of(last_external_token)
}

/// The cached token, when it was lexed at `position` after an external token
/// of the same state, and its first leaf can be reused in parse state `state`
/// (see `spec_can_reuse_first_leaf`); else none. On such a hit, `table_entry`
/// becomes the actions of `state` on the token's symbol.
pub fn ts_parser__get_cached_token(
    cache: &TokenCache,
    language: &TSLanguage,
    state: u16,
    position: u32,
    last_external_token: &Option<Subtree>,
    table_entry: &mut TableEntry,
) -> (r: Option<Subtree>)
    requires
        state < language.lex_modes@.len(),
        cache.token is Some ==> spec_leaf_parse_state(cache.token->0@) < language.lex_modes@.len(),
    ensures
        ({
            let hit = spec_cache_hit(cache, position, opt_view(*last_external_token));
            let entry = spec_table_entry(language, state, spec_symbol(cache.token->0@));
            &&& hit ==> *final(table_entry) == entry
            &&& !hit ==> *final(table_entry) == *old(table_entry)
            &&& r == (if hit && spec_can_reuse_first_leaf(language, state, cache.token->0@, entry) {
                cache.token
            } else {
                None
            })
        }),
{
    match &cache.token {
        Some(token) => {
            if cache.byte_index == position && ts_subtree_external_scanner_state_eq(
                &cache.last_external_token,
                last_external_token,
            ) {
                *table_entry = ts_language_table_entry(language, state, ts_subtree_symbol(token));
                if ts_parser__can_reuse_first_leaf(language, state, token, table_entry) {
                    return Some(ts_subtree_retain(token));
                }
            }
            None
        },
        None => None,
    }
}


/// Rebuilds the node `tree` over `children` (its summary recomputed), and
/// keeps the rebuilt node when `ts_parser__select_tree` prefers it to the node
/// as it was.
pub fn ts_parser__replace_children(tree: &mut SubtreeHeapData, children: Vec<Subtree>, language: &TSLanguage) -> (r:
    bool)
    requires
        subtree_wf(SubtreeView::Heap(heap_view(*old(tree)))),
        children@.len() <= u32::MAX,
        forall|i: int| 0 <= i < children@.len() ==> subtree_wf(#[trigger] children@[i]@),
    ensures
        ({
            let rebuilt = spec_set_children(heap_view(*old(tree)), views_of(children@), language);
            &&& r == spec_select_tree(
                Some(SubtreeView::Heap(heap_view(*old(tree)))),
                Some(SubtreeView::Heap(rebuilt)),
            )
            &&& r ==> heap_view(*final(tree)) == rebuilt
            &&& !r ==> heap_view(*final(tree)) == heap_view(*old(tree))
        }),
{
    let ghost cv = views_of(children@);
    let mut scratch = heap_data_clone(tree);
    proof {
        lemma_views_of(children@);
        assert forall|i: int| 0 <= i < cv.len() implies subtree_wf(#[trigger] cv[i]) by {
            assert(cv[i] == children@[i]@);
        }
        lemma_set_children_wf(heap_view(*tree), cv, language);
    }
    ts_subtree_set_children(&mut scratch, children, language);
    let left = Some(Subtree::Heap(Rc::new(heap_data_clone(tree))));
    let right = Some(Subtree::Heap(Rc::new(heap_data_clone(&scratch))));
    if ts_parser__select_tree(&left, &right) {
        *tree = scratch;
        true
    } else {
        false
    }
}

} // verus!
