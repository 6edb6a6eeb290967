use vstd::prelude::*;

use std::rc::Rc;

use crate::language::{
    spec_alias_at, spec_symbol_metadata, ts_language_alias_at, ts_language_symbol_metadata,
    TSLanguage, TSSymbolMetadata, TS_BUILTIN_SYM_ERROR, TS_BUILTIN_SYM_ERROR_REPEAT,
    TS_TREE_STATE_NONE,
};
use crate::length::{
    length_add, length_zero, spec_length_add, spec_length_zero, u32_wrapping_add,
    u32_wrapping_sub, wadd, wsub, Length,
};
use crate::subtree::{
    ExternalScannerState, MutableSubtree, SubtreeArray, SubtreeInlineData, SubtreePool, ts_subtree_from_mut, ts_subtree_to_mut_unsafe, Subtree, SubtreeHeapData, SubtreeHeapDataContentDataFirstLeaf, SubtreeHeapView, SubtreeView, heap_view, lemma_views_of, spec_child_count, spec_dynamic_precedence, spec_error_cost, spec_extra, spec_fragile_left, spec_fragile_right, spec_has_external_tokens, spec_is_error, spec_leaf_parse_state, spec_leaf_symbol, spec_lookahead_bytes, spec_named, spec_named_child_count, spec_node_count, spec_padding, spec_repeat_depth, spec_size, spec_symbol, spec_total_size, spec_visible, spec_visible_child_count, subtree_wf, ts_subtree_child_count, ts_subtree_dynamic_precedence, ts_subtree_error_cost, ts_subtree_extra, ts_subtree_fragile_left, ts_subtree_fragile_right, ts_subtree_has_external_tokens, ts_subtree_is_error, ts_subtree_leaf_parse_state, ts_subtree_leaf_symbol, ts_subtree_lookahead_bytes, ts_subtree_named, ts_subtree_named_child_count, ts_subtree_node_count, ts_subtree_padding, ts_subtree_repeat_depth, ts_subtree_size, ts_subtree_symbol, ts_subtree_total_size, ts_subtree_visible, ts_subtree_visible_child_count, views_of,
};

verus! {

/// `a * b` on `u32`, wrapping around.
pub open spec fn wmul(a: u32, b: u32) -> u32 {
    ((a * b) % 0x1_0000_0000) as u32
}

/// `a + b` on `i32`, wrapping around.
pub open spec fn iwadd(a: i32, b: i32) -> i32 {
    vstd::wrapping::i32_specs::wrapping_add(a, b)
}

/// What the loop of `ts_subtree_set_children` has gathered from the children
/// seen so far.
#[derive(Copy, Clone, Debug, PartialEq, Eq, Structural)]
pub struct ChildSummary {
    pub padding: Length,
    pub size: Length,
    pub lookahead_end_byte: u32,
    pub error_cost: u32,
    pub dynamic_precedence: i32,
    pub node_count: u32,
    pub visible_child_count: u32,
    pub named_child_count: u32,
    pub has_external_tokens: bool,
    pub has_error: bool,
    pub non_extra_index: u32,
}

/// The summary after one more child, the `i`-th.
pub open spec fn summary_step(
    acc: ChildSummary,
    i: int,
    child: SubtreeView,
    l: &TSLanguage,
    production_id: u32,
) -> ChildSummary {
    let padding = if i == 0 {
        spec_padding(child)
    } else {
        acc.padding
    };
    let size = if i == 0 {
        spec_size(child)
    } else {
        spec_length_add(acc.size, spec_total_size(child))
    };
    let child_end = wadd(wadd(padding.bytes, size.bytes), spec_lookahead_bytes(child));
    let alias = spec_alias_at(l, production_id, acc.non_extra_index);
    let counts: (u32, u32) = if alias != 0 && !spec_extra(child) {
        (
            wadd(acc.visible_child_count, 1),
            if spec_symbol_metadata(l, alias).named {
                wadd(acc.named_child_count, 1)
            } else {
                acc.named_child_count
            },
        )
    } else if spec_visible(child) {
        (
            wadd(acc.visible_child_count, 1),
            if spec_named(child) {
                wadd(acc.named_child_count, 1)
            } else {
                acc.named_child_count
            },
        )
    } else if spec_child_count(child) > 0 {
        (
            wadd(acc.visible_child_count, spec_visible_child_count(child)),
            wadd(acc.named_child_count, spec_named_child_count(child)),
        )
    } else {
        (acc.visible_child_count, acc.named_child_count)
    };
    ChildSummary {
        padding,
        size,
        lookahead_end_byte: if child_end > acc.lookahead_end_byte {
            child_end
        } else {
            acc.lookahead_end_byte
        },
        error_cost: if spec_symbol(child) != TS_BUILTIN_SYM_ERROR_REPEAT {
            wadd(acc.error_cost, spec_error_cost(child))
        } else {
            acc.error_cost
        },
        dynamic_precedence: iwadd(acc.dynamic_precedence, spec_dynamic_precedence(child)),
        node_count: wadd(acc.node_count, spec_node_count(child)),
        visible_child_count: counts.0,
        named_child_count: counts.1,
        has_external_tokens: acc.has_external_tokens || spec_has_external_tokens(child),
        has_error: acc.has_error || spec_is_error(child),
        non_extra_index: if !spec_extra(child) {
            wadd(acc.non_extra_index, 1)
        } else {
            acc.non_extra_index
        },
    }
}

/// The summary of a run of children.
pub open spec fn summarize(
    init: ChildSummary,
    children: Seq<SubtreeView>,
    l: &TSLanguage,
    production_id: u32,
) -> ChildSummary
    decreases children.len(),
{
    if children.len() == 0 {
        init
    } else {
        summary_step(
            summarize(init, children.drop_last(), l, production_id),
            children.len() - 1,
            children.last(),
            l,
            production_id,
        )
    }
}

/// The extra cost that an error node carries for one of its children.
pub open spec fn error_child_cost(child: SubtreeView) -> u32 {
    if !spec_extra(child) && !(spec_is_error(child) && spec_child_count(child) == 0) {
        if spec_visible(child) {
            100
        } else if spec_child_count(child) > 0 {
            wmul(100, spec_visible_child_count(child))
        } else {
            0
        }
    } else {
        0
    }
}

/// `base` plus the error costs of a run of children.
pub open spec fn error_cost_fold(base: u32, children: Seq<SubtreeView>) -> u32
    decreases children.len(),
{
    if children.len() == 0 {
        base
    } else {
        wadd(error_cost_fold(base, children.drop_last()), error_child_cost(children.last()))
    }
}

pub open spec fn summary_init(d: SubtreeHeapView) -> ChildSummary {
    ChildSummary {
        padding: d.padding,
        size: d.size,
        lookahead_end_byte: 0,
        error_cost: 0,
        dynamic_precedence: 0,
        node_count: 1,
        visible_child_count: 0,
        named_child_count: 0,
        has_external_tokens: false,
        has_error: false,
        non_extra_index: 0,
    }
}

/// A node `d` with `children` as its children, and the fields that summarize
/// them recomputed.
pub open spec fn spec_set_children(
    d: SubtreeHeapView,
    children: Seq<SubtreeView>,
    l: &TSLanguage,
) -> SubtreeHeapView {
    let sm = summarize(summary_init(d), children, l, d.production_id as u32);
    let is_error_symbol = d.symbol == TS_BUILTIN_SYM_ERROR || d.symbol
        == TS_BUILTIN_SYM_ERROR_REPEAT;
    let error_cost = if is_error_symbol {
        error_cost_fold(
            wadd(
                sm.error_cost,
                wadd(wadd(500, sm.size.bytes), wmul(30, sm.size.extent.row)),
            ),
            children,
        )
    } else {
        sm.error_cost
    };
    let has_children = children.len() > 0;
    let first = children[0];
    let last = children[children.len() - 1];
    SubtreeHeapView {
        padding: sm.padding,
        size: sm.size,
        lookahead_bytes: wsub(wsub(sm.lookahead_end_byte, sm.size.bytes), sm.padding.bytes),
        error_cost,
        parse_state: if sm.has_error {
            TS_TREE_STATE_NONE
        } else {
            d.parse_state
        },
        fragile_left: d.fragile_left || sm.has_error || (has_children && spec_fragile_left(first)),
        fragile_right: d.fragile_right || sm.has_error || (has_children && spec_fragile_right(
            last,
        )),
        has_external_tokens: sm.has_external_tokens,
        children,
        visible_child_count: sm.visible_child_count,
        named_child_count: sm.named_child_count,
        node_count: sm.node_count,
        repeat_depth: if has_children && children.len() >= 2 && !d.visible && !d.named
            && spec_symbol(first) == d.symbol {
            if spec_repeat_depth(first) > spec_repeat_depth(last) {
                wadd(spec_repeat_depth(first), 1)
            } else {
                wadd(spec_repeat_depth(last), 1)
            }
        } else {
            0
        },
        dynamic_precedence: sm.dynamic_precedence,
        first_leaf: if has_children {
            SubtreeHeapDataContentDataFirstLeaf {
                symbol: spec_leaf_symbol(first),
                parse_state: spec_leaf_parse_state(first),
            }
        } else {
            d.first_leaf
        },
        ..d
    }
}

// ---------------------------------------------------------------------------
// What a node's summary adds up to over its children.
// ---------------------------------------------------------------------------

/// The total sizes of a run of subtrees, one after the other.
pub open spec fn total_sizes(cs: Seq<SubtreeView>) -> Length
    decreases cs.len(),
{
    if cs.len() == 0 {
        spec_length_zero()
    } else {
        spec_length_add(total_sizes(cs.drop_last()), spec_total_size(cs.last()))
    }
}

/// The lines that a run of subtrees spans, summed over them.
pub open spec fn rows_of(cs: Seq<SubtreeView>) -> int
    decreases cs.len(),
{
    if cs.len() == 0 {
        0
    } else {
        rows_of(cs.drop_last()) + spec_padding(cs.last()).extent.row + spec_size(cs.last()).extent.row
    }
}

/// The nodes of a run of subtrees, summed over them.
pub open spec fn node_counts(cs: Seq<SubtreeView>) -> int
    decreases cs.len(),
{
    if cs.len() == 0 {
        0
    } else {
        node_counts(cs.drop_last()) + spec_node_count(cs.last())
    }
}

/// The error costs of a run of subtrees, summed over all but error
/// repetitions.
pub open spec fn error_costs(cs: Seq<SubtreeView>) -> int
    decreases cs.len(),
{
    if cs.len() == 0 {
        0
    } else {
        error_costs(cs.drop_last()) + if spec_symbol(cs.last()) != TS_BUILTIN_SYM_ERROR_REPEAT {
            spec_error_cost(cs.last()) as int
        } else {
            0
        }
    }
}

/// The dynamic precedences of a run of subtrees, summed over them.
pub open spec fn precedences(cs: Seq<SubtreeView>) -> int
    decreases cs.len(),
{
    if cs.len() == 0 {
        0
    } else {
        precedences(cs.drop_last()) + spec_dynamic_precedence(cs.last())
    }
}

/// `x` wrapped around into the range of `i32`.
pub open spec fn wrap_i32(x: int) -> int {
    (x + 0x8000_0000) % 0x1_0000_0000 - 0x8000_0000
}

/// The visible children a subtree gives its parent: itself where it is
/// visible, else its own visible children.
pub open spec fn visible_share(c: SubtreeView) -> int {
    if spec_visible(c) {
        1
    } else if spec_child_count(c) > 0 {
        spec_visible_child_count(c) as int
    } else {
        0
    }
}

/// The named children a subtree gives its parent: itself where it is
/// visible and named, else its own named children where it is hidden.
pub open spec fn named_share(c: SubtreeView) -> int {
    if spec_visible(c) {
        if spec_named(c) {
            1
        } else {
            0
        }
    } else if spec_child_count(c) > 0 {
        spec_named_child_count(c) as int
    } else {
        0
    }
}

/// The visible children that a run of subtrees gives their parent.
pub open spec fn visible_counts(cs: Seq<SubtreeView>) -> int
    decreases cs.len(),
{
    if cs.len() == 0 {
        0
    } else {
        visible_counts(cs.drop_last()) + visible_share(cs.last())
    }
}

/// The named children that a run of subtrees gives their parent.
pub open spec fn named_counts(cs: Seq<SubtreeView>) -> int
    decreases cs.len(),
{
    if cs.len() == 0 {
        0
    } else {
        named_counts(cs.drop_last()) + named_share(cs.last())
    }
}

proof fn lemma_iwadd_wrap(a: i32, b: i32, x: int)
    requires
        a == wrap_i32(x),
    ensures
        iwadd(a, b) == wrap_i32(x + b),
{
    let m: int = 0x1_0000_0000;
    let h: int = 0x8000_0000;
    let bi: int = b as int;
    assert(iwadd(a, b) == wrap_i32(a + b));
    vstd::arithmetic::div_mod::lemma_add_mod_noop(x + h, bi, m);
    vstd::arithmetic::div_mod::lemma_add_mod_noop((x + h) % m, bi, m);
    vstd::arithmetic::div_mod::lemma_mod_twice(x + h, m);
    assert(a + b + h == (x + h) % m + bi);
    assert((a + b + h) % m == (x + bi + h) % m);
}

proof fn lemma_summarize_counts(init: ChildSummary, cs: Seq<SubtreeView>, l: &TSLanguage, production_id: u32)
    ensures
        summarize(init, cs, l, production_id).dynamic_precedence == wrap_i32(
            init.dynamic_precedence + precedences(cs),
        ),
        summarize(init, cs, l, production_id).has_error == (init.has_error || exists|i: int|
            0 <= i < cs.len() && spec_is_error(#[trigger] cs[i])),
        crate::language::spec_alias_sequence(l, production_id) is None ==> summarize(
            init,
            cs,
            l,
            production_id,
        ).visible_child_count == (init.visible_child_count + visible_counts(cs)) % 0x1_0000_0000
            && summarize(init, cs, l, production_id).named_child_count == (init.named_child_count
            + named_counts(cs)) % 0x1_0000_0000,
    decreases cs.len(),
{
    if cs.len() == 0 {
        assert(wrap_i32(init.dynamic_precedence as int) == init.dynamic_precedence);
        assert(init.visible_child_count as int % 0x1_0000_0000 == init.visible_child_count);
        assert(init.named_child_count as int % 0x1_0000_0000 == init.named_child_count);
    } else {
        let d = cs.drop_last();
        let c = cs.last();
        let n = cs.len() - 1;
        lemma_summarize_counts(init, d, l, production_id);
        let z = summarize(init, d, l, production_id);
        lemma_iwadd_wrap(z.dynamic_precedence, spec_dynamic_precedence(c), init.dynamic_precedence + precedences(d));
        if crate::language::spec_alias_sequence(l, production_id) is None {
            assert(spec_alias_at(l, production_id, z.non_extra_index) == 0);
            lemma_wadd_mod(z.visible_child_count, 1, init.visible_child_count + visible_counts(d));
            lemma_wadd_mod(z.named_child_count, 1, init.named_child_count + named_counts(d));
            lemma_wadd_mod(z.visible_child_count, spec_visible_child_count(c), init.visible_child_count + visible_counts(d));
            lemma_wadd_mod(z.named_child_count, spec_named_child_count(c), init.named_child_count + named_counts(d));
            lemma_wadd_mod(z.named_child_count, 0, init.named_child_count + named_counts(d));
            lemma_wadd_mod(z.visible_child_count, 0, init.visible_child_count + visible_counts(d));
        }
        if exists|i: int| 0 <= i < d.len() && spec_is_error(#[trigger] d[i]) {
            let i = choose|i: int| 0 <= i < d.len() && spec_is_error(#[trigger] d[i]);
            assert(cs[i] == d[i]);
        }
        if exists|i: int| 0 <= i < cs.len() && spec_is_error(#[trigger] cs[i]) {
            let i = choose|i: int| 0 <= i < cs.len() && spec_is_error(#[trigger] cs[i]);
            if i < n {
                assert(cs[i] == d[i]);
            }
        }
    }
}

pub proof fn lemma_rows_nonneg(cs: Seq<SubtreeView>)
    ensures
        rows_of(cs) >= 0,
    decreases cs.len(),
{
    if cs.len() > 0 {
        lemma_rows_nonneg(cs.drop_last());
    }
}

proof fn lemma_wadd_mod(a: u32, b: u32, x: int)
    requires
        a == x % 0x1_0000_0000,
    ensures
        wadd(a, b) == (x + b) % 0x1_0000_0000,
{
    assert(wadd(a, b) == (a + b) % 0x1_0000_0000);
    assert((x + b) % 0x1_0000_0000 == ((x % 0x1_0000_0000) + b) % 0x1_0000_0000) by (nonlinear_arith);
}

proof fn lemma_summarize_sums(init: ChildSummary, cs: Seq<SubtreeView>, l: &TSLanguage, production_id: u32)
    requires
        cs.len() > 0,
        rows_of(cs) <= u32::MAX,
    ensures
        summarize(init, cs, l, production_id).padding == spec_padding(cs[0]),
        spec_length_add(
            summarize(init, cs, l, production_id).padding,
            summarize(init, cs, l, production_id).size,
        ) == total_sizes(cs),
        total_sizes(cs).extent.row == rows_of(cs),
        summarize(init, cs, l, production_id).padding.extent.row + summarize(
            init,
            cs,
            l,
            production_id,
        ).size.extent.row == rows_of(cs),
        summarize(init, cs, l, production_id).node_count == (init.node_count + node_counts(cs))
            % 0x1_0000_0000,
        summarize(init, cs, l, production_id).error_cost == (init.error_cost + error_costs(cs))
            % 0x1_0000_0000,
        summarize(init, cs, l, production_id).has_external_tokens == (init.has_external_tokens
            || exists|i: int| 0 <= i < cs.len() && spec_has_external_tokens(#[trigger] cs[i])),
    decreases cs.len(),
{
    let d = cs.drop_last();
    let c = cs.last();
    let n = cs.len() - 1;
    let sm = summarize(init, cs, l, production_id);
    let tc = spec_total_size(c);
    lemma_rows_nonneg(d);
    assert(tc.extent.row == spec_padding(c).extent.row + spec_size(c).extent.row);
    if cs.len() == 1 {
        let z = summarize(init, d, l, production_id);
        assert(z == init);
        crate::length::lemma_length_zero_identity(tc);
        assert(d.len() == 0);
        assert(total_sizes(d) == spec_length_zero());
        assert(total_sizes(cs) == spec_length_add(spec_length_zero(), tc));
        assert(node_counts(d) == 0);
        assert(error_costs(d) == 0);
        lemma_wadd_mod(init.node_count, spec_node_count(c), init.node_count as int);
        lemma_wadd_mod(init.error_cost, spec_error_cost(c), init.error_cost as int);
        assert forall|i: int| 0 <= i < cs.len() implies #[trigger] cs[i] == c by {}
        assert(init.node_count as int % 0x1_0000_0000 == init.node_count);
        assert(init.error_cost as int % 0x1_0000_0000 == init.error_cost);
    } else {
        lemma_summarize_sums(init, d, l, production_id);
        let z = summarize(init, d, l, production_id);
        assert(d[0] == cs[0]);
        assert(rows_of(d) <= rows_of(cs));
        crate::length::lemma_length_add_assoc(z.padding, z.size, tc);
        lemma_wadd_mod(z.node_count, spec_node_count(c), init.node_count + node_counts(d));
        lemma_wadd_mod(z.error_cost, spec_error_cost(c), init.error_cost + error_costs(d));
        if exists|i: int| 0 <= i < d.len() && spec_has_external_tokens(#[trigger] d[i]) {
            let i = choose|i: int| 0 <= i < d.len() && spec_has_external_tokens(#[trigger] d[i]);
            assert(cs[i] == d[i]);
        }
        if exists|i: int| 0 <= i < cs.len() && spec_has_external_tokens(#[trigger] cs[i]) {
            let i = choose|i: int| 0 <= i < cs.len() && spec_has_external_tokens(#[trigger] cs[i]);
            if i < n {
                assert(cs[i] == d[i]);
            }
        }
    }
}

/// Setting a node's children sums their summaries: the node starts where its
/// first child starts, its total size is the children's total sizes one
/// after the other (where their lines fit in `u32`), its node count is one
/// plus theirs, its error cost (for a symbol that is not an error) is the sum
/// of theirs but for error repetitions, and it has external tokens when one
/// of them does. Its dynamic precedence is the sum of theirs; where its
/// production has no aliases, its visible and named child counts are what
/// each child gives (itself where visible, else its own such children). A
/// child that is an error makes it fragile on both sides and leaves it with
/// no parse state. Counts wrap around as `u32`, precedence as `i32`.
pub proof fn lemma_set_children_sums(d: SubtreeHeapView, cs: Seq<SubtreeView>, l: &TSLanguage)
    requires
        cs.len() > 0,
        rows_of(cs) <= u32::MAX,
    ensures
        spec_padding(SubtreeView::Heap(spec_set_children(d, cs, l))) == spec_padding(cs[0]),
        spec_total_size(SubtreeView::Heap(spec_set_children(d, cs, l))) == total_sizes(cs),
        spec_set_children(d, cs, l).padding.extent.row + spec_set_children(d, cs, l).size.extent.row
            == rows_of(cs),
        spec_set_children(d, cs, l).node_count == (1 + node_counts(cs)) % 0x1_0000_0000,
        d.symbol != TS_BUILTIN_SYM_ERROR && d.symbol != TS_BUILTIN_SYM_ERROR_REPEAT ==> spec_set_children(
            d,
            cs,
            l,
        ).error_cost == error_costs(cs) % 0x1_0000_0000,
        spec_set_children(d, cs, l).has_external_tokens == exists|i: int|
            0 <= i < cs.len() && spec_has_external_tokens(#[trigger] cs[i]),
        spec_set_children(d, cs, l).first_leaf.symbol == spec_leaf_symbol(cs[0]),
        spec_set_children(d, cs, l).dynamic_precedence == wrap_i32(precedences(cs)),
        crate::language::spec_alias_sequence(l, d.production_id as u32) is None ==> spec_set_children(
            d,
            cs,
            l,
        ).visible_child_count == visible_counts(cs) % 0x1_0000_0000 && spec_set_children(
            d,
            cs,
            l,
        ).named_child_count == named_counts(cs) % 0x1_0000_0000,
        (exists|i: int| 0 <= i < cs.len() && spec_is_error(#[trigger] cs[i])) ==> {
            &&& spec_set_children(d, cs, l).fragile_left
            &&& spec_set_children(d, cs, l).fragile_right
            &&& spec_set_children(d, cs, l).parse_state == TS_TREE_STATE_NONE
        },
{
    lemma_summarize_sums(summary_init(d), cs, l, d.production_id as u32);
    lemma_summarize_counts(summary_init(d), cs, l, d.production_id as u32);
}

fn summary_step_exec(
    acc: ChildSummary,
    i: usize,
    child: &Subtree,
    l: &TSLanguage,
    production_id: u32,
) -> (r: ChildSummary)
    requires
        subtree_wf(child@),
    ensures
        r == summary_step(acc, i as int, child@, l, production_id),
{
    let padding = if i == 0 {
        ts_subtree_padding(child)
    } else {
        acc.padding
    };
    let size = if i == 0 {
        ts_subtree_size(child)
    } else {
        length_add(acc.size, ts_subtree_total_size(child))
    };
    let child_end = u32_wrapping_add(
        u32_wrapping_add(padding.bytes, size.bytes),
        ts_subtree_lookahead_bytes(child),
    );
    let alias = ts_language_alias_at(l, production_id, acc.non_extra_index);
    let extra = ts_subtree_extra(child);
    let mut visible_child_count = acc.visible_child_count;
    let mut named_child_count = acc.named_child_count;
    if alias != 0 && !extra {
        visible_child_count = u32_wrapping_add(visible_child_count, 1);
        if ts_language_symbol_metadata(l, alias).named {
            named_child_count = u32_wrapping_add(named_child_count, 1);
        }
    } else if ts_subtree_visible(child) {
        visible_child_count = u32_wrapping_add(visible_child_count, 1);
        if ts_subtree_named(child) {
            named_child_count = u32_wrapping_add(named_child_count, 1);
        }
    } else if ts_subtree_child_count(child) > 0 {
        visible_child_count = u32_wrapping_add(
            visible_child_count,
            ts_subtree_visible_child_count(child),
        );
        named_child_count = u32_wrapping_add(named_child_count, ts_subtree_named_child_count(child));
    }
    ChildSummary {
        padding,
        size,
        lookahead_end_byte: if child_end > acc.lookahead_end_byte {
            child_end
        } else {
            acc.lookahead_end_byte
        },
        error_cost: if ts_subtree_symbol(child) != TS_BUILTIN_SYM_ERROR_REPEAT {
            u32_wrapping_add(acc.error_cost, ts_subtree_error_cost(child))
        } else {
            acc.error_cost
        },
        dynamic_precedence: acc.dynamic_precedence.wrapping_add(
            ts_subtree_dynamic_precedence(child),
        ),
        node_count: u32_wrapping_add(acc.node_count, ts_subtree_node_count(child)),
        visible_child_count,
        named_child_count,
        has_external_tokens: acc.has_external_tokens || ts_subtree_has_external_tokens(child),
        has_error: acc.has_error || ts_subtree_is_error(child),
        non_extra_index: if !extra {
            u32_wrapping_add(acc.non_extra_index, 1)
        } else {
            acc.non_extra_index
        },
    }
}

fn error_child_cost_exec(child: &Subtree) -> (r: u32)
    requires
        subtree_wf(child@),
    ensures
        r == error_child_cost(child@),
{
    let count = ts_subtree_child_count(child);
    if !ts_subtree_extra(child) && !(ts_subtree_is_error(child) && count == 0) {
        if ts_subtree_visible(child) {
            100
        } else if count > 0 {
            100u32.wrapping_mul(ts_subtree_visible_child_count(child))
        } else {
            0
        }
    } else {
        0
    }
}

fn summarize_children(children: &Vec<Subtree>, init: ChildSummary, l: &TSLanguage, production_id: u32) -> (r:
    ChildSummary)
    requires
        forall|i: int| 0 <= i < children@.len() ==> subtree_wf(#[trigger] children@[i]@),
    ensures
        r == summarize(init, views_of(children@), l, production_id),
{
    let ghost cv = views_of(children@);
    proof {
        lemma_views_of(children@);
    }
    let mut acc = init;
    let mut i: usize = 0;
    while i < children.len()
        invariant
            i <= children@.len(),
            cv == views_of(children@),
            cv.len() == children@.len(),
            forall|k: int| 0 <= k < children@.len() ==> #[trigger] cv[k] == children@[k]@,
            forall|k: int| 0 <= k < children@.len() ==> subtree_wf(#[trigger] children@[k]@),
            acc == summarize(init, cv.take(i as int), l, production_id),
        decreases children@.len() - i,
    {
        assert(cv.take(i + 1).drop_last() == cv.take(i as int));
        acc = summary_step_exec(acc, i, &children[i], l, production_id);
        i = i + 1;
    }
    assert(cv.take(i as int) == cv);
    acc
}

fn error_cost_children(children: &Vec<Subtree>, base: u32) -> (r: u32)
    requires
        forall|i: int| 0 <= i < children@.len() ==> subtree_wf(#[trigger] children@[i]@),
    ensures
        r == error_cost_fold(base, views_of(children@)),
{
    let ghost cv = views_of(children@);
    proof {
        lemma_views_of(children@);
    }
    let mut error_cost = base;
    let mut j: usize = 0;
    while j < children.len()
        invariant
            j <= children@.len(),
            cv == views_of(children@),
            cv.len() == children@.len(),
            forall|k: int| 0 <= k < children@.len() ==> #[trigger] cv[k] == children@[k]@,
            forall|k: int| 0 <= k < children@.len() ==> subtree_wf(#[trigger] children@[k]@),
            error_cost == error_cost_fold(base, cv.take(j as int)),
        decreases children@.len() - j,
    {
        assert(cv.take(j + 1).drop_last() == cv.take(j as int));
        error_cost = u32_wrapping_add(error_cost, error_child_cost_exec(&children[j]));
        j = j + 1;
    }
    assert(cv.take(j as int) == cv);
    error_cost
}

/// Makes `children` the children of a node and recomputes the fields that
/// summarize them: size and padding, counts of visible and named children,
/// error cost, node count, dynamic precedence, external tokens, fragility,
/// first leaf and repetition depth.
#[verifier::rlimit(60)]
pub fn ts_subtree_set_children(self_0: &mut SubtreeHeapData, children: Vec<Subtree>, language: &TSLanguage)
    requires
        children@.len() <= u32::MAX,
        forall|i: int| 0 <= i < children@.len() ==> subtree_wf(#[trigger] children@[i]@),
    ensures
        heap_view(*final(self_0)) == spec_set_children(
            heap_view(*old(self_0)),
            views_of(children@),
            language,
        ),
{
    let ghost old_view = heap_view(*self_0);
    let ghost cv = views_of(children@);
    proof {
        lemma_views_of(children@);
    }
    let production_id: u32 = self_0.production_id as u32;
    let init = ChildSummary {
        padding: self_0.padding,
        size: self_0.size,
        lookahead_end_byte: 0,
        error_cost: 0,
        dynamic_precedence: 0,
        node_count: 1,
        visible_child_count: 0,
        named_child_count: 0,
        has_external_tokens: false,
        has_error: false,
        non_extra_index: 0,
    };
    assert(init == summary_init(old_view));
    let acc = summarize_children(&children, init, language, production_id);
    let symbol = self_0.symbol;
    let mut error_cost = acc.error_cost;
    if symbol == TS_BUILTIN_SYM_ERROR || symbol == TS_BUILTIN_SYM_ERROR_REPEAT {
        error_cost = u32_wrapping_add(
            error_cost,
            u32_wrapping_add(
                u32_wrapping_add(500, acc.size.bytes),
                30u32.wrapping_mul(acc.size.extent.row),
            ),
        );
        error_cost = error_cost_children(&children, error_cost);
    }
    let mut fragile_left = self_0.fragile_left || acc.has_error;
    let mut fragile_right = self_0.fragile_right || acc.has_error;
    let mut repeat_depth: u32 = 0;
    let mut first_leaf = self_0.first_leaf;
    let n = children.len();
    if n > 0 {
        let first = &children[0];
        let last = &children[n - 1];
        first_leaf = SubtreeHeapDataContentDataFirstLeaf {
            symbol: ts_subtree_leaf_symbol(first),
            parse_state: ts_subtree_leaf_parse_state(first),
        };
        if ts_subtree_fragile_left(first) {
            fragile_left = true;
        }
        if ts_subtree_fragile_right(last) {
            fragile_right = true;
        }
        if n >= 2 && !self_0.visible && !self_0.named && ts_subtree_symbol(first) == symbol {
            if ts_subtree_repeat_depth(first) > ts_subtree_repeat_depth(last) {
                repeat_depth = u32_wrapping_add(ts_subtree_repeat_depth(first), 1);
            } else {
                repeat_depth = u32_wrapping_add(ts_subtree_repeat_depth(last), 1);
            }
        }
    }
    self_0.padding = acc.padding;
    self_0.size = acc.size;
    self_0.lookahead_bytes = u32_wrapping_sub(
        u32_wrapping_sub(acc.lookahead_end_byte, acc.size.bytes),
        acc.padding.bytes,
    );
    self_0.error_cost = error_cost;
    if acc.has_error {
        self_0.parse_state = TS_TREE_STATE_NONE;
    }
    self_0.fragile_left = fragile_left;
    self_0.fragile_right = fragile_right;
    self_0.has_external_tokens = acc.has_external_tokens;
    self_0.visible_child_count = acc.visible_child_count;
    self_0.named_child_count = acc.named_child_count;
    self_0.node_count = acc.node_count;
    self_0.repeat_depth = repeat_depth;
    self_0.dynamic_precedence = acc.dynamic_precedence;
    self_0.first_leaf = first_leaf;
    self_0.children = children;
    proof {
        assert(heap_view(*self_0) =~= spec_set_children(old_view, cv, language));
    }
}


/// Whether a leaf with these extents can be stored inline.
pub open spec fn spec_can_inline(padding: Length, size: Length, lookahead_bytes: u32) -> bool {
    padding.bytes < 255 && padding.extent.row < 16 && padding.extent.column < 255
        && size.extent.row == 0 && size.extent.column < 255 && lookahead_bytes < 16
}

pub fn ts_subtree_can_inline(padding: Length, size: Length, lookahead_bytes: u32) -> (r: bool)
    ensures
        r == spec_can_inline(padding, size, lookahead_bytes),
{
    padding.bytes < 255 && padding.extent.row < 16 && padding.extent.column < 255
        && size.extent.row == 0 && size.extent.column < 255 && lookahead_bytes < 16
}

/// A heap node without children and with the given fields; everything else zero.
pub open spec fn spec_heap_leaf(
    symbol: u16,
    padding: Length,
    size: Length,
    lookahead_bytes: u32,
    parse_state: u16,
    metadata: TSSymbolMetadata,
    extra: bool,
    has_external_tokens: bool,
    is_keyword: bool,
) -> SubtreeHeapView {
    SubtreeHeapView {
        padding,
        size,
        lookahead_bytes,
        error_cost: 0,
        symbol,
        parse_state,
        visible: metadata.visible,
        named: metadata.named,
        extra,
        fragile_left: false,
        fragile_right: false,
        has_changes: false,
        has_external_tokens,
        is_missing: false,
        is_keyword,
        children: Seq::empty(),
        visible_child_count: 0,
        named_child_count: 0,
        node_count: 0,
        repeat_depth: 0,
        dynamic_precedence: 0,
        production_id: 0,
        first_leaf: SubtreeHeapDataContentDataFirstLeaf { symbol: 0, parse_state: 0 },
        external_scanner_state: Seq::empty(),
        lookahead_char: 0,
    }
}

/// A new leaf: inline when the symbol fits in a byte, it has no external
/// scanner state and its extents are small; on the heap otherwise. Leaves of
/// the end symbol are extra.
pub open spec fn spec_new_leaf(
    symbol: u16,
    padding: Length,
    size: Length,
    lookahead_bytes: u32,
    parse_state: u16,
    has_external_tokens: bool,
    is_keyword: bool,
    l: &TSLanguage,
) -> SubtreeView {
    let metadata = spec_symbol_metadata(l, symbol);
    let extra = symbol == 0;
    if symbol <= 255 && !has_external_tokens && spec_can_inline(padding, size, lookahead_bytes) {
        SubtreeView::Inline(
            SubtreeInlineData {
                visible: metadata.visible,
                named: metadata.named,
                extra,
                has_changes: false,
                is_missing: false,
                is_keyword,
                symbol: symbol as u8,
                padding_bytes: padding.bytes as u8,
                size_bytes: (size.bytes % 256) as u8,
                padding_columns: padding.extent.column as u8,
                padding_rows: padding.extent.row as u8,
                lookahead_bytes: lookahead_bytes as u8,
                parse_state,
            },
        )
    } else {
        SubtreeView::Heap(
            spec_heap_leaf(
                symbol,
                padding,
                size,
                lookahead_bytes,
                parse_state,
                metadata,
                extra,
                has_external_tokens,
                is_keyword,
            ),
        )
    }
}

pub(crate) fn heap_leaf(
    symbol: u16,
    padding: Length,
    size: Length,
    lookahead_bytes: u32,
    parse_state: u16,
    metadata: TSSymbolMetadata,
    extra: bool,
    has_external_tokens: bool,
    is_keyword: bool,
) -> (d: SubtreeHeapData)
    ensures
        heap_view(d) == spec_heap_leaf(
            symbol,
            padding,
            size,
            lookahead_bytes,
            parse_state,
            metadata,
            extra,
            has_external_tokens,
            is_keyword,
        ),
        d.children@.len() == 0,
        d.external_scanner_state.data@.len() == 0,
{
    let d = SubtreeHeapData {
        padding,
        size,
        lookahead_bytes,
        error_cost: 0,
        symbol,
        parse_state,
        visible: metadata.visible,
        named: metadata.named,
        extra,
        fragile_left: false,
        fragile_right: false,
        has_changes: false,
        has_external_tokens,
        is_missing: false,
        is_keyword,
        children: Vec::new(),
        visible_child_count: 0,
        named_child_count: 0,
        node_count: 0,
        repeat_depth: 0,
        dynamic_precedence: 0,
        production_id: 0,
        first_leaf: SubtreeHeapDataContentDataFirstLeaf { symbol: 0, parse_state: 0 },
        external_scanner_state: ExternalScannerState { data: Vec::new() },
        lookahead_char: 0,
    };
    proof {
        assert(views_of(d.children@) =~= Seq::empty());
        assert(heap_view(d) =~= spec_heap_leaf(
            symbol,
            padding,
            size,
            lookahead_bytes,
            parse_state,
            metadata,
            extra,
            has_external_tokens,
            is_keyword,
        ));
    }
    d
}

/// A new leaf (see `spec_new_leaf`).
pub fn ts_subtree_new_leaf(
    pool: &mut SubtreePool,
    symbol: u16,
    padding: Length,
    size: Length,
    lookahead_bytes: u32,
    parse_state: u16,
    has_external_tokens: bool,
    is_keyword: bool,
    language: &TSLanguage,
) -> (s: Subtree)
    ensures
        s@ == spec_new_leaf(
            symbol,
            padding,
            size,
            lookahead_bytes,
            parse_state,
            has_external_tokens,
            is_keyword,
            language,
        ),
        subtree_wf(s@),
{
    let metadata = ts_language_symbol_metadata(language, symbol);
    let extra = symbol == 0;
    let is_inline = symbol <= 255 && !has_external_tokens && ts_subtree_can_inline(
        padding,
        size,
        lookahead_bytes,
    );
    if is_inline {
        Subtree::Inline(
            SubtreeInlineData {
                visible: metadata.visible,
                named: metadata.named,
                extra,
                has_changes: false,
                is_missing: false,
                is_keyword,
                symbol: symbol as u8,
                padding_bytes: padding.bytes as u8,
                size_bytes: (size.bytes % 256) as u8,
                padding_columns: padding.extent.column as u8,
                padding_rows: padding.extent.row as u8,
                lookahead_bytes: lookahead_bytes as u8,
                parse_state,
            },
        )
    } else {
        let d = heap_leaf(
            symbol,
            padding,
            size,
            lookahead_bytes,
            parse_state,
            metadata,
            extra,
            has_external_tokens,
            is_keyword,
        );
        Subtree::Heap(Rc::new(d))
    }
}

/// A new error leaf: fragile on both sides, holding the unexpected character.
pub fn ts_subtree_new_error(
    pool: &mut SubtreePool,
    lookahead_char: i32,
    padding: Length,
    size: Length,
    bytes_scanned: u32,
    parse_state: u16,
    language: &TSLanguage,
) -> (s: Subtree)
    ensures
        s@ == SubtreeView::Heap(
            SubtreeHeapView {
                fragile_left: true,
                fragile_right: true,
                lookahead_char,
                ..spec_heap_leaf(
                    TS_BUILTIN_SYM_ERROR,
                    padding,
                    size,
                    bytes_scanned,
                    parse_state,
                    spec_symbol_metadata(language, TS_BUILTIN_SYM_ERROR),
                    false,
                    false,
                    false,
                )
            },
        ),
        subtree_wf(s@),
{
    let metadata = ts_language_symbol_metadata(language, TS_BUILTIN_SYM_ERROR);
    let mut d = heap_leaf(
        TS_BUILTIN_SYM_ERROR,
        padding,
        size,
        bytes_scanned,
        parse_state,
        metadata,
        false,
        false,
        false,
    );
    d.fragile_left = true;
    d.fragile_right = true;
    d.lookahead_char = lookahead_char;
    Subtree::Heap(Rc::new(d))
}

/// A new zero-width leaf that stands for a token the parser expected and did not find.
pub fn ts_subtree_new_missing_leaf(pool: &mut SubtreePool, symbol: u16, padding: Length, language: &TSLanguage) -> (s:
    Subtree)
    ensures
        s@ == (match spec_new_leaf(
            symbol,
            padding,
            spec_length_zero(),
            0,
            0,
            false,
            false,
            language,
        ) {
            SubtreeView::Inline(d) => SubtreeView::Inline(SubtreeInlineData { is_missing: true, ..d }),
            SubtreeView::Heap(d) => SubtreeView::Heap(SubtreeHeapView { is_missing: true, ..d }),
        }),
        subtree_wf(s@),
{
    let result = ts_subtree_new_leaf(pool, symbol, padding, length_zero(), 0, 0, false, false, language);
    let mut m = ts_subtree_to_mut_unsafe(result);
    match &mut m {
        MutableSubtree::Inline(d) => {
            d.is_missing = true;
        },
        MutableSubtree::Heap(d) => {
            d.is_missing = true;
        },
    }
    ts_subtree_from_mut(m)
}

/// Gives a subtree another symbol, with that symbol's visibility and namedness.
pub fn ts_subtree_set_symbol(self_0: &mut MutableSubtree, symbol: u16, language: &TSLanguage)
    requires
        old(self_0)@ is Inline ==> symbol < 255,
    ensures
        match (old(self_0)@, final(self_0)@) {
            (SubtreeView::Inline(a), SubtreeView::Inline(b)) => b == (SubtreeInlineData {
                symbol: symbol as u8,
                named: spec_symbol_metadata(language, symbol).named,
                visible: spec_symbol_metadata(language, symbol).visible,
                ..a
            }),
            (SubtreeView::Heap(a), SubtreeView::Heap(b)) => b == (SubtreeHeapView {
                symbol,
                named: spec_symbol_metadata(language, symbol).named,
                visible: spec_symbol_metadata(language, symbol).visible,
                ..a
            }),
            _ => false,
        },
{
    let metadata = ts_language_symbol_metadata(language, symbol);
    match self_0 {
        MutableSubtree::Inline(d) => {
            d.symbol = symbol as u8;
            d.named = metadata.named;
            d.visible = metadata.visible;
        },
        MutableSubtree::Heap(d) => {
            d.symbol = symbol;
            d.named = metadata.named;
            d.visible = metadata.visible;
        },
    }
}

/// The fields of a new node before its children are set.
pub open spec fn spec_node_shell(symbol: u16, production_id: u32, l: &TSLanguage) -> SubtreeHeapView {
    let metadata = spec_symbol_metadata(l, symbol);
    let fragile = symbol == TS_BUILTIN_SYM_ERROR || symbol == TS_BUILTIN_SYM_ERROR_REPEAT;
    SubtreeHeapView {
        padding: spec_length_zero(),
        size: spec_length_zero(),
        lookahead_bytes: 0,
        error_cost: 0,
        symbol,
        parse_state: 0,
        visible: metadata.visible,
        named: metadata.named,
        extra: false,
        fragile_left: fragile,
        fragile_right: fragile,
        has_changes: false,
        has_external_tokens: false,
        is_missing: false,
        is_keyword: false,
        children: Seq::empty(),
        visible_child_count: 0,
        named_child_count: 0,
        node_count: 0,
        repeat_depth: 0,
        dynamic_precedence: 0,
        production_id: (production_id % 0x10000) as u16,
        first_leaf: SubtreeHeapDataContentDataFirstLeaf { symbol: 0, parse_state: 0 },
        external_scanner_state: Seq::empty(),
        lookahead_char: 0,
    }
}

/// A new node of `symbol` over `children` (the production id is kept in 16 bits).
pub fn ts_subtree_new_node(
    pool: &mut SubtreePool,
    symbol: u16,
    children: SubtreeArray,
    production_id: u32,
    language: &TSLanguage,
) -> (m: MutableSubtree)
    requires
        children.contents@.len() <= u32::MAX,
        forall|i: int|
            0 <= i < children.contents@.len() ==> subtree_wf(#[trigger] children.contents@[i]@),
    ensures
        m@ == SubtreeView::Heap(
            spec_set_children(
                spec_node_shell(symbol, production_id, language),
                views_of(children.contents@),
                language,
            ),
        ),
        m is Heap,
{
    let metadata = ts_language_symbol_metadata(language, symbol);
    let fragile = symbol == TS_BUILTIN_SYM_ERROR || symbol == TS_BUILTIN_SYM_ERROR_REPEAT;
    let mut d = SubtreeHeapData {
        padding: length_zero(),
        size: length_zero(),
        lookahead_bytes: 0,
        error_cost: 0,
        symbol,
        parse_state: 0,
        visible: metadata.visible,
        named: metadata.named,
        extra: false,
        fragile_left: fragile,
        fragile_right: fragile,
        has_changes: false,
        has_external_tokens: false,
        is_missing: false,
        is_keyword: false,
        children: Vec::new(),
        visible_child_count: 0,
        named_child_count: 0,
        node_count: 0,
        repeat_depth: 0,
        dynamic_precedence: 0,
        production_id: (production_id % 0x10000) as u16,
        first_leaf: SubtreeHeapDataContentDataFirstLeaf { symbol: 0, parse_state: 0 },
        external_scanner_state: ExternalScannerState { data: Vec::new() },
        lookahead_char: 0,
    };
    proof {
        assert(views_of(d.children@) =~= Seq::empty());
        assert(heap_view(d) =~= spec_node_shell(symbol, production_id, language));
    }
    ts_subtree_set_children(&mut d, children.contents, language);
    MutableSubtree::Heap(d)
}

/// A new error node over `children`, extra or not.
pub fn ts_subtree_new_error_node(
    pool: &mut SubtreePool,
    children: SubtreeArray,
    extra: bool,
    language: &TSLanguage,
) -> (s: Subtree)
    requires
        children.contents@.len() <= u32::MAX,
        forall|i: int|
            0 <= i < children.contents@.len() ==> subtree_wf(#[trigger] children.contents@[i]@),
    ensures
        s@ == SubtreeView::Heap(
            SubtreeHeapView {
                extra,
                ..spec_set_children(
                    spec_node_shell(TS_BUILTIN_SYM_ERROR, 0, language),
                    views_of(children.contents@),
                    language,
                )
            },
        ),
{
    let m = ts_subtree_new_node(pool, TS_BUILTIN_SYM_ERROR, children, 0, language);
    match m {
        MutableSubtree::Heap(mut d) => {
            d.extra = extra;
            Subtree::Heap(Rc::new(d))
        },
        MutableSubtree::Inline(d) => {
            proof {
                assert(false);
            }
            Subtree::Inline(d)
        },
    }
}

} // verus!
