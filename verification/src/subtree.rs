use vstd::prelude::*;

use std::rc::Rc;

use crate::array::VoidArray;
use crate::language::{TS_BUILTIN_SYM_END, TS_BUILTIN_SYM_ERROR};
use crate::length::{length_add, spec_length_add, Length, TSPoint};

verus! {

/// The data of a small leaf, stored in place of a pointer. `padding_rows`
/// and `lookahead_bytes` are 4-bit fields.
#[derive(Copy, Clone, Debug, PartialEq, Eq, Structural)]
pub struct SubtreeInlineData {
    pub visible: bool,
    pub named: bool,
    pub extra: bool,
    pub has_changes: bool,
    pub is_missing: bool,
    pub is_keyword: bool,
    pub symbol: u8,
    pub padding_bytes: u8,
    pub size_bytes: u8,
    pub padding_columns: u8,
    pub padding_rows: u8,
    pub lookahead_bytes: u8,
    pub parse_state: u16,
}

/// The state that an external scanner serialized after a token.
pub struct ExternalScannerState {
    pub data: Vec<u8>,
}

/// The symbol and parse state of the first leaf of a node.
#[derive(Copy, Clone, Debug, PartialEq, Eq, Structural)]
pub struct SubtreeHeapDataContentDataFirstLeaf {
    pub symbol: u16,
    pub parse_state: u16,
}

/// A subtree stored on the heap: a node with children, or a leaf that does not
/// fit inline. The summary fields (`visible_child_count` through `first_leaf`)
/// describe nodes with children; `external_scanner_state` belongs to leaves
/// that end an external token, and `lookahead_char` to error leaves.
pub struct SubtreeHeapData {
    pub padding: Length,
    pub size: Length,
    pub lookahead_bytes: u32,
    pub error_cost: u32,
    pub symbol: u16,
    pub parse_state: u16,
    pub visible: bool,
    pub named: bool,
    pub extra: bool,
    pub fragile_left: bool,
    pub fragile_right: bool,
    pub has_changes: bool,
    pub has_external_tokens: bool,
    pub is_missing: bool,
    pub is_keyword: bool,
    pub children: Vec<Subtree>,
    pub visible_child_count: u32,
    pub named_child_count: u32,
    pub node_count: u32,
    pub repeat_depth: u32,
    pub dynamic_precedence: i32,
    pub production_id: u16,
    pub first_leaf: SubtreeHeapDataContentDataFirstLeaf,
    pub external_scanner_state: ExternalScannerState,
    pub lookahead_char: i32,
}

/// A syntax tree: a small leaf stored inline, or a shared heap node.
pub enum Subtree {
    Inline(SubtreeInlineData),
    Heap(Rc<SubtreeHeapData>),
}

/// A subtree that its holder may change: inline data, or heap data owned alone.
pub enum MutableSubtree {
    Inline(SubtreeInlineData),
    Heap(SubtreeHeapData),
}

/// An array of subtrees.
pub type SubtreeArray = VoidArray<Subtree>;

/// An array of subtrees being changed.
pub type MutableSubtreeArray = VoidArray<MutableSubtree>;

/// Scratch storage for the traversals that change trees.
pub struct SubtreePool {
    pub free_trees: MutableSubtreeArray,
    pub tree_stack: MutableSubtreeArray,
}

/// The same edit as a `TSInputEdit`, with positions as lengths.
#[derive(Copy, Clone, Debug, PartialEq, Eq, Structural)]
pub struct Edit {
    pub start: Length,
    pub old_end: Length,
    pub new_end: Length,
}

// ---------------------------------------------------------------------------
// The model of a subtree: its view, with the children as a sequence.
// ---------------------------------------------------------------------------

/// The view of a heap node: its fields, with children and scanner state as sequences.
pub struct SubtreeHeapView {
    pub padding: Length,
    pub size: Length,
    pub lookahead_bytes: u32,
    pub error_cost: u32,
    pub symbol: u16,
    pub parse_state: u16,
    pub visible: bool,
    pub named: bool,
    pub extra: bool,
    pub fragile_left: bool,
    pub fragile_right: bool,
    pub has_changes: bool,
    pub has_external_tokens: bool,
    pub is_missing: bool,
    pub is_keyword: bool,
    pub children: Seq<SubtreeView>,
    pub visible_child_count: u32,
    pub named_child_count: u32,
    pub node_count: u32,
    pub repeat_depth: u32,
    pub dynamic_precedence: i32,
    pub production_id: u16,
    pub first_leaf: SubtreeHeapDataContentDataFirstLeaf,
    pub external_scanner_state: Seq<u8>,
    pub lookahead_char: i32,
}

/// The view of a subtree.
pub enum SubtreeView {
    Inline(SubtreeInlineData),
    Heap(SubtreeHeapView),
}

pub open spec fn heap_view(d: SubtreeHeapData) -> SubtreeHeapView
    decreases d, 0int,
{
    SubtreeHeapView {
        padding: d.padding,
        size: d.size,
        lookahead_bytes: d.lookahead_bytes,
        error_cost: d.error_cost,
        symbol: d.symbol,
        parse_state: d.parse_state,
        visible: d.visible,
        named: d.named,
        extra: d.extra,
        fragile_left: d.fragile_left,
        fragile_right: d.fragile_right,
        has_changes: d.has_changes,
        has_external_tokens: d.has_external_tokens,
        is_missing: d.is_missing,
        is_keyword: d.is_keyword,
        children: views_of(d.children@),
        visible_child_count: d.visible_child_count,
        named_child_count: d.named_child_count,
        node_count: d.node_count,
        repeat_depth: d.repeat_depth,
        dynamic_precedence: d.dynamic_precedence,
        production_id: d.production_id,
        first_leaf: d.first_leaf,
        external_scanner_state: d.external_scanner_state.data@,
        lookahead_char: d.lookahead_char,
    }
}

pub open spec fn subtree_view(s: Subtree) -> SubtreeView
    decreases s, 1int,
{
    match s {
        Subtree::Inline(d) => SubtreeView::Inline(d),
        Subtree::Heap(d) => SubtreeView::Heap(heap_view(*d)),
    }
}

pub open spec fn views_of(s: Seq<Subtree>) -> Seq<SubtreeView>
    decreases s, 0int,
{
    if s.len() == 0 {
        Seq::empty()
    } else {
        views_of(s.drop_last()).push(subtree_view(s.last()))
    }
}

impl View for Subtree {
    type V = SubtreeView;

    open spec fn view(&self) -> SubtreeView {
        subtree_view(*self)
    }
}

impl View for MutableSubtree {
    type V = SubtreeView;

    open spec fn view(&self) -> SubtreeView {
        match *self {
            MutableSubtree::Inline(d) => SubtreeView::Inline(d),
            MutableSubtree::Heap(d) => SubtreeView::Heap(heap_view(d)),
        }
    }
}

/// The view of each element of a sequence of subtrees.
pub proof fn lemma_views_of(s: Seq<Subtree>)
    ensures
        views_of(s).len() == s.len(),
        forall|i: int| 0 <= i < s.len() ==> #[trigger] views_of(s)[i] == subtree_view(s[i]),
    decreases s.len(),
{
    if s.len() > 0 {
        lemma_views_of(s.drop_last());
    }
}

pub open spec fn spec_padding(s: SubtreeView) -> Length {
    match s {
        SubtreeView::Inline(d) => Length {
            bytes: d.padding_bytes as u32,
            extent: TSPoint { row: d.padding_rows as u32, column: d.padding_columns as u32 },
        },
        SubtreeView::Heap(d) => d.padding,
    }
}

pub open spec fn spec_size(s: SubtreeView) -> Length {
    match s {
        SubtreeView::Inline(d) => Length {
            bytes: d.size_bytes as u32,
            extent: TSPoint { row: 0, column: d.size_bytes as u32 },
        },
        SubtreeView::Heap(d) => d.size,
    }
}

pub open spec fn spec_total_size(s: SubtreeView) -> Length {
    spec_length_add(spec_padding(s), spec_size(s))
}

pub open spec fn spec_symbol(s: SubtreeView) -> u16 {
    match s {
        SubtreeView::Inline(d) => d.symbol as u16,
        SubtreeView::Heap(d) => d.symbol,
    }
}

pub open spec fn spec_visible(s: SubtreeView) -> bool {
    match s {
        SubtreeView::Inline(d) => d.visible,
        SubtreeView::Heap(d) => d.visible,
    }
}

pub open spec fn spec_named(s: SubtreeView) -> bool {
    match s {
        SubtreeView::Inline(d) => d.named,
        SubtreeView::Heap(d) => d.named,
    }
}

pub open spec fn spec_extra(s: SubtreeView) -> bool {
    match s {
        SubtreeView::Inline(d) => d.extra,
        SubtreeView::Heap(d) => d.extra,
    }
}

pub open spec fn spec_missing(s: SubtreeView) -> bool {
    match s {
        SubtreeView::Inline(d) => d.is_missing,
        SubtreeView::Heap(d) => d.is_missing,
    }
}

pub open spec fn spec_has_changes(s: SubtreeView) -> bool {
    match s {
        SubtreeView::Inline(d) => d.has_changes,
        SubtreeView::Heap(d) => d.has_changes,
    }
}

pub open spec fn spec_is_keyword(s: SubtreeView) -> bool {
    match s {
        SubtreeView::Inline(d) => d.is_keyword,
        SubtreeView::Heap(d) => d.is_keyword,
    }
}

pub open spec fn spec_parse_state(s: SubtreeView) -> u16 {
    match s {
        SubtreeView::Inline(d) => d.parse_state,
        SubtreeView::Heap(d) => d.parse_state,
    }
}

pub open spec fn spec_lookahead_bytes(s: SubtreeView) -> u32 {
    match s {
        SubtreeView::Inline(d) => d.lookahead_bytes as u32,
        SubtreeView::Heap(d) => d.lookahead_bytes,
    }
}

pub open spec fn spec_children(s: SubtreeView) -> Seq<SubtreeView> {
    match s {
        SubtreeView::Inline(_) => Seq::empty(),
        SubtreeView::Heap(d) => d.children,
    }
}

pub open spec fn spec_child_count(s: SubtreeView) -> nat {
    spec_children(s).len()
}

/// The error cost of a subtree: a fixed cost for missing tokens.
pub open spec fn spec_error_cost(s: SubtreeView) -> u32 {
    if spec_missing(s) {
        610
    } else {
        match s {
            SubtreeView::Inline(_) => 0,
            SubtreeView::Heap(d) => d.error_cost,
        }
    }
}

pub open spec fn spec_has_external_tokens(s: SubtreeView) -> bool {
    match s {
        SubtreeView::Inline(_) => false,
        SubtreeView::Heap(d) => d.has_external_tokens,
    }
}

pub open spec fn spec_fragile_left(s: SubtreeView) -> bool {
    match s {
        SubtreeView::Inline(_) => false,
        SubtreeView::Heap(d) => d.fragile_left,
    }
}

pub open spec fn spec_fragile_right(s: SubtreeView) -> bool {
    match s {
        SubtreeView::Inline(_) => false,
        SubtreeView::Heap(d) => d.fragile_right,
    }
}

pub open spec fn spec_repeat_depth(s: SubtreeView) -> u32 {
    match s {
        SubtreeView::Inline(_) => 0,
        SubtreeView::Heap(d) => d.repeat_depth,
    }
}

/// The node count of a subtree: 1 for a leaf.
pub open spec fn spec_node_count(s: SubtreeView) -> u32 {
    match s {
        SubtreeView::Inline(_) => 1,
        SubtreeView::Heap(d) => if d.children.len() == 0 {
            1
        } else {
            d.node_count
        },
    }
}

pub open spec fn spec_dynamic_precedence(s: SubtreeView) -> i32 {
    match s {
        SubtreeView::Inline(_) => 0,
        SubtreeView::Heap(d) => if d.children.len() == 0 {
            0
        } else {
            d.dynamic_precedence
        },
    }
}

pub open spec fn spec_production_id(s: SubtreeView) -> u16 {
    match s {
        SubtreeView::Inline(_) => 0,
        SubtreeView::Heap(d) => if d.children.len() == 0 {
            0
        } else {
            d.production_id
        },
    }
}

pub open spec fn spec_visible_child_count(s: SubtreeView) -> u32 {
    match s {
        SubtreeView::Inline(_) => 0,
        SubtreeView::Heap(d) => if d.children.len() == 0 {
            0
        } else {
            d.visible_child_count
        },
    }
}

pub open spec fn spec_named_child_count(s: SubtreeView) -> u32 {
    match s {
        SubtreeView::Inline(_) => 0,
        SubtreeView::Heap(d) => if d.children.len() == 0 {
            0
        } else {
            d.named_child_count
        },
    }
}

pub open spec fn spec_leaf_symbol(s: SubtreeView) -> u16 {
    match s {
        SubtreeView::Inline(d) => d.symbol as u16,
        SubtreeView::Heap(d) => if d.children.len() == 0 {
            d.symbol
        } else {
            d.first_leaf.symbol
        },
    }
}

pub open spec fn spec_leaf_parse_state(s: SubtreeView) -> u16 {
    match s {
        SubtreeView::Inline(d) => d.parse_state,
        SubtreeView::Heap(d) => if d.children.len() == 0 {
            d.parse_state
        } else {
            d.first_leaf.parse_state
        },
    }
}

pub open spec fn spec_is_error(s: SubtreeView) -> bool {
    spec_symbol(s) == TS_BUILTIN_SYM_ERROR
}

/// The inline fields are within their bit widths, and every node below has
/// a `u32` child count.
pub open spec fn subtree_wf(s: SubtreeView) -> bool
    decreases s, 1int,
{
    match s {
        SubtreeView::Inline(d) => d.padding_rows < 16 && d.lookahead_bytes < 16,
        SubtreeView::Heap(d) => d.children.len() <= u32::MAX && d.external_scanner_state.len()
            <= u32::MAX && children_wf(d.children),
    }
}

pub open spec fn children_wf(s: Seq<SubtreeView>) -> bool
    decreases s, 0int,
{
    if s.len() == 0 {
        true
    } else {
        children_wf(s.drop_last()) && subtree_wf(s.last())
    }
}

/// Whether a subtree is well formed (see `subtree_wf`), checked node by node.
pub fn ts_subtree_wf(s: &Subtree) -> (r: bool)
    ensures
        r == subtree_wf(s@),
    decreases s@,
{
    let ghost sv = s@;
    match s {
        Subtree::Inline(d) => d.padding_rows < 16 && d.lookahead_bytes < 16,
        Subtree::Heap(d) => {
            let ghost h = sv->Heap_0;
            proof {
                lemma_views_of(d.children@);
                lemma_children_wf(h.children);
            }
            if d.children.len() as u64 > u32::MAX as u64 || d.external_scanner_state.data.len() as u64
                > u32::MAX as u64 {
                return false;
            }
            let mut i: usize = 0;
            while i < d.children.len()
                invariant
                    i <= d.children@.len(),
                    sv == SubtreeView::Heap(h),
                    sv == s@,
                    subtree_wf(sv) <==> children_wf(h.children),
                    children_wf(h.children) <==> forall|j: int| 0 <= j < h.children.len() ==> subtree_wf(#[trigger] h.children[j]),
                    h.children.len() == d.children@.len(),
                    forall|j: int| 0 <= j < d.children@.len() ==> #[trigger] h.children[j] == d.children@[j]@,
                    forall|j: int| 0 <= j < i ==> subtree_wf(#[trigger] h.children[j]),
                decreases d.children@.len() - i,
            {
                proof {
                    assert(h.children[i as int] == d.children@[i as int]@);
                    assert(decreases_to!(sv => h.children[i as int]));
                }
                if !ts_subtree_wf(&d.children[i]) {
                    return false;
                }
                i = i + 1;
            }
            true
        },
    }
}

pub proof fn lemma_children_wf(s: Seq<SubtreeView>)
    ensures
        children_wf(s) <==> forall|i: int| 0 <= i < s.len() ==> subtree_wf(#[trigger] s[i]),
    decreases s.len(),
{
    if s.len() > 0 {
        lemma_children_wf(s.drop_last());
        if children_wf(s) {
            assert forall|i: int| 0 <= i < s.len() implies subtree_wf(#[trigger] s[i]) by {
                if i < s.len() - 1 {
                    assert(s.drop_last()[i] == s[i]);
                }
            }
        }
        if forall|i: int| 0 <= i < s.len() ==> subtree_wf(#[trigger] s[i]) {
            assert forall|i: int| 0 <= i < s.drop_last().len() implies subtree_wf(
                #[trigger] s.drop_last()[i],
            ) by {
                assert(s.drop_last()[i] == s[i]);
            }
        }
    }
}

// ---------------------------------------------------------------------------
// Accessors.
// ---------------------------------------------------------------------------

pub fn ts_subtree_padding(self_0: &Subtree) -> (l: Length)
    ensures
        l == spec_padding(self_0@),
{
    match self_0 {
        Subtree::Inline(d) => Length {
            bytes: d.padding_bytes as u32,
            extent: TSPoint { row: d.padding_rows as u32, column: d.padding_columns as u32 },
        },
        Subtree::Heap(d) => d.padding,
    }
}

pub fn ts_subtree_size(self_0: &Subtree) -> (l: Length)
    ensures
        l == spec_size(self_0@),
{
    match self_0 {
        Subtree::Inline(d) => Length {
            bytes: d.size_bytes as u32,
            extent: TSPoint { row: 0, column: d.size_bytes as u32 },
        },
        Subtree::Heap(d) => d.size,
    }
}

/// The padding and the size together.
pub fn ts_subtree_total_size(self_0: &Subtree) -> (l: Length)
    ensures
        l == spec_total_size(self_0@),
{
    length_add(ts_subtree_padding(self_0), ts_subtree_size(self_0))
}

pub fn ts_subtree_total_bytes(self_0: &Subtree) -> (n: u32)
    ensures
        n == spec_total_size(self_0@).bytes,
{
    ts_subtree_total_size(self_0).bytes
}

pub fn ts_subtree_symbol(self_0: &Subtree) -> (s: u16)
    ensures
        s == spec_symbol(self_0@),
{
    match self_0 {
        Subtree::Inline(d) => d.symbol as u16,
        Subtree::Heap(d) => d.symbol,
    }
}

pub fn ts_subtree_visible(self_0: &Subtree) -> (b: bool)
    ensures
        b == spec_visible(self_0@),
{
    match self_0 {
        Subtree::Inline(d) => d.visible,
        Subtree::Heap(d) => d.visible,
    }
}

pub fn ts_subtree_named(self_0: &Subtree) -> (b: bool)
    ensures
        b == spec_named(self_0@),
{
    match self_0 {
        Subtree::Inline(d) => d.named,
        Subtree::Heap(d) => d.named,
    }
}

pub fn ts_subtree_extra(self_0: &Subtree) -> (b: bool)
    ensures
        b == spec_extra(self_0@),
{
    match self_0 {
        Subtree::Inline(d) => d.extra,
        Subtree::Heap(d) => d.extra,
    }
}

pub fn ts_subtree_missing(self_0: &Subtree) -> (b: bool)
    ensures
        b == spec_missing(self_0@),
{
    match self_0 {
        Subtree::Inline(d) => d.is_missing,
        Subtree::Heap(d) => d.is_missing,
    }
}

pub fn ts_subtree_has_changes(self_0: &Subtree) -> (b: bool)
    ensures
        b == spec_has_changes(self_0@),
{
    match self_0 {
        Subtree::Inline(d) => d.has_changes,
        Subtree::Heap(d) => d.has_changes,
    }
}

pub fn ts_subtree_is_keyword(self_0: &Subtree) -> (b: bool)
    ensures
        b == spec_is_keyword(self_0@),
{
    match self_0 {
        Subtree::Inline(d) => d.is_keyword,
        Subtree::Heap(d) => d.is_keyword,
    }
}

pub fn ts_subtree_parse_state(self_0: &Subtree) -> (s: u16)
    ensures
        s == spec_parse_state(self_0@),
{
    match self_0 {
        Subtree::Inline(d) => d.parse_state,
        Subtree::Heap(d) => d.parse_state,
    }
}

pub fn ts_subtree_lookahead_bytes(self_0: &Subtree) -> (n: u32)
    ensures
        n == spec_lookahead_bytes(self_0@),
{
    match self_0 {
        Subtree::Inline(d) => d.lookahead_bytes as u32,
        Subtree::Heap(d) => d.lookahead_bytes,
    }
}

pub fn ts_subtree_child_count(self_0: &Subtree) -> (n: u32)
    requires
        subtree_wf(self_0@),
    ensures
        n == spec_child_count(self_0@),
{
    match self_0 {
        Subtree::Inline(_) => 0,
        Subtree::Heap(d) => {
            proof {
                lemma_views_of(d.children@);
            }
            d.children.len() as u32
        },
    }
}

/// The error cost of a subtree (missing tokens cost a fixed amount).
pub fn ts_subtree_error_cost(self_0: &Subtree) -> (n: u32)
    ensures
        n == spec_error_cost(self_0@),
{
    if ts_subtree_missing(self_0) {
        610
    } else {
        match self_0 {
            Subtree::Inline(_) => 0,
            Subtree::Heap(d) => d.error_cost,
        }
    }
}

pub fn ts_subtree_has_external_tokens(self_0: &Subtree) -> (b: bool)
    ensures
        b == spec_has_external_tokens(self_0@),
{
    match self_0 {
        Subtree::Inline(_) => false,
        Subtree::Heap(d) => d.has_external_tokens,
    }
}

pub fn ts_subtree_fragile_left(self_0: &Subtree) -> (b: bool)
    ensures
        b == spec_fragile_left(self_0@),
{
    match self_0 {
        Subtree::Inline(_) => false,
        Subtree::Heap(d) => d.fragile_left,
    }
}

pub fn ts_subtree_fragile_right(self_0: &Subtree) -> (b: bool)
    ensures
        b == spec_fragile_right(self_0@),
{
    match self_0 {
        Subtree::Inline(_) => false,
        Subtree::Heap(d) => d.fragile_right,
    }
}

/// Whether either edge of the subtree is fragile.
pub fn ts_subtree_is_fragile(self_0: &Subtree) -> (b: bool)
    ensures
        b == (spec_fragile_left(self_0@) || spec_fragile_right(self_0@)),
{
    match self_0 {
        Subtree::Inline(_) => false,
        Subtree::Heap(d) => d.fragile_left || d.fragile_right,
    }
}

pub fn ts_subtree_repeat_depth(self_0: &Subtree) -> (n: u32)
    ensures
        n == spec_repeat_depth(self_0@),
{
    match self_0 {
        Subtree::Inline(_) => 0,
        Subtree::Heap(d) => d.repeat_depth,
    }
}

pub fn ts_subtree_node_count(self_0: &Subtree) -> (n: u32)
    ensures
        n == spec_node_count(self_0@),
{
    match self_0 {
        Subtree::Inline(_) => 1,
        Subtree::Heap(d) => if d.children.len() == 0 {
            1
        } else {
            d.node_count
        },
    }
}

pub fn ts_subtree_dynamic_precedence(self_0: &Subtree) -> (n: i32)
    ensures
        n == spec_dynamic_precedence(self_0@),
{
    match self_0 {
        Subtree::Inline(_) => 0,
        Subtree::Heap(d) => if d.children.len() == 0 {
            0
        } else {
            d.dynamic_precedence
        },
    }
}

pub fn ts_subtree_production_id(self_0: &Subtree) -> (n: u16)
    ensures
        n == spec_production_id(self_0@),
{
    match self_0 {
        Subtree::Inline(_) => 0,
        Subtree::Heap(d) => if d.children.len() == 0 {
            0
        } else {
            d.production_id
        },
    }
}

pub fn ts_subtree_visible_child_count(self_0: &Subtree) -> (n: u32)
    ensures
        n == spec_visible_child_count(self_0@),
{
    match self_0 {
        Subtree::Inline(_) => 0,
        Subtree::Heap(d) => if d.children.len() == 0 {
            0
        } else {
            d.visible_child_count
        },
    }
}

pub fn ts_subtree_named_child_count(self_0: &Subtree) -> (n: u32)
    ensures
        n == spec_named_child_count(self_0@),
{
    match self_0 {
        Subtree::Inline(_) => 0,
        Subtree::Heap(d) => if d.children.len() == 0 {
            0
        } else {
            d.named_child_count
        },
    }
}

/// The symbol of the first leaf.
pub fn ts_subtree_leaf_symbol(self_0: &Subtree) -> (s: u16)
    ensures
        s == spec_leaf_symbol(self_0@),
{
    match self_0 {
        Subtree::Inline(d) => d.symbol as u16,
        Subtree::Heap(d) => if d.children.len() == 0 {
            d.symbol
        } else {
            d.first_leaf.symbol
        },
    }
}

/// The parse state of the first leaf.
pub fn ts_subtree_leaf_parse_state(self_0: &Subtree) -> (s: u16)
    ensures
        s == spec_leaf_parse_state(self_0@),
{
    match self_0 {
        Subtree::Inline(d) => d.parse_state,
        Subtree::Heap(d) => if d.children.len() == 0 {
            d.parse_state
        } else {
            d.first_leaf.parse_state
        },
    }
}

pub fn ts_subtree_is_error(self_0: &Subtree) -> (b: bool)
    ensures
        b == spec_is_error(self_0@),
{
    ts_subtree_symbol(self_0) == TS_BUILTIN_SYM_ERROR
}

pub fn ts_subtree_is_eof(self_0: &Subtree) -> (b: bool)
    ensures
        b == (spec_symbol(self_0@) == TS_BUILTIN_SYM_END),
{
    ts_subtree_symbol(self_0) == TS_BUILTIN_SYM_END
}

/// The `index`-th child of a node.
pub fn ts_subtree_child(self_0: &Subtree, index: usize) -> (c: &Subtree)
    requires
        index < spec_child_count(self_0@),
    ensures
        c@ == spec_children(self_0@)[index as int],
{
    match self_0 {
        Subtree::Heap(d) => {
            proof {
                lemma_views_of(d.children@);
            }
            &d.children[index]
        },
        Subtree::Inline(_) => {
            proof {
                assert(false);
            }
            self_0
        },
    }
}

// ---------------------------------------------------------------------------
// Sharing and changing subtrees.
// ---------------------------------------------------------------------------

/// The inline leaf with every field zero and every flag off.
pub open spec fn spec_empty_leaf() -> Subtree {
    Subtree::Inline(
        SubtreeInlineData {
            visible: false,
            named: false,
            extra: false,
            has_changes: false,
            is_missing: false,
            is_keyword: false,
            symbol: 0,
            padding_bytes: 0,
            size_bytes: 0,
            padding_columns: 0,
            padding_rows: 0,
            lookahead_bytes: 0,
            parse_state: 0,
        },
    )
}

/// An inline leaf with every field zero, to hold a place while a subtree is moved.
pub(crate) fn empty_leaf() -> (s: Subtree)
    ensures
        s == spec_empty_leaf(),
{
    Subtree::Inline(
        SubtreeInlineData {
            visible: false,
            named: false,
            extra: false,
            has_changes: false,
            is_missing: false,
            is_keyword: false,
            symbol: 0,
            padding_bytes: 0,
            size_bytes: 0,
            padding_columns: 0,
            padding_rows: 0,
            lookahead_bytes: 0,
            parse_state: 0,
        },
    )
}

/// Another handle to the same subtree; heap nodes are shared, not copied.
pub fn ts_subtree_retain(self_0: &Subtree) -> (s: Subtree)
    ensures
        s == *self_0,
{
    match self_0 {
        Subtree::Inline(d) => Subtree::Inline(*d),
        Subtree::Heap(d) => Subtree::Heap(Rc::clone(d)),
    }
}

/// Gives up a handle to a subtree; a heap node is freed with its last handle.
pub fn ts_subtree_release(pool: &mut SubtreePool, self_0: Subtree)
    ensures
        final(pool).tree_stack.contents@.len() == 0,
        final(pool).tree_stack.capacity == old(pool).tree_stack.capacity,
        final(pool).free_trees == old(pool).free_trees,
{
    pool.tree_stack.contents = Vec::new();
    drop_subtree(self_0);
}

fn drop_subtree(s: Subtree) {
}

/// A pool with room for `capacity` free trees.
pub fn ts_subtree_pool_new(capacity: u32) -> (p: SubtreePool)
    ensures
        p.free_trees.contents@.len() == 0,
        p.free_trees.capacity == capacity,
        p.tree_stack.contents@.len() == 0,
        p.tree_stack.capacity == 0,
{
    SubtreePool {
        free_trees: VoidArray { contents: Vec::new(), capacity },
        tree_stack: VoidArray { contents: Vec::new(), capacity: 0 },
    }
}

/// Empties a pool and releases its storage.
pub fn ts_subtree_pool_delete(self_0: &mut SubtreePool)
    ensures
        final(self_0).free_trees.contents@.len() == 0,
        final(self_0).free_trees.capacity == 0,
        final(self_0).tree_stack.contents@.len() == 0,
        final(self_0).tree_stack.capacity == 0,
{
    self_0.free_trees = VoidArray { contents: Vec::new(), capacity: 0 };
    self_0.tree_stack = VoidArray { contents: Vec::new(), capacity: 0 };
}

fn clone_bytes(v: &Vec<u8>) -> (r: Vec<u8>)
    ensures
        r@ == v@,
{
    let mut r: Vec<u8> = Vec::new();
    let mut i: usize = 0;
    while i < v.len()
        invariant
            i <= v@.len(),
            r@ == v@.subrange(0, i as int),
        decreases v@.len() - i,
    {
        r.push(v[i]);
        i = i + 1;
    }
    r
}

/// A copy of the children of a node, sharing each child.
pub fn clone_children(v: &Vec<Subtree>) -> (r: Vec<Subtree>)
    ensures
        r@ == v@,
{
    let mut r: Vec<Subtree> = Vec::new();
    let mut i: usize = 0;
    while i < v.len()
        invariant
            i <= v@.len(),
            r@ == v@.subrange(0, i as int),
        decreases v@.len() - i,
    {
        r.push(ts_subtree_retain(&v[i]));
        i = i + 1;
    }
    r
}

/// A copy of the data of a heap node (its children shared).
pub fn heap_data_clone(d: &SubtreeHeapData) -> (r: SubtreeHeapData)
    ensures
        heap_view(r) == heap_view(*d),
{
    SubtreeHeapData {
        padding: d.padding,
        size: d.size,
        lookahead_bytes: d.lookahead_bytes,
        error_cost: d.error_cost,
        symbol: d.symbol,
        parse_state: d.parse_state,
        visible: d.visible,
        named: d.named,
        extra: d.extra,
        fragile_left: d.fragile_left,
        fragile_right: d.fragile_right,
        has_changes: d.has_changes,
        has_external_tokens: d.has_external_tokens,
        is_missing: d.is_missing,
        is_keyword: d.is_keyword,
        children: clone_children(&d.children),
        visible_child_count: d.visible_child_count,
        named_child_count: d.named_child_count,
        node_count: d.node_count,
        repeat_depth: d.repeat_depth,
        dynamic_precedence: d.dynamic_precedence,
        production_id: d.production_id,
        first_leaf: d.first_leaf,
        external_scanner_state: ExternalScannerState {
            data: clone_bytes(&d.external_scanner_state.data),
        },
        lookahead_char: d.lookahead_char,
    }
}

/// A subtree from a mutable one.
pub fn ts_subtree_from_mut(self_0: MutableSubtree) -> (s: Subtree)
    ensures
        s@ == self_0@,
{
    match self_0 {
        MutableSubtree::Inline(d) => Subtree::Inline(d),
        MutableSubtree::Heap(d) => Subtree::Heap(Rc::new(d)),
    }
}

/// A mutable subtree with the same value: the heap data is taken over when
/// this is its only handle, and copied otherwise.
pub fn ts_subtree_to_mut_unsafe(self_0: Subtree) -> (m: MutableSubtree)
    ensures
        m@ == self_0@,
{
    match self_0 {
        Subtree::Inline(d) => MutableSubtree::Inline(d),
        Subtree::Heap(rc) => match Rc::try_unwrap(rc) {
            Ok(d) => MutableSubtree::Heap(d),
            Err(rc) => MutableSubtree::Heap(heap_data_clone(&*rc)),
        },
    }
}

/// A subtree that may be changed without affecting other holders of `self_0`.
pub fn ts_subtree_make_mut(pool: &mut SubtreePool, self_0: Subtree) -> (m: MutableSubtree)
    ensures
        m@ == self_0@,
        *final(pool) == *old(pool),
{
    ts_subtree_to_mut_unsafe(self_0)
}

/// Marks a subtree as extra.
pub fn ts_subtree_set_extra(self_0: &mut MutableSubtree)
    ensures
        match (old(self_0)@, final(self_0)@) {
            (SubtreeView::Inline(a), SubtreeView::Inline(b)) => b == (SubtreeInlineData {
                extra: true,
                ..a
            }),
            (SubtreeView::Heap(a), SubtreeView::Heap(b)) => b == (SubtreeHeapView {
                extra: true,
                ..a
            }),
            _ => false,
        },
{
    match self_0 {
        MutableSubtree::Inline(d) => {
            d.extra = true;
        },
        MutableSubtree::Heap(d) => {
            d.extra = true;
        },
    }
}

// ---------------------------------------------------------------------------
// External scanner states.
// ---------------------------------------------------------------------------

/// A state holding a copy of `data[..length]`.
pub fn ts_external_scanner_state_init(self_0: &mut ExternalScannerState, data: &[u8], length: u32)
    requires
        length <= data@.len(),
    ensures
        final(self_0).data@ == data@.subrange(0, length as int),
{
    let mut v: Vec<u8> = Vec::new();
    let mut i: usize = 0;
    while i < length as usize
        invariant
            i <= length <= data@.len(),
            v@ == data@.subrange(0, i as int),
        decreases length - i,
    {
        v.push(data[i]);
        i = i + 1;
    }
    self_0.data = v;
}

/// A copy of a state.
pub fn ts_external_scanner_state_copy(self_0: &ExternalScannerState) -> (s: ExternalScannerState)
    ensures
        s.data@ == self_0.data@,
{
    ExternalScannerState { data: clone_bytes(&self_0.data) }
}

/// Releases the storage of a state.
pub fn ts_external_scanner_state_delete(self_0: &mut ExternalScannerState)
    ensures
        final(self_0).data@.len() == 0,
{
    self_0.data = Vec::new();
}

/// The bytes of a state.
pub fn ts_external_scanner_state_data(self_0: &ExternalScannerState) -> (d: &[u8])
    ensures
        d@ == self_0.data@,
{
    self_0.data.as_slice()
}

/// Whether two states hold the same bytes.
pub fn ts_external_scanner_state_eq(a: &ExternalScannerState, b: &ExternalScannerState) -> (r: bool)
    ensures
        r == (a.data@ == b.data@),
{
    if a.data.len() != b.data.len() {
        return false;
    }
    let mut i: usize = 0;
    while i < a.data.len()
        invariant
            i <= a.data@.len(),
            a.data@.len() == b.data@.len(),
            a.data@.subrange(0, i as int) == b.data@.subrange(0, i as int),
        decreases a.data@.len() - i,
    {
        if a.data[i] != b.data[i] {
            assert(a.data@[i as int] != b.data@[i as int]);
            return false;
        }
        assert(a.data@.subrange(0, i + 1) == a.data@.subrange(0, i as int).push(a.data@[i as int]));
        assert(b.data@.subrange(0, i + 1) == b.data@.subrange(0, i as int).push(b.data@[i as int]));
        i = i + 1;
    }
    assert(a.data@ == a.data@.subrange(0, a.data@.len() as int));
    assert(b.data@ == b.data@.subrange(0, b.data@.len() as int));
    true
}

/// The scanner state that a subtree (or its absence) stands for: that of a
/// leaf ending an external token, and the empty state otherwise.
pub open spec fn spec_scanner_state_of(s: Option<SubtreeView>) -> Seq<u8> {
    match s {
        Some(SubtreeView::Heap(d)) => if d.has_external_tokens && d.children.len() == 0 {
            d.external_scanner_state
        } else {
            Seq::empty()
        },
        _ => Seq::empty(),
    }
}

/// The view of an optional subtree.
pub open spec fn opt_view(s: Option<Subtree>) -> Option<SubtreeView> {
    match s {
        Some(t) => Some(t@),
        None => None,
    }
}

fn scanner_state_of(s: &Option<Subtree>) -> (r: &[u8])
    ensures
        r@ == spec_scanner_state_of(opt_view(*s)),
{
    match s {
        Some(Subtree::Heap(d)) => {
            proof {
                lemma_views_of(d.children@);
            }
            if d.has_external_tokens && d.children.len() == 0 {
                d.external_scanner_state.data.as_slice()
            } else {
                empty_bytes()
            }
        },
        _ => empty_bytes(),
    }
}

fn empty_bytes() -> (r: &'static [u8])
    ensures
        r@.len() == 0,
{
    &[]
}

/// Whether two subtrees (either one possibly absent) leave the external scanner
/// in the same state.
pub fn ts_subtree_external_scanner_state_eq(self_0: &Option<Subtree>, other: &Option<Subtree>) -> (r:
    bool)
    ensures
        r == (spec_scanner_state_of(opt_view(*self_0)) == spec_scanner_state_of(opt_view(*other))),
{
    let a = scanner_state_of(self_0);
    let b = scanner_state_of(other);
    if a.len() != b.len() {
        return false;
    }
    let mut i: usize = 0;
    while i < a.len()
        invariant
            i <= a@.len(),
            a@.len() == b@.len(),
            a@ == spec_scanner_state_of(opt_view(*self_0)),
            b@ == spec_scanner_state_of(opt_view(*other)),
            a@.subrange(0, i as int) == b@.subrange(0, i as int),
        decreases a@.len() - i,
    {
        if a[i] != b[i] {
            assert(a@[i as int] != b@[i as int]);
            return false;
        }
        assert(a@.subrange(0, i + 1) == a@.subrange(0, i as int).push(a@[i as int]));
        assert(b@.subrange(0, i + 1) == b@.subrange(0, i as int).push(b@[i as int]));
        i = i + 1;
    }
    assert(a@ == a@.subrange(0, a@.len() as int));
    assert(b@ == b@.subrange(0, b@.len() as int));
    true
}

} // verus!
