use vstd::prelude::*;

use crate::length::{u32_wrapping_add, wadd};
use crate::language::{
    spec_alias_at, spec_field_map, spec_symbol_metadata, spec_symbol_name, ts_language_alias_at,
    ts_language_field_map, ts_language_symbol_metadata, ts_language_symbol_name, TSLanguage,
};
use crate::subtree::{
    spec_production_id, spec_total_size, ts_subtree_child, ts_subtree_production_id,
    ts_subtree_total_bytes,
    heap_view, lemma_views_of, opt_view, spec_child_count, spec_children, spec_extra,
    spec_is_error, spec_missing, spec_named, spec_size, spec_symbol, spec_visible, subtree_wf,
    ts_subtree_child_count, ts_subtree_extra, ts_subtree_is_error, ts_subtree_missing,
    ts_subtree_named, ts_subtree_size, ts_subtree_symbol, ts_subtree_visible, views_of, Subtree,
    SubtreeView, lemma_children_wf,
};

verus! {

/// The label that a subtree is written under: the root's, none, or a field
/// name (by its index in the language's field names).
#[derive(Copy, Clone, Debug, PartialEq, Eq, Structural)]
pub enum FieldLabel {
    Root,
    Unlabeled,
    Named(u16),
}

/// The decimal digits of a natural number.
pub open spec fn spec_digits(n: nat) -> Seq<u8>
    decreases n,
{
    if n < 10 {
        seq![(48 + n) as u8]
    } else {
        spec_digits(n / 10).push((48 + n % 10) as u8)
    }
}

/// An integer in decimal, with a minus sign when negative.
pub open spec fn spec_decimal(n: int) -> Seq<u8> {
    if n < 0 {
        seq![45u8] + spec_digits((-n) as nat)
    } else {
        spec_digits(n as nat)
    }
}

/// How an unexpected character is written: quoted when printable, as an
/// escape for the usual control characters, `INVALID` for -1, and as a
/// decimal number otherwise.
pub open spec fn spec_char_string(c: i32) -> Seq<u8> {
    if c == -1 {
        seq![73u8, 78, 86, 65, 76, 73, 68]
    } else if c == 0 {
        seq![39u8, 92, 48, 39]
    } else if c == 10 {
        seq![39u8, 92, 110, 39]
    } else if c == 9 {
        seq![39u8, 92, 116, 39]
    } else if c == 13 {
        seq![39u8, 92, 114, 39]
    } else if 32 <= c < 127 {
        seq![39u8, c as u8, 39]
    } else {
        spec_decimal(c as int)
    }
}

/// The name of a symbol, or `(null)` for a symbol outside the table.
pub open spec fn spec_name_text(l: &TSLanguage, symbol: u16) -> Seq<u8> {
    match spec_symbol_name(l, symbol) {
        Some(n) => n,
        None => seq![40u8, 110, 117, 108, 108, 41],
    }
}

/// The text of a field label: the field's name, or nothing.
pub open spec fn spec_field_text(l: &TSLanguage, f: FieldLabel) -> Seq<u8> {
    match f {
        FieldLabel::Named(id) => if id < l.field_names@.len() {
            l.field_names@[id as int]@
        } else {
            Seq::empty()
        },
        _ => Seq::empty(),
    }
}

/// The field of the structural child `index` in the field entries
/// `field_map_entries[k..end]`: the first entry for it that is not inherited.
pub open spec fn spec_child_field(l: &TSLanguage, k: int, end: int, index: u32) -> Option<u16>
    decreases end - k,
{
    if k >= end || k < 0 || k >= l.field_map_entries@.len() {
        None
    } else {
        let e = l.field_map_entries@[k];
        if !e.inherited && e.child_index as u32 == index {
            Some(e.field_id)
        } else {
            spec_child_field(l, k + 1, end, index)
        }
    }
}

/// The alias symbol of a structural child and whether it is named.
pub open spec fn spec_child_alias(l: &TSLanguage, production_id: u16, index: u32) -> (u16, bool) {
    let alias = spec_alias_at(l, production_id as u32, index);
    (alias, alias != 0 && spec_symbol_metadata(l, alias).named)
}

/// The label of a structural child: its field, if the production gives it
/// one; else, under an invisible parent, the parent's label.
pub open spec fn spec_child_label(
    l: &TSLanguage,
    production_id: u16,
    index: u32,
    parent_visible: bool,
    parent_label: FieldLabel,
) -> FieldLabel {
    let (start, end) = spec_field_map(l, production_id as u32);
    match spec_child_field(l, start as int, end as int, index) {
        Some(id) => FieldLabel::Named(id),
        None => if parent_visible {
            FieldLabel::Unlabeled
        } else {
            parent_label
        },
    }
}

/// Whether a subtree shows as a node in the S-expression.
pub open spec fn spec_shown(
    s: SubtreeView,
    include_all: bool,
    alias_symbol: u16,
    alias_is_named: bool,
) -> bool {
    include_all || spec_missing(s) || (if alias_symbol != 0 {
        alias_is_named
    } else {
        spec_visible(s) && spec_named(s)
    })
}

pub open spec fn spec_lookahead_char(s: SubtreeView) -> i32 {
    match s {
        SubtreeView::Heap(h) => h.lookahead_char,
        SubtreeView::Inline(_) => 0,
    }
}

/// What a shown subtree's text starts with: a space before all but the root,
/// and the field name, if it has one.
pub open spec fn spec_lead(l: &TSLanguage, label: FieldLabel) -> Seq<u8> {
    if label == FieldLabel::Root {
        Seq::empty()
    } else if label is Named {
        seq![32u8] + spec_field_text(l, label) + seq![58u8, 32]
    } else {
        seq![32u8]
    }
}

/// How a shown subtree's node opens: `(UNEXPECTED c` for an error leaf with
/// content, `(MISSING name` (the name quoted when anonymous) for a missing
/// leaf, and `(name` otherwise.
pub open spec fn spec_opening(
    s: SubtreeView,
    l: &TSLanguage,
    alias_symbol: u16,
    alias_is_named: bool,
) -> Seq<u8> {
    if spec_is_error(s) && spec_child_count(s) == 0 && spec_size(s).bytes > 0 {
        seq![40u8, 85, 78, 69, 88, 80, 69, 67, 84, 69, 68, 32] + spec_char_string(
            spec_lookahead_char(s),
        )
    } else {
        let symbol = if alias_symbol != 0 {
            alias_symbol
        } else {
            spec_symbol(s)
        };
        let name = spec_name_text(l, symbol);
        if spec_missing(s) {
            seq![40u8, 77, 73, 83, 83, 73, 78, 71, 32] + if alias_is_named || spec_named(s) {
                name
            } else {
                seq![34u8] + name + seq![34u8]
            }
        } else {
            seq![40u8] + name
        }
    }
}

/// What opens a subtree's part of the S-expression; a hidden root shows as
/// `("name")`.
pub open spec fn spec_node_head(
    s: SubtreeView,
    l: &TSLanguage,
    include_all: bool,
    alias_symbol: u16,
    alias_is_named: bool,
    label: FieldLabel,
) -> Seq<u8> {
    if spec_shown(s, include_all, alias_symbol, alias_is_named) {
        spec_lead(l, label) + spec_opening(s, l, alias_symbol, alias_is_named)
    } else if label == FieldLabel::Root {
        seq![40u8, 34] + spec_name_text(l, spec_symbol(s)) + seq![34u8, 41]
    } else {
        Seq::empty()
    }
}

/// A subtree as an S-expression: shown nodes as `(name children...)`, with
/// field names before labeled children, missing nodes as `(MISSING name)`,
/// unexpected characters as `(UNEXPECTED c)`; the children of hidden nodes
/// appear in their place.
pub open spec fn spec_write(
    s: SubtreeView,
    l: &TSLanguage,
    include_all: bool,
    alias_symbol: u16,
    alias_is_named: bool,
    label: FieldLabel,
) -> Seq<u8>
    decreases s, 1int, 0int,
{
    let shown = spec_shown(s, include_all, alias_symbol, alias_is_named);
    let head = spec_node_head(s, l, include_all, alias_symbol, alias_is_named, label);
    let body = match s {
        SubtreeView::Heap(h) => spec_write_children(
            h.children,
            0,
            0,
            l,
            include_all,
            h.production_id,
            shown,
            label,
        ),
        SubtreeView::Inline(_) => Seq::empty(),
    };
    head + body + if shown {
        seq![41u8]
    } else {
        Seq::empty()
    }
}

/// The children `cs[i..]` as S-expressions, where `index` counts the
/// structural (non-extra) children before `i`.
pub open spec fn spec_write_children(
    cs: Seq<SubtreeView>,
    i: int,
    index: u32,
    l: &TSLanguage,
    include_all: bool,
    production_id: u16,
    parent_shown: bool,
    parent_label: FieldLabel,
) -> Seq<u8>
    decreases cs, 0int, cs.len() - i,
{
    if i < 0 || i >= cs.len() {
        Seq::empty()
    } else {
        spec_write_child(cs[i], index, l, include_all, production_id, parent_shown, parent_label)
            + spec_write_children(
            cs,
            i + 1,
            spec_next_index(cs[i], index),
            l,
            include_all,
            production_id,
            parent_shown,
            parent_label,
        )
    }
}

/// The structural index after a child: extra children do not count.
pub open spec fn spec_next_index(c: SubtreeView, index: u32) -> u32 {
    if spec_extra(c) {
        index
    } else {
        wadd(index, 1)
    }
}

/// One child as an S-expression: an extra child without alias or label; a
/// structural child with the alias and the label that the production gives
/// its index.
pub open spec fn spec_write_child(
    c: SubtreeView,
    index: u32,
    l: &TSLanguage,
    include_all: bool,
    production_id: u16,
    parent_shown: bool,
    parent_label: FieldLabel,
) -> Seq<u8>
    decreases c, 2int, 0int,
{
    if spec_extra(c) {
        spec_write(c, l, include_all, 0, false, FieldLabel::Unlabeled)
    } else {
        let (alias, alias_is_named) = spec_child_alias(l, production_id, index);
        spec_write(
            c,
            l,
            include_all,
            alias,
            alias_is_named,
            spec_child_label(l, production_id, index, parent_shown, parent_label),
        )
    }
}

/// The S-expression of a tree, `(NULL)` for no tree.
pub open spec fn spec_subtree_string(s: Option<SubtreeView>, l: &TSLanguage, include_all: bool) -> Seq<
    u8,
> {
    match s {
        Some(t) => spec_write(t, l, include_all, 0, false, FieldLabel::Root),
        None => seq![40u8, 78, 85, 76, 76, 41],
    }
}

/// A missing token whose symbol is anonymous, and not aliased to a named
/// symbol, opens as `(MISSING "name"`: its name in quotes, as a string
/// literal of the grammar; a named one opens as `(MISSING name`.
pub proof fn lemma_missing_opening(s: SubtreeView, l: &TSLanguage, alias_symbol: u16, alias_is_named: bool)
    requires
        spec_missing(s),
        !spec_is_error(s),
    ensures
        ({
            let name = spec_name_text(l, if alias_symbol != 0 {
                alias_symbol
            } else {
                spec_symbol(s)
            });
            let missing = seq![40u8, 77, 73, 83, 83, 73, 78, 71, 32];
            &&& !alias_is_named && !spec_named(s) ==> spec_opening(s, l, alias_symbol, alias_is_named)
                == missing + seq![34u8] + name + seq![34u8]
            &&& alias_is_named || spec_named(s) ==> spec_opening(s, l, alias_symbol, alias_is_named)
                == missing + name
        }),
{
    let name = spec_name_text(l, if alias_symbol != 0 {
        alias_symbol
    } else {
        spec_symbol(s)
    });
    let missing = seq![40u8, 77, 73, 83, 83, 73, 78, 71, 32];
    assert(missing + (seq![34u8] + name + seq![34u8]) =~= missing + seq![34u8] + name + seq![34u8]);
}

/// A tree that is only a missing token prints as `(MISSING "name")` when the
/// token is anonymous, and as `(MISSING name)` when it is named.
pub proof fn lemma_missing_leaf_string(s: SubtreeView, l: &TSLanguage, include_all: bool)
    requires
        spec_missing(s),
        !spec_is_error(s),
        spec_child_count(s) == 0,
    ensures
        ({
            let name = spec_name_text(l, spec_symbol(s));
            let missing = seq![40u8, 77, 73, 83, 83, 73, 78, 71, 32];
            &&& !spec_named(s) ==> spec_subtree_string(Some(s), l, include_all) == missing + seq![34u8]
                + name + seq![34u8, 41]
            &&& spec_named(s) ==> spec_subtree_string(Some(s), l, include_all) == missing + name + seq![41u8]
        }),
{
    lemma_missing_opening(s, l, 0, false);
    let name = spec_name_text(l, spec_symbol(s));
    let missing = seq![40u8, 77, 73, 83, 83, 73, 78, 71, 32];
    let body = match s {
        SubtreeView::Heap(h) => spec_write_children(h.children, 0, 0, l, include_all, h.production_id, true, FieldLabel::Root),
        SubtreeView::Inline(_) => Seq::empty(),
    };
    assert(body =~= Seq::<u8>::empty());
    let o = spec_opening(s, l, 0, false);
    assert(spec_subtree_string(Some(s), l, include_all) =~= o + seq![41u8]);
    assert(missing + seq![34u8] + name + seq![34u8] + seq![41u8] =~= missing + seq![34u8] + name + seq![34u8, 41]);
}

fn append(out: &mut Vec<u8>, bytes: Vec<u8>)
    ensures
        final(out)@ == old(out)@ + bytes@,
{
    let mut bytes = bytes;
    out.append(&mut bytes);
}

fn write_digits(out: &mut Vec<u8>, n: u64)
    ensures
        final(out)@ == old(out)@ + spec_digits(n as nat),
    decreases n,
{
    if n < 10 {
        out.push((48 + n) as u8);
    } else {
        write_digits(out, n / 10);
        out.push((48 + n % 10) as u8);
        proof {
            assert(old(out)@ + spec_digits((n / 10) as nat) + seq![(48 + n % 10) as u8] =~= old(
                out,
            )@ + spec_digits(n as nat));
        }
    }
}

fn write_decimal(out: &mut Vec<u8>, n: i32)
    ensures
        final(out)@ == old(out)@ + spec_decimal(n as int),
{
    if n < 0 {
        out.push(45u8);
        let m: i64 = n as i64;
        write_digits(out, (-m) as u64);
        proof {
            assert(old(out)@ + seq![45u8] + spec_digits((-n) as nat) =~= old(out)@ + spec_decimal(
                n as int,
            ));
        }
    } else {
        write_digits(out, n as u64);
    }
}

fn ts_subtree__write_char_to_string(out: &mut Vec<u8>, c: i32)
    ensures
        final(out)@ == old(out)@ + spec_char_string(c),
{
    if c == -1 {
        append(out, vec![73u8, 78, 86, 65, 76, 73, 68]);
    } else if c == 0 {
        append(out, vec![39u8, 92, 48, 39]);
    } else if c == 10 {
        append(out, vec![39u8, 92, 110, 39]);
    } else if c == 9 {
        append(out, vec![39u8, 92, 116, 39]);
    } else if c == 13 {
        append(out, vec![39u8, 92, 114, 39]);
    } else if 32 <= c && c < 127 {
        append(out, vec![39u8, c as u8, 39]);
    } else {
        write_decimal(out, c);
    }
}

fn write_name(out: &mut Vec<u8>, l: &TSLanguage, symbol: u16)
    ensures
        final(out)@ == old(out)@ + spec_name_text(l, symbol),
{
    match ts_language_symbol_name(l, symbol) {
        Some(n) => append(out, n),
        None => append(out, vec![40u8, 110, 117, 108, 108, 41]),
    }
}

fn write_field(out: &mut Vec<u8>, l: &TSLanguage, f: FieldLabel)
    ensures
        final(out)@ == old(out)@ + spec_field_text(l, f),
{
    if let FieldLabel::Named(id) = f {
        if (id as usize) < l.field_names.len() {
            append(out, l.field_names[id as usize].clone());
        }
    }
    proof {
        assert(old(out)@ + Seq::<u8>::empty() =~= old(out)@);
    }
}

pub(crate) fn child_field(l: &TSLanguage, start: u32, end: u32, index: u32) -> (r: Option<u16>)
    ensures
        r == spec_child_field(l, start as int, end as int, index),
{
    let mut k: u32 = start;
    while k < end
        invariant
            start <= k || k >= end,
            spec_child_field(l, start as int, end as int, index) == spec_child_field(
                l,
                k as int,
                end as int,
                index,
            ),
        decreases end - k,
    {
        if (k as usize) >= l.field_map_entries.len() {
            return None;
        }
        let e = l.field_map_entries[k as usize];
        if !e.inherited && e.child_index as u32 == index {
            return Some(e.field_id);
        }
        k = k + 1;
    }
    None
}

fn child_label(
    l: &TSLanguage,
    production_id: u16,
    index: u32,
    parent_visible: bool,
    parent_label: FieldLabel,
) -> (r: FieldLabel)
    ensures
        r == spec_child_label(l, production_id, index, parent_visible, parent_label),
{
    let (start, end) = ts_language_field_map(l, production_id as u32);
    match child_field(l, start, end, index) {
        Some(id) => FieldLabel::Named(id),
        None => if parent_visible {
            FieldLabel::Unlabeled
        } else {
            parent_label
        },
    }
}

fn lookahead_char(s: &Subtree) -> (c: i32)
    ensures
        c == spec_lookahead_char(s@),
{
    match s {
        Subtree::Heap(h) => h.lookahead_char,
        Subtree::Inline(_) => 0,
    }
}

fn write_lead(out: &mut Vec<u8>, l: &TSLanguage, label: FieldLabel)
    ensures
        final(out)@ == old(out)@ + spec_lead(l, label),
{
    let ghost o = out@;
    if label != FieldLabel::Root {
        out.push(32u8);
        if let FieldLabel::Named(_) = label {
            write_field(out, l, label);
            append(out, vec![58u8, 32]);
        }
    }
    proof {
        assert(out@ =~= o + spec_lead(l, label));
    }
}

fn write_opening(
    out: &mut Vec<u8>,
    s: &Subtree,
    l: &TSLanguage,
    alias_symbol: u16,
    alias_is_named: bool,
)
    requires
        subtree_wf(s@),
    ensures
        final(out)@ == old(out)@ + spec_opening(s@, l, alias_symbol, alias_is_named),
{
    let ghost o = out@;
    if ts_subtree_is_error(s) && ts_subtree_child_count(s) == 0 && ts_subtree_size(s).bytes > 0 {
        append(out, vec![40u8, 85, 78, 69, 88, 80, 69, 67, 84, 69, 68, 32]);
        ts_subtree__write_char_to_string(out, lookahead_char(s));
    } else {
        let symbol = if alias_symbol != 0 {
            alias_symbol
        } else {
            ts_subtree_symbol(s)
        };
        if ts_subtree_missing(s) {
            append(out, vec![40u8, 77, 73, 83, 83, 73, 78, 71, 32]);
            if alias_is_named || ts_subtree_named(s) {
                write_name(out, l, symbol);
            } else {
                out.push(34u8);
                write_name(out, l, symbol);
                out.push(34u8);
            }
        } else {
            out.push(40u8);
            write_name(out, l, symbol);
        }
    }
    proof {
        assert(out@ =~= o + spec_opening(s@, l, alias_symbol, alias_is_named));
    }
}

fn write_head(
    out: &mut Vec<u8>,
    s: &Subtree,
    l: &TSLanguage,
    include_all: bool,
    alias_symbol: u16,
    alias_is_named: bool,
    label: FieldLabel,
) -> (shown: bool)
    requires
        subtree_wf(s@),
    ensures
        final(out)@ == old(out)@ + spec_node_head(
            s@,
            l,
            include_all,
            alias_symbol,
            alias_is_named,
            label,
        ),
        shown == spec_shown(s@, include_all, alias_symbol, alias_is_named),
{
    let shown = include_all || ts_subtree_missing(s) || (if alias_symbol != 0 {
        alias_is_named
    } else {
        ts_subtree_visible(s) && ts_subtree_named(s)
    });
    let ghost o = out@;
    if shown {
        write_lead(out, l, label);
        write_opening(out, s, l, alias_symbol, alias_is_named);
        proof {
            assert(out@ =~= o + spec_node_head(s@, l, include_all, alias_symbol, alias_is_named, label));
        }
    } else if label == FieldLabel::Root {
        append(out, vec![40u8, 34]);
        write_name(out, l, ts_subtree_symbol(s));
        append(out, vec![34u8, 41]);
        proof {
            assert(out@ =~= o + spec_node_head(s@, l, include_all, alias_symbol, alias_is_named, label));
        }
    } else {
        proof {
            assert(out@ =~= o + spec_node_head(s@, l, include_all, alias_symbol, alias_is_named, label));
        }
    }
    shown
}

/// Writes a subtree as an S-expression (see `spec_write`).
fn ts_subtree__write_to_string(
    out: &mut Vec<u8>,
    s: &Subtree,
    l: &TSLanguage,
    include_all: bool,
    alias_symbol: u16,
    alias_is_named: bool,
    label: FieldLabel,
)
    requires
        subtree_wf(s@),
    ensures
        final(out)@ == old(out)@ + spec_write(s@, l, include_all, alias_symbol, alias_is_named, label),
    decreases s@, 1int,
{
    let ghost o = out@;
    let shown = write_head(out, s, l, include_all, alias_symbol, alias_is_named, label);
    let ghost head = spec_node_head(s@, l, include_all, alias_symbol, alias_is_named, label);
    match s {
        Subtree::Heap(h) => {
            proof {
                lemma_views_of(h.children@);
                lemma_children_wf(views_of(h.children@));
            }
            let ghost cv = views_of(h.children@);
            let ghost total = spec_write_children(cv, 0, 0, l, include_all, h.production_id, shown, label);
            let production_id = h.production_id;
            let n = h.children.len();
            let mut i: usize = 0;
            let mut index: u32 = 0;
            while i < n
                invariant
                    i <= n,
                    n == h.children@.len(),
                    cv == views_of(h.children@),
                    cv.len() == n,
                    forall|k: int| 0 <= k < n ==> #[trigger] cv[k] == h.children@[k]@,
                    forall|k: int| 0 <= k < n ==> subtree_wf(#[trigger] cv[k]),
                    production_id == h.production_id,
                    out@ + spec_write_children(cv, i as int, index, l, include_all, production_id, shown, label)
                        == o + head + total,
                    *s == Subtree::Heap(*h),
                    s@ == SubtreeView::Heap(heap_view(**h)),
                decreases n - i,
            {
                proof {
                    assert(heap_view(**h).children == cv);
                    assert(s@ is Heap);
                    assert(s@->Heap_0 == heap_view(**h));
                    assert(decreases_to!(s@ => s@->Heap_0));
                    assert(decreases_to!(s@ => heap_view(**h)));
                    assert(decreases_to!(heap_view(**h) => heap_view(**h).children));
                    assert(decreases_to!(heap_view(**h).children => heap_view(**h).children[i as int]));
                    assert(cv[i as int] == h.children@[i as int]@);
                }
                let ghost before = out@;
                let ghost idx0 = index;
                index = write_child(out, &h.children[i], index, l, include_all, production_id, shown, label);
                proof {
                    assert(out@ + spec_write_children(cv, i as int + 1, index, l, include_all, production_id, shown, label)
                        =~= before + spec_write_children(cv, i as int, idx0, l, include_all, production_id, shown, label));
                }
                i = i + 1;
            }
            proof {
                assert(out@ + Seq::<u8>::empty() =~= out@);
            }
        },
        Subtree::Inline(_) => {},
    }
    if shown {
        out.push(41u8);
    }
    proof {
        assert(out@ =~= o + spec_write(s@, l, include_all, alias_symbol, alias_is_named, label));
    }
}

/// Writes one child (see `spec_write_child`) and returns the structural index
/// of the next child.
fn write_child(
    out: &mut Vec<u8>,
    c: &Subtree,
    index: u32,
    l: &TSLanguage,
    include_all: bool,
    production_id: u16,
    parent_shown: bool,
    parent_label: FieldLabel,
) -> (next: u32)
    requires
        subtree_wf(c@),
    ensures
        final(out)@ == old(out)@ + spec_write_child(
            c@,
            index,
            l,
            include_all,
            production_id,
            parent_shown,
            parent_label,
        ),
        next == spec_next_index(c@, index),
    decreases c@, 2int,
{
    if ts_subtree_extra(c) {
        ts_subtree__write_to_string(out, c, l, include_all, 0, false, FieldLabel::Unlabeled);
        index
    } else {
        let alias = ts_language_alias_at(l, production_id as u32, index);
        let alias_is_named = alias != 0 && ts_language_symbol_metadata(l, alias).named;
        let label = child_label(l, production_id, index, parent_shown, parent_label);
        ts_subtree__write_to_string(out, c, l, include_all, alias, alias_is_named, label);
        u32_wrapping_add(index, 1)
    }
}

/// A tree as an S-expression (see `spec_write`), or `(NULL)` for no tree.
pub fn ts_subtree_string(self_0: &Option<Subtree>, language: &TSLanguage, include_all: bool) -> (r:
    Vec<u8>)
    requires
        self_0 is Some ==> subtree_wf(self_0->0@),
    ensures
        r@ == spec_subtree_string(opt_view(*self_0), language, include_all),
{
    let mut out: Vec<u8> = Vec::new();
    match self_0 {
        Some(t) => {
            ts_subtree__write_to_string(&mut out, t, language, include_all, 0, false, FieldLabel::Root);
            proof {
                assert(out@ =~= spec_write(t@, language, include_all, 0, false, FieldLabel::Root));
            }
        },
        None => {
            append(&mut out, vec![40u8, 78, 85, 76, 76, 41]);
        },
    }
    out
}

/// A name as a string of the dot graph language: quotes and newlines
/// escaped, up to the first zero byte.
pub open spec fn spec_dot_escape(s: Seq<u8>) -> Seq<u8>
    decreases s.len(),
{
    if s.len() == 0 || s[0] == 0 {
        Seq::empty()
    } else {
        let rest = spec_dot_escape(s.drop_first());
        if s[0] == 34 {
            seq![92u8, 34u8] + rest
        } else if s[0] == 10 {
            seq![92u8, 110u8] + rest
        } else {
            seq![s[0]] + rest
        }
    }
}

/// Where child `i` of a node that starts at byte `start` starts: after the
/// total bytes of the children before it, wrapping around as `u32`.
pub open spec fn dot_child_start(start: u32, cs: Seq<SubtreeView>, i: int) -> u32
    decreases i,
{
    if i <= 0 {
        start
    } else {
        wadd(dot_child_start(start, cs, i - 1), spec_total_size(cs[i - 1]).bytes)
    }
}

/// How many of the children before child `i` are not extra.
pub open spec fn non_extra_before(cs: Seq<SubtreeView>, i: int) -> nat
    decreases i,
{
    if i <= 0 {
        0
    } else {
        non_extra_before(cs, i - 1) + if spec_extra(cs[i - 1]) {
            0nat
        } else {
            1nat
        }
    }
}

/// The alias that a graph of the tree shows for child `i` of a node with
/// production `production_id`: none for an extra child, nor where the
/// production's alias row starts at 0; else the alias of its position among
/// the children that are not extra.
pub open spec fn dot_child_alias(l: &TSLanguage, production_id: u16, cs: Seq<SubtreeView>, i: int) -> u16 {
    if spec_extra(cs[i]) || l.max_alias_sequence_length as int * production_id as int == 0 {
        0
    } else {
        spec_alias_at(l, production_id as u32, non_extra_before(cs, i) as u32)
    }
}

/// What a graph of the tree shows of each child of `tree`, where `tree`
/// starts at byte `start_offset`: the byte where the child starts and the
/// alias it is shown under (0 for none).
pub fn ts_subtree__dot_children(tree: &Subtree, start_offset: u32, language: &TSLanguage) -> (r: Vec<
    (u32, u16),
>)
    requires
        subtree_wf(tree@),
    ensures
        r@.len() == spec_child_count(tree@),
        forall|i: int|
            0 <= i < r@.len() ==> (#[trigger] r@[i]).0 == dot_child_start(start_offset, spec_children(tree@), i)
                && r@[i].1 == dot_child_alias(language, spec_production_id(tree@), spec_children(tree@), i),
{
    let ghost cs = spec_children(tree@);
    let n = ts_subtree_child_count(tree);
    let production_id = ts_subtree_production_id(tree);
    let max_length = language.max_alias_sequence_length as u32;
    let production = production_id as u32;
    proof {
        assert(max_length * production <= 0xffff * 0xffff) by (nonlinear_arith)
            requires
                max_length <= 0xffff,
                production <= 0xffff,
        ;
    }
    let has_aliases = max_length * production != 0;
    let mut r: Vec<(u32, u16)> = Vec::new();
    let mut child_start: u32 = start_offset;
    let mut structural: u32 = 0;
    let mut i: u32 = 0;
    while i < n
        invariant
            n == cs.len(),
            cs == spec_children(tree@),
            i <= n,
            r@.len() == i,
            child_start == dot_child_start(start_offset, cs, i as int),
            structural == non_extra_before(cs, i as int),
            structural <= i,
            has_aliases == (language.max_alias_sequence_length as int * production_id as int != 0),
            production_id == spec_production_id(tree@),
            forall|j: int|
                0 <= j < i ==> (#[trigger] r@[j]).0 == dot_child_start(start_offset, cs, j) && r@[j].1
                    == dot_child_alias(language, production_id, cs, j),
        decreases n - i,
    {
        let child = ts_subtree_child(tree, i as usize);
        let extra = ts_subtree_extra(child);
        let alias = if !extra && has_aliases {
            ts_language_alias_at(language, production_id as u32, structural)
        } else {
            0
        };
        r.push((child_start, alias));
        child_start = u32_wrapping_add(child_start, ts_subtree_total_bytes(child));
        if !extra {
            structural = structural + 1;
        }
        i = i + 1;
    }
    r
}

/// Escapes a name for a dot graph (see `spec_dot_escape`).
pub fn ts_subtree__write_dot_string(string: &[u8]) -> (r: Vec<u8>)
    ensures
        r@ == spec_dot_escape(string@),
{
    let mut r: Vec<u8> = Vec::new();
    let mut i: usize = 0;
    proof {
        assert(string@.skip(0) =~= string@);
        assert(r@ + spec_dot_escape(string@) =~= spec_dot_escape(string@));
    }
    while i < string.len()
        invariant_except_break
            r@ + spec_dot_escape(string@.skip(i as int)) == spec_dot_escape(string@),
        invariant
            i <= string@.len(),
        ensures
            r@ == spec_dot_escape(string@),
        decreases string@.len() - i,
    {
        let c = string[i];
        let ghost rest = string@.skip(i as int);
        proof {
            assert(rest.drop_first() =~= string@.skip(i + 1));
            assert(rest[0] == c);
        }
        if c == 0 {
            proof {
                assert(r@ + Seq::<u8>::empty() =~= r@);
            }
            break;
        }
        let ghost before = r@;
        if c == 34 {
            r.push(92);
            r.push(34);
        } else if c == 10 {
            r.push(92);
            r.push(110);
        } else {
            r.push(c);
        }
        proof {
            if c == 34 {
                assert(r@ =~= before + seq![92u8, 34u8]);
            } else if c == 10 {
                assert(r@ =~= before + seq![92u8, 110u8]);
            } else {
                assert(r@ =~= before + seq![c]);
            }
            assert(r@ + spec_dot_escape(string@.skip(i + 1)) =~= before + spec_dot_escape(rest));
        }
        i = i + 1;
    }
    proof {
        if i == string@.len() {
            assert(string@.skip(i as int) =~= Seq::<u8>::empty());
            assert(r@ + Seq::<u8>::empty() =~= r@);
        }
    }
    r
}

} // verus!
