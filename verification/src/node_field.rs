use vstd::prelude::*;

use crate::language::{
    spec_field_entry, spec_field_id_for_name_from, spec_field_map, ts_language_field_id_for_name,
    ts_language_field_map, TSLanguage,
};
use crate::length::{length_add, u32_wrapping_add, Length};
use crate::node::{
    child_position, child_search, found_node, is_relevant, lemma_child_facts, lemma_subtree_at_push,
    node_language, node_valid, node_view, path_push, production_id_of, spec_child_alias,
    spec_child_search, spec_child_start, spec_child_end, spec_is_relevant, spec_node_start,
    spec_node_alias, spec_relevant_child_count, spec_structural_index, ts_node_start_byte, ts_node_start_point,
    ts_node_subtree, FoundNode, TSNode,
};
use crate::subtree::{
    spec_children, spec_extra, subtree_wf, ts_subtree_child_count, ts_subtree_extra,
    ts_subtree_size, ts_subtree_visible_child_count, Subtree, SubtreeView,
};
use crate::tree::{subtree_at, TSTree};

verus! {

/// The first entry of the field map range `[lo, hi)` whose field id is not
/// below `field_id`; none when there is none, or when an entry on the way is
/// missing from the language's tables.
pub open spec fn spec_field_lower(l: &TSLanguage, lo: u32, hi: u32, field_id: u16) -> Option<u32>
    decreases hi - lo,
{
    if lo >= hi {
        None
    } else {
        match spec_field_entry(l, lo as int) {
            None => None,
            Some(e) => if e.field_id < field_id {
                spec_field_lower(l, (lo + 1) as u32, hi, field_id)
            } else {
                Some(lo)
            },
        }
    }
}

/// The end of the field map range `[lo, hi)` once the entries of field ids
/// above `field_id` are dropped from its end; none when nothing is left, or
/// when an entry on the way is missing from the language's tables.
pub open spec fn spec_field_upper(l: &TSLanguage, lo: u32, hi: u32, field_id: u16) -> Option<u32>
    decreases hi - lo,
{
    if hi <= lo {
        None
    } else {
        match spec_field_entry(l, hi - 1) {
            None => None,
            Some(e) => if e.field_id > field_id {
                spec_field_upper(l, lo, (hi - 1) as u32, field_id)
            } else {
                Some(hi)
            },
        }
    }
}

/// The child of the node `s` (at `start`, reached by `path`) that the field
/// `field_id` names: the production's field map entries for that field are
/// tried in turn against the structural children from the entry's child index
/// on. A child that holds inherited fields is searched in turn (for the last
/// entry, its answer is the answer); a shown child is the answer; a hidden one
/// gives its first shown child.
pub open spec fn spec_child_by_field(
    l: &TSLanguage,
    s: SubtreeView,
    start: Length,
    path: Seq<u32>,
    field_id: u16,
) -> Option<FoundNode>
    decreases s, 1int, 0int,
{
    if field_id == 0 || spec_relevant_child_count(s, true) == 0 {
        None
    } else {
        match s {
            SubtreeView::Inline(_) => None,
            SubtreeView::Heap(h) => {
                let (lo, hi) = spec_field_map(l, h.production_id as u32);
                match spec_field_lower(l, lo, hi, field_id) {
                    None => None,
                    Some(first) => match spec_field_upper(l, first, hi, field_id) {
                        None => None,
                        Some(end) => spec_child_by_field_from(
                            l,
                            h.children,
                            h.production_id,
                            start,
                            path,
                            0,
                            first,
                            end,
                            field_id,
                        ),
                    },
                }
            },
        }
    }
}

pub open spec fn spec_child_by_field_from(
    l: &TSLanguage,
    cs: Seq<SubtreeView>,
    production_id: u16,
    start: Length,
    path: Seq<u32>,
    i: int,
    entry: u32,
    end: u32,
    field_id: u16,
) -> Option<FoundNode>
    decreases cs, 0int, cs.len() - i,
{
    if i < 0 || i >= cs.len() {
        None
    } else if spec_extra(cs[i]) {
        spec_child_by_field_from(l, cs, production_id, start, path, i + 1, entry, end, field_id)
    } else {
        match spec_field_entry(l, entry as int) {
            None => None,
            Some(e) => if spec_structural_index(cs, i) < e.child_index {
                spec_child_by_field_from(
                    l,
                    cs,
                    production_id,
                    start,
                    path,
                    i + 1,
                    entry,
                    end,
                    field_id,
                )
            } else {
                let c = cs[i];
                let c_start = spec_child_start(cs, start, i);
                let alias = spec_child_alias(cs, l, production_id, i);
                let c_path = path.push(i as u32);
                if e.inherited {
                    if entry + 1 == end {
                        spec_child_by_field(l, c, c_start, c_path, field_id)
                    } else {
                        match spec_child_by_field(l, c, c_start, c_path, field_id) {
                            Some(found) => Some(found),
                            None => spec_child_by_field_from(
                                l,
                                cs,
                                production_id,
                                start,
                                path,
                                i + 1,
                                (entry + 1) as u32,
                                end,
                                field_id,
                            ),
                        }
                    }
                } else if spec_is_relevant(l, c, alias, true) {
                    Some((c_path, c_start, alias))
                } else {
                    spec_child_search(l, c, c_start, c_path, 0, true)
                }
            },
        }
    }
}

/// Whether `p` continues `path` with the index of a child among `cs[i..]`
/// that is not extra.
pub open spec fn through_structural_child(p: Seq<u32>, path: Seq<u32>, cs: Seq<SubtreeView>, i: int) -> bool {
    &&& p.len() > path.len()
    &&& p.subrange(0, path.len() as int) == path
    &&& i <= p[path.len() as int]
    &&& p[path.len() as int] < cs.len()
    &&& !spec_extra(cs[p[path.len() as int] as int])
}

proof fn lemma_search_extends(
    l: &TSLanguage,
    s: SubtreeView,
    start: Length,
    path: Seq<u32>,
    child_index: u32,
    include_anonymous: bool,
)
    ensures
        spec_child_search(l, s, start, path, child_index, include_anonymous) matches Some(r) ==> r.0.len()
            > path.len() && r.0.subrange(0, path.len() as int) == path,
    decreases s, 1int, 0int,
{
    if let SubtreeView::Heap(h) = s {
        lemma_search_from_extends(l, h.children, h.production_id, start, path, 0, 0, child_index, include_anonymous);
    }
}

proof fn lemma_search_from_extends(
    l: &TSLanguage,
    cs: Seq<SubtreeView>,
    production_id: u16,
    start: Length,
    path: Seq<u32>,
    i: int,
    index: u32,
    child_index: u32,
    include_anonymous: bool,
)
    ensures
        crate::node::spec_child_search_from(l, cs, production_id, start, path, i, index, child_index, include_anonymous) matches Some(r)
            ==> r.0.len() > path.len() && r.0.subrange(0, path.len() as int) == path,
    decreases cs, 0int, cs.len() - i,
{
    if 0 <= i < cs.len() {
        let c = cs[i];
        let c_start = spec_child_start(cs, start, i);
        let alias = spec_child_alias(cs, l, production_id, i);
        let c_path = path.push(i as u32);
        assert(c_path.subrange(0, path.len() as int) =~= path);
        if spec_is_relevant(l, c, alias, include_anonymous) {
            if index != child_index {
                lemma_search_from_extends(l, cs, production_id, start, path, i + 1, crate::length::wadd(index, 1), child_index, include_anonymous);
            }
        } else {
            let gi = crate::length::wsub(child_index, index);
            let gc = spec_relevant_child_count(c, include_anonymous);
            if gi < gc {
                assert(decreases_to!(cs => c));
                lemma_search_extends(l, c, c_start, c_path, gi, include_anonymous);
                if let Some(r) = spec_child_search(l, c, c_start, c_path, gi, include_anonymous) {
                    assert(r.0.subrange(0, path.len() as int) =~= r.0.subrange(0, c_path.len() as int).subrange(0, path.len() as int));
                }
            } else {
                lemma_search_from_extends(l, cs, production_id, start, path, i + 1, crate::length::wadd(index, gc), child_index, include_anonymous);
            }
        }
    }
}

/// The child that a field names is never an extra node: the node found for
/// a field lies below the node, through a child that is not extra (the
/// field's child itself, or a hidden child that holds it).
pub proof fn lemma_field_child_not_extra(l: &TSLanguage, s: SubtreeView, start: Length, path: Seq<u32>, field_id: u16)
    requires
        subtree_wf(s),
    ensures
        spec_child_by_field(l, s, start, path, field_id) matches Some(r) ==> through_structural_child(
            r.0,
            path,
            spec_children(s),
            0,
        ),
    decreases s, 1int, 0int,
{
    if !(field_id == 0 || spec_relevant_child_count(s, true) == 0) {
        if let SubtreeView::Heap(h) = s {
            let (lo, hi) = crate::language::spec_field_map(l, h.production_id as u32);
            if let Some(first) = spec_field_lower(l, lo, hi, field_id) {
                if let Some(end) = spec_field_upper(l, first, hi, field_id) {
                    crate::subtree::lemma_children_wf(h.children);
                    lemma_field_from_not_extra(l, h.children, h.production_id, start, path, 0, first, end, field_id);
                }
            }
        }
    }
}

proof fn lemma_field_from_not_extra(
    l: &TSLanguage,
    cs: Seq<SubtreeView>,
    production_id: u16,
    start: Length,
    path: Seq<u32>,
    i: int,
    entry: u32,
    end: u32,
    field_id: u16,
)
    requires
        0 <= i,
        cs.len() <= u32::MAX,
        forall|j: int| 0 <= j < cs.len() ==> subtree_wf(#[trigger] cs[j]),
    ensures
        spec_child_by_field_from(l, cs, production_id, start, path, i, entry, end, field_id) matches Some(r)
            ==> through_structural_child(r.0, path, cs, i),
    decreases cs, 0int, cs.len() - i,
{
    if i < cs.len() {
        if spec_extra(cs[i]) {
            lemma_field_from_not_extra(l, cs, production_id, start, path, i + 1, entry, end, field_id);
        } else if let Some(e) = crate::language::spec_field_entry(l, entry as int) {
            if spec_structural_index(cs, i) < e.child_index {
                lemma_field_from_not_extra(l, cs, production_id, start, path, i + 1, entry, end, field_id);
            } else {
                let c = cs[i];
                let c_start = spec_child_start(cs, start, i);
                let c_path = path.push(i as u32);
                assert(c_path.subrange(0, path.len() as int) =~= path);
                assert(decreases_to!(cs => c));
                lemma_field_from_not_extra(l, cs, production_id, start, path, i + 1, (entry + 1) as u32, end, field_id);
                lemma_field_child_not_extra(l, c, c_start, c_path, field_id);
                lemma_search_extends(l, c, c_start, c_path, 0, true);
                if let Some(r) = spec_child_by_field(l, c, c_start, c_path, field_id) {
                    assert(r.0.subrange(0, path.len() as int) =~= r.0.subrange(0, c_path.len() as int).subrange(0, path.len() as int));
                    assert(r.0[path.len() as int] == r.0.subrange(0, c_path.len() as int)[path.len() as int]);
                }
                if let Some(r) = spec_child_search(l, c, c_start, c_path, 0, true) {
                    assert(r.0.subrange(0, path.len() as int) =~= r.0.subrange(0, c_path.len() as int).subrange(0, path.len() as int));
                    assert(r.0[path.len() as int] == r.0.subrange(0, c_path.len() as int)[path.len() as int]);
                }
            }
        }
    }
}

/// The entry of the field map where the search for a field starts at a node
/// with production `production_id`, if there is one.
pub open spec fn field_first_entry(l: &TSLanguage, production_id: u16, field_id: u16) -> Option<
    crate::language::TSFieldMapEntry,
> {
    let (lo, hi) = crate::language::spec_field_map(l, production_id as u32);
    match spec_field_lower(l, lo, hi, field_id) {
        Some(first) => crate::language::spec_field_entry(l, first as int),
        None => None,
    }
}

/// Where a field names a child directly (its first entry is not inherited),
/// the node found lies through the child whose structural index (its
/// position among the children that are not extra) is the entry's child
/// index.
pub proof fn lemma_field_child_index(l: &TSLanguage, s: SubtreeView, start: Length, path: Seq<u32>, field_id: u16)
    requires
        subtree_wf(s),
    ensures
        spec_child_by_field(l, s, start, path, field_id) matches Some(r) ==> (field_first_entry(
            l,
            s->Heap_0.production_id,
            field_id,
        ) matches Some(e) ==> (!e.inherited ==> spec_structural_index(
            spec_children(s),
            r.0[path.len() as int] as int,
        ) == e.child_index)),
{
    lemma_field_child_not_extra(l, s, start, path, field_id);
    if !(field_id == 0 || spec_relevant_child_count(s, true) == 0) {
        if let SubtreeView::Heap(h) = s {
            let (lo, hi) = crate::language::spec_field_map(l, h.production_id as u32);
            if let Some(first) = spec_field_lower(l, lo, hi, field_id) {
                if let Some(end) = spec_field_upper(l, first, hi, field_id) {
                    if let Some(e) = crate::language::spec_field_entry(l, first as int) {
                        if !e.inherited {
                            crate::subtree::lemma_children_wf(h.children);
                            lemma_field_from_index(l, h.children, h.production_id, start, path, 0, first, end, field_id, e);
                        }
                    }
                }
            }
        }
    }
}

proof fn lemma_field_from_index(
    l: &TSLanguage,
    cs: Seq<SubtreeView>,
    production_id: u16,
    start: Length,
    path: Seq<u32>,
    i: int,
    entry: u32,
    end: u32,
    field_id: u16,
    e: crate::language::TSFieldMapEntry,
)
    requires
        0 <= i,
        cs.len() <= u32::MAX,
        forall|j: int| 0 <= j < cs.len() ==> subtree_wf(#[trigger] cs[j]),
        crate::language::spec_field_entry(l, entry as int) == Some(e),
        !e.inherited,
        spec_structural_index(cs, i) <= e.child_index,
    ensures
        spec_child_by_field_from(l, cs, production_id, start, path, i, entry, end, field_id) matches Some(r)
            ==> spec_structural_index(cs, r.0[path.len() as int] as int) == e.child_index,
    decreases cs.len() - i,
{
    if i < cs.len() {
        lemma_field_from_not_extra(l, cs, production_id, start, path, i, entry, end, field_id);
        if spec_extra(cs[i]) {
            assert(spec_structural_index(cs, i + 1) == spec_structural_index(cs, i));
            lemma_field_from_index(l, cs, production_id, start, path, i + 1, entry, end, field_id, e);
        } else if spec_structural_index(cs, i) < e.child_index {
            assert(spec_structural_index(cs, i + 1) == spec_structural_index(cs, i) + 1);
            lemma_field_from_index(l, cs, production_id, start, path, i + 1, entry, end, field_id, e);
        } else {
            let c = cs[i];
            let c_start = spec_child_start(cs, start, i);
            let c_path = path.push(i as u32);
            lemma_search_extends(l, c, c_start, c_path, 0, true);
            if let Some(r) = spec_child_search(l, c, c_start, c_path, 0, true) {
                assert(r.0[path.len() as int] == r.0.subrange(0, c_path.len() as int)[path.len() as int]);
            }
        }
    }
}

fn field_lower(l: &TSLanguage, lo: u32, hi: u32, field_id: u16) -> (r: Option<u32>)
    ensures
        r == spec_field_lower(l, lo, hi, field_id),
        r matches Some(x) ==> lo <= x < hi,
{
    let mut i = lo;
    while i < hi
        invariant
            lo <= i <= hi || (i == lo && lo >= hi),
            spec_field_lower(l, lo, hi, field_id) == spec_field_lower(l, i, hi, field_id),
        decreases hi - i,
    {
        if i as usize >= l.field_map_entries.len() {
            return None;
        }
        if l.field_map_entries[i as usize].field_id >= field_id {
            return Some(i);
        }
        i = i + 1;
    }
    None
}

fn field_upper(l: &TSLanguage, lo: u32, hi: u32, field_id: u16) -> (r: Option<u32>)
    ensures
        r == spec_field_upper(l, lo, hi, field_id),
        r matches Some(x) ==> lo < x <= hi,
{
    let mut i = hi;
    while i > lo
        invariant
            lo <= i <= hi || (i == hi && hi <= lo),
            spec_field_upper(l, lo, hi, field_id) == spec_field_upper(l, lo, i, field_id),
        decreases i - lo,
    {
        if (i - 1) as usize >= l.field_map_entries.len() {
            return None;
        }
        if l.field_map_entries[(i - 1) as usize].field_id <= field_id {
            return Some(i);
        }
        i = i - 1;
    }
    None
}

fn child_by_field<'t, 'l>(
    tree: &'t TSTree<'l>,
    s: &'t Subtree,
    start: Length,
    path: &Vec<u32>,
    field_id: u16,
) -> (r: Option<(Vec<u32>, Length, u16)>)
    requires
        subtree_wf(s@),
        subtree_at(tree.root@, path@) == Some(s@),
    ensures
        match r {
            Some((p, st, a)) => spec_child_by_field(tree.language, s@, start, path@, field_id)
                == Some((p@, st, a)) && subtree_at(tree.root@, p@) is Some,
            None => spec_child_by_field(tree.language, s@, start, path@, field_id) is None,
        },
    decreases s@,
{
    let l = tree.language;
    let n = ts_subtree_child_count(s);
    if field_id == 0 || n == 0 || ts_subtree_visible_child_count(s) == 0 {
        return None;
    }
    let production_id = production_id_of(s);
    let (lo, hi) = ts_language_field_map(l, production_id as u32);
    let first = match field_lower(l, lo, hi, field_id) {
        None => {
            return None;
        },
        Some(x) => x,
    };
    let end = match field_upper(l, first, hi, field_id) {
        None => {
            return None;
        },
        Some(x) => x,
    };
    let ghost cs = spec_children(s@);
    let ghost total = spec_child_by_field(l, s@, start, path@, field_id);
    proof {
        assert(s@ is Heap);
        assert(total == spec_child_by_field_from(l, cs, production_id, start, path@, 0, first, end, field_id));
    }
    let mut entry = first;
    let mut i: u32 = 0;
    let mut structural: u32 = 0;
    let mut prev_end = start;
    while i < n
        invariant
            i <= n,
            n == cs.len(),
            cs == spec_children(s@),
            subtree_wf(s@),
            subtree_at(tree.root@, path@) == Some(s@),
            l == tree.language,
            s@ is Heap ==> production_id == s@->Heap_0.production_id,
            structural == spec_structural_index(cs, i as int),
            i > 0 ==> prev_end == spec_child_end(cs, start, i - 1),
            entry < end,
            total == spec_child_by_field_from(l, cs, production_id, start, path@, i as int, entry, end, field_id),
            total == spec_child_by_field(l, s@, start, path@, field_id),
        decreases n - i,
    {
        proof {
            lemma_child_facts(s@, i as int);
        }
        let (c, c_start, alias) = child_position(l, s, i, start, prev_end, structural, production_id);
        if !ts_subtree_extra(c) {
            if entry as usize >= l.field_map_entries.len() {
                return None;
            }
            let e = l.field_map_entries[entry as usize];
            if structural >= e.child_index as u32 {
                proof {
                    lemma_subtree_at_push(tree.root@, path@, s@, i);
                }
                let child_path = path_push(path, i);
                if e.inherited {
                    if entry + 1 == end {
                        return child_by_field(tree, c, c_start, &child_path, field_id);
                    }
                    let found = child_by_field(tree, c, c_start, &child_path, field_id);
                    if found.is_some() {
                        return found;
                    }
                    entry = entry + 1;
                } else if is_relevant(l, c, alias, true) {
                    return Some((child_path, c_start, alias));
                } else {
                    return child_search(tree, c, c_start, &child_path, 0, true);
                }
            }
            structural = u32_wrapping_add(structural, 1);
        }
        prev_end = length_add(c_start, ts_subtree_size(c));
        i = i + 1;
    }
    None
}

/// The child of a node that the field `field_id` names (see
/// `spec_child_by_field`), or the null node.
pub fn ts_node_child_by_field_id<'t, 'l>(self_0: &TSNode<'t, 'l>, field_id: u16) -> (r: TSNode<'t, 'l>)
    requires
        node_valid(*self_0),
    ensures
        match spec_child_by_field(
            node_language(*self_0),
            node_view(*self_0),
            spec_node_start(*self_0),
            self_0.path@,
            field_id,
        ) {
            Some((p, st, a)) => r.tree == self_0.tree && r.path@ == p && spec_node_start(r) == st
                && spec_node_alias(r) == a && node_valid(r),
            None => r.tree is None,
        },
{
    let tree = self_0.tree.unwrap();
    let start = Length { bytes: ts_node_start_byte(self_0), extent: ts_node_start_point(self_0) };
    let found = child_by_field(tree, ts_node_subtree(self_0), start, &self_0.path, field_id);
    found_node(tree, found)
}

/// The child of a node that the field named `name` names, or the null node
/// (also when the language has no such field).
pub fn ts_node_child_by_field_name<'t, 'l>(self_0: &TSNode<'t, 'l>, name: &[u8], name_length: u32) -> (r:
    TSNode<'t, 'l>)
    requires
        node_valid(*self_0),
        name_length == name@.len(),
        node_language(*self_0).field_count < u16::MAX,
    ensures
        match spec_child_by_field(
            node_language(*self_0),
            node_view(*self_0),
            spec_node_start(*self_0),
            self_0.path@,
            spec_field_id_for_name_from(node_language(*self_0), name@, 1),
        ) {
            Some((p, st, a)) => r.tree == self_0.tree && r.path@ == p && spec_node_start(r) == st
                && spec_node_alias(r) == a && node_valid(r),
            None => r.tree is None,
        },
{
    let tree = self_0.tree.unwrap();
    let field_id = ts_language_field_id_for_name(tree.language, name, name_length);
    ts_node_child_by_field_id(self_0, field_id)
}

} // verus!
