use vstd::prelude::*;

use crate::array::{array__delete, array_push, VoidArray};
use crate::language::{
    spec_symbol_count, spec_symbol_name, spec_symbol_type, ts_language_field_id_for_name,
    ts_language_symbol_count, ts_language_symbol_for_name, ts_language_symbol_name,
    ts_language_symbol_type, ts_language_version, TSLanguage,
};
use crate::query::{
    spec_id_for_name, spec_name_at, stream_advance, stream_is_ident_start, stream_reset,
    stream_scan_identifier, stream_skip_whitespace, stream_wf, symbol_table_id_for_name,
    symbol_table_insert_name, symbol_table_insert_name_with_escapes, symbol_table_wf, Stream,
    TSQuery, TSQueryPredicateStep, PARENT_DONE, TSQueryErrorCapture, TSQueryErrorNone,
    TSQueryErrorSyntax, TSQueryErrorNodeType, TSQueryErrorField, query_step__new,
    query_step__add_capture, NAMED_WILDCARD_SYMBOL, WILDCARD_SYMBOL, pattern_map_wf,
    pattern_map_sorted, spec_entry_symbol, spec_contains_captures, symbol_table_new,
    symbol_table_delete, stream_new, ts_query__pattern_map_insert, ts_query__finalize_steps,
    Slice, PATTERN_DONE_MARKER, TSQueryPredicateStepTypeCapture, TSQueryPredicateStepTypeDone,
    TSQueryPredicateStepTypeString,
};

verus! {

/// Everything a query holds, counted.
pub open spec fn spec_query_size(q: TSQuery) -> int {
    q.steps.contents@.len() as int + q.predicate_steps.contents@.len()
        + q.captures.characters.contents@.len() + q.captures.slices.contents@.len()
        + q.predicate_values.characters.contents@.len() + q.predicate_values.slices.contents@.len()
        + q.predicates_by_pattern.contents@.len() + q.start_bytes_by_pattern.contents@.len()
        + q.pattern_map.contents@.len()
}

/// The bound on a query's size that keeps its `u32` counters, and the `i32`
/// ids of its names, from wrapping.
pub open spec fn query_size_limit() -> int {
    0x7fff_ffff
}

/// A query's size, with eight for each byte of the source still to read:
/// parsing a byte never adds more than that.
pub open spec fn spec_potential(q: TSQuery, s: Stream) -> int {
    spec_query_size(q) + 8 * (s.source@.len() - s.input)
}

/// A query's tables are consistent: the symbol tables are, each array is
/// within its capacity, and each pattern's predicates lie within the
/// predicate steps.
pub open spec fn query_tables_wf(q: TSQuery) -> bool {
    &&& symbol_table_wf(q.captures)
    &&& symbol_table_wf(q.predicate_values)
    &&& q.steps.wf()
    &&& q.predicate_steps.wf()
    &&& q.predicates_by_pattern.wf()
    &&& q.start_bytes_by_pattern.wf()
    &&& forall|i: int|
        0 <= i < q.predicates_by_pattern.contents@.len() ==> (
        #[trigger] q.predicates_by_pattern.contents@[i]).offset
            + q.predicates_by_pattern.contents@[i].length <= q.predicate_steps.contents@.len()
}

/// What parsing leaves as it was: all but the steps, the names and the
/// predicates; and of the steps found, their symbols and depths.
pub open spec fn parse_keeps(o: TSQuery, f: TSQuery) -> bool {
    &&& f.pattern_map == o.pattern_map
    &&& f.start_bytes_by_pattern == o.start_bytes_by_pattern
    &&& f.language == o.language
    &&& f.max_capture_count == o.max_capture_count
    &&& f.wildcard_root_pattern_count == o.wildcard_root_pattern_count
    &&& f.symbol_map == o.symbol_map
    &&& f.predicates_by_pattern.contents@.len() == o.predicates_by_pattern.contents@.len()
    &&& f.steps.contents@.len() >= o.steps.contents@.len()
    &&& forall|i: int|
        0 <= i < o.steps.contents@.len() ==> (#[trigger] f.steps.contents@[i]).symbol
            == o.steps.contents@[i].symbol && f.steps.contents@[i].depth
            == o.steps.contents@[i].depth && f.steps.contents@[i].is_immediate
            == o.steps.contents@[i].is_immediate
}

proof fn lemma_parse_keeps_trans(a: TSQuery, b: TSQuery, c: TSQuery)
    requires
        parse_keeps(a, b),
        parse_keeps(b, c),
    ensures
        parse_keeps(a, c),
{
    assert forall|i: int| 0 <= i < a.steps.contents@.len() implies (
    #[trigger] c.steps.contents@[i]).symbol == a.steps.contents@[i].symbol
        && c.steps.contents@[i].depth == a.steps.contents@[i].depth
        && c.steps.contents@[i].is_immediate == a.steps.contents@[i].is_immediate by {
        assert(b.steps.contents@[i].symbol == a.steps.contents@[i].symbol);
    }
}

/// Counts one more predicate step for the last pattern and appends `step`.
fn push_predicate_step(self_0: &mut TSQuery, step: TSQueryPredicateStep)
    requires
        query_tables_wf(*old(self_0)),
        old(self_0).predicates_by_pattern.contents@.len() > 0,
        spec_query_size(*old(self_0)) < query_size_limit(),
    ensures
        query_tables_wf(*final(self_0)),
        parse_keeps(*old(self_0), *final(self_0)),
        final(self_0).steps == old(self_0).steps,
        final(self_0).captures == old(self_0).captures,
        final(self_0).predicate_values == old(self_0).predicate_values,
        final(self_0).predicate_steps.contents@ == old(self_0).predicate_steps.contents@.push(step),
        spec_query_size(*final(self_0)) == spec_query_size(*old(self_0)) + 1,
        ({
            let pbp = old(self_0).predicates_by_pattern.contents@;
            let last = pbp.len() - 1;
            &&& final(self_0).predicates_by_pattern.contents@[last].length == pbp[last].length + 1
            &&& final(self_0).predicates_by_pattern.contents@ == pbp.update(
                last,
                Slice { length: final(self_0).predicates_by_pattern.contents@[last].length, ..pbp[last] },
            )
        }),
{
    let last = self_0.predicates_by_pattern.contents.len() - 1;
    let mut slice = self_0.predicates_by_pattern.contents[last];
    assert(slice.offset + slice.length <= self_0.predicate_steps.contents@.len());
    slice.length = slice.length + 1;
    self_0.predicates_by_pattern.contents.set(last, slice);
    array_push(&mut self_0.predicate_steps, step);
    proof {
        let q = *self_0;
        assert forall|i: int| 0 <= i < q.predicates_by_pattern.contents@.len() implies (
        #[trigger] q.predicates_by_pattern.contents@[i]).offset
            + q.predicates_by_pattern.contents@[i].length <= q.predicate_steps.contents@.len() by {
            if i != last {
                assert(q.predicates_by_pattern.contents@[i] == old(self_0).predicates_by_pattern.contents@[i]);
            }
        }
    }
}

// ---------------------------------------------------------------------------
// The grammar of a predicate's arguments.
// ---------------------------------------------------------------------------

/// An argument of a predicate: a capture `@name` (with the byte where the
/// name starts), or a text (a bare name, or a string literal's content with
/// its escapes undone).
pub enum PredicateArg {
    Capture(Seq<u8>, int),
    Text(Seq<u8>),
}

/// How reading a predicate's arguments went: up to its `)`, with the
/// arguments and where the stream is after the `)` and the whitespace that
/// follows; or stopped by a syntax error, with the arguments read before it
/// and the byte where the error was found.
pub enum PredicateParse {
    Closed(Seq<PredicateArg>, crate::query::StreamView),
    Broken(Seq<PredicateArg>, int),
}

pub open spec fn predicate_args(p: PredicateParse) -> Seq<PredicateArg> {
    match p {
        PredicateParse::Closed(a, _) => a,
        PredicateParse::Broken(a, _) => a,
    }
}

/// `p` with `x` read before its arguments.
pub open spec fn with_arg(x: PredicateArg, p: PredicateParse) -> PredicateParse {
    match p {
        PredicateParse::Closed(a, e) => PredicateParse::Closed(seq![x] + a, e),
        PredicateParse::Broken(a, p) => PredicateParse::Broken(seq![x] + a, p),
    }
}

/// `p` with the arguments `xs` read before its own.
pub open spec fn with_args(xs: Seq<PredicateArg>, p: PredicateParse) -> PredicateParse {
    match p {
        PredicateParse::Closed(a, e) => PredicateParse::Closed(xs + a, e),
        PredicateParse::Broken(a, p) => PredicateParse::Broken(xs + a, p),
    }
}

/// Reading a string literal's content from `v` (just past the opening
/// quote): the stream at the closing quote; `None` at an unescaped newline
/// or at the end of the source. A backslash escapes the code point after it.
pub open spec fn spec_string_close(
    source: Seq<u8>,
    v: crate::query::StreamView,
    escaped: bool,
) -> Option<crate::query::StreamView>
    decreases source.len() - v.input,
{
    if !crate::query::view_wf(source, v) || v.next_size == 0 {
        None
    } else if !escaped && v.next == 34 {
        Some(v)
    } else if !escaped && v.next == 10 {
        None
    } else {
        let a = crate::query::spec_stream_advance(source, v);
        if a.next_size == 0 {
            None
        } else {
            spec_string_close(source, a, !escaped && v.next == 92)
        }
    }
}

pub proof fn lemma_string_close_progress(source: Seq<u8>, v: crate::query::StreamView, escaped: bool)
    ensures
        spec_string_close(source, v, escaped) is Some ==> spec_string_close(source, v, escaped)->0.input
            >= v.input && spec_string_close(source, v, escaped)->0.next_size > 0
            && spec_string_close(source, v, escaped)->0 .next == 34 && crate::query::view_wf(
            source,
            spec_string_close(source, v, escaped)->0,
        ),
    decreases source.len() - v.input,
{
    if crate::query::view_wf(source, v) && v.next_size > 0 && !(!escaped && (v.next == 34 || v.next
        == 10)) {
        let a = crate::query::spec_stream_advance(source, v);
        if a.next_size > 0 {
            lemma_string_close_progress(source, a, !escaped && v.next == 92);
        }
    }
}

/// Reading a predicate's arguments from `v`, separated by whitespace, up to
/// the `)` that closes it (see `PredicateParse`).
pub open spec fn spec_predicate_parse(source: Seq<u8>, v: crate::query::StreamView) -> PredicateParse
    decreases source.len() - v.input,
{
    if !crate::query::view_wf(source, v) || v.next_size == 0 || source.len() > u32::MAX {
        PredicateParse::Broken(Seq::empty(), v.input)
    } else if v.next == 41 {
        PredicateParse::Closed(
            Seq::empty(),
            crate::query::spec_skip(source, crate::query::spec_stream_advance(source, v), false),
        )
    } else if v.next == 64 {
        let a = crate::query::spec_stream_advance(source, v);
        if !crate::query::spec_is_ident_start(a.next) {
            PredicateParse::Broken(Seq::empty(), a.input)
        } else {
            let e = crate::query::spec_scan_identifier(source, a);
            let after = crate::query::spec_skip(source, e, false);
            proof {
                crate::query::lemma_advance_size(source, v);
                crate::query::lemma_advance_wf(source, v);
                crate::query::lemma_scan_progress(source, a);
                crate::query::lemma_skip_progress(source, e, false);
            }
            with_arg(
                PredicateArg::Capture(source.subrange(a.input, e.input), a.input),
                spec_predicate_parse(source, after),
            )
        }
    } else if v.next == 34 {
        let a = crate::query::spec_stream_advance(source, v);
        match spec_string_close(source, a, false) {
            None => PredicateParse::Broken(Seq::empty(), a.input - 1),
            Some(c) => {
                let after = crate::query::spec_skip(
                    source,
                    crate::query::spec_stream_advance(source, c),
                    false,
                );
                proof {
                    crate::query::lemma_advance_size(source, v);
                    lemma_string_close_progress(source, a, false);
                    crate::query::lemma_advance_size(source, c);
                    crate::query::lemma_advance_wf(source, c);
                    crate::query::lemma_skip_progress(
                        source,
                        crate::query::spec_stream_advance(source, c),
                        false,
                    );
                }
                with_arg(
                    PredicateArg::Text(
                        crate::query::spec_unescape(source.subrange(a.input, c.input), 0, false),
                    ),
                    spec_predicate_parse(source, after),
                )
            },
        }
    } else if crate::query::spec_is_ident_start(v.next) {
        let e = crate::query::spec_scan_identifier(source, v);
        let after = crate::query::spec_skip(source, e, false);
        proof {
            crate::query::lemma_scan_progress(source, v);
            crate::query::lemma_skip_progress(source, e, false);
        }
        with_arg(PredicateArg::Text(source.subrange(v.input, e.input)), spec_predicate_parse(source, after))
    } else {
        PredicateParse::Broken(Seq::empty(), v.input)
    }
}

/// Whether some capture among `args` names no capture of `captures`.
pub open spec fn has_unknown_capture(captures: crate::query::SymbolTable, args: Seq<PredicateArg>) -> bool {
    exists|j: int|
        0 <= j < args.len() && (#[trigger] args[j] matches PredicateArg::Capture(n, _) && spec_id_for_name(
            captures,
            n,
            0,
        ) < 0)
}

/// The byte where the first capture among `args[j..]` that `known` does not
/// know starts; -1 where every capture there is known.
pub open spec fn unknown_capture_at(known: spec_fn(Seq<u8>) -> bool, args: Seq<PredicateArg>, j: int) -> int
    decreases args.len() - j,
{
    if j < 0 || j >= args.len() {
        -1
    } else {
        match args[j] {
            PredicateArg::Capture(n, pos) => if !known(n) {
                pos
            } else {
                unknown_capture_at(known, args, j + 1)
            },
            PredicateArg::Text(_) => unknown_capture_at(known, args, j + 1),
        }
    }
}

proof fn lemma_unknown_capture_at(captures: crate::query::SymbolTable, args: Seq<PredicateArg>, j: int, k: int)
    requires
        0 <= j <= k < args.len(),
        forall|i: int|
            j <= i < k ==> !(#[trigger] args[i] matches PredicateArg::Capture(n, _) && spec_id_for_name(
                captures,
                n,
                0,
            ) < 0),
        args[k] matches PredicateArg::Capture(n, _) && spec_id_for_name(captures, n, 0) < 0,
    ensures
        unknown_capture_at(table_known(captures), args, j) == args[k]->Capture_1,
    decreases k - j,
{
    if j < k {
        assert(!(args[j] matches PredicateArg::Capture(n, _) && spec_id_for_name(captures, n, 0) < 0));
        lemma_unknown_capture_at(captures, args, j + 1, k);
    }
}

/// Whether `step` stands for `arg`: a capture by its id among `captures`, a
/// text by its id among `values`.
pub open spec fn step_for_arg(
    captures: crate::query::SymbolTable,
    values: crate::query::SymbolTable,
    arg: PredicateArg,
    step: TSQueryPredicateStep,
) -> bool {
    match arg {
        PredicateArg::Capture(n, _) => step.type_0 == TSQueryPredicateStepTypeCapture && step.value_id
            == spec_id_for_name(captures, n, 0),
        PredicateArg::Text(n) => step.type_0 == TSQueryPredicateStepTypeString && spec_id_for_name(
            values,
            n,
            0,
        ) >= 0 && step.value_id == spec_id_for_name(values, n, 0) as u16,
    }
}

/// Whether `b` holds the names of `a`, and maybe more after them.
pub open spec fn table_extends(a: crate::query::SymbolTable, b: crate::query::SymbolTable) -> bool {
    &&& a.slices.contents@.len() <= b.slices.contents@.len()
    &&& b.slices.contents@.subrange(0, a.slices.contents@.len() as int) == a.slices.contents@
    &&& a.characters.contents@.len() <= b.characters.contents@.len()
    &&& b.characters.contents@.subrange(0, a.characters.contents@.len() as int) == a.characters.contents@
}

proof fn lemma_extends_trans(a: crate::query::SymbolTable, b: crate::query::SymbolTable, c: crate::query::SymbolTable)
    requires
        table_extends(a, b),
        table_extends(b, c),
    ensures
        table_extends(a, c),
{
    let na = a.slices.contents@.len() as int;
    assert(c.slices.contents@.subrange(0, na) =~= c.slices.contents@.subrange(
        0,
        b.slices.contents@.len() as int,
    ).subrange(0, na));
    let ma = a.characters.contents@.len() as int;
    assert(c.characters.contents@.subrange(0, ma) =~= c.characters.contents@.subrange(
        0,
        b.characters.contents@.len() as int,
    ).subrange(0, ma));
}

/// A name found in a table is found at the same id in a table that extends it.
proof fn lemma_id_kept(a: crate::query::SymbolTable, b: crate::query::SymbolTable, name: Seq<u8>, j: int)
    requires
        crate::query::symbol_table_wf(a),
        table_extends(a, b),
        0 <= j,
        spec_id_for_name(a, name, j) >= 0,
    ensures
        spec_id_for_name(b, name, j) == spec_id_for_name(a, name, j),
    decreases a.slices.contents@.len() - j,
{
    if j < a.slices.contents@.len() {
        assert(b.slices.contents@[j] == a.slices.contents@[j]);
        let sl = a.slices.contents@[j];
        assert(spec_name_at(b, j) =~= spec_name_at(a, j));
        if !(sl.length == name.len() && crate::language::spec_strn_eq(spec_name_at(a, j), name, 0, name.len() as int)) {
            lemma_id_kept(a, b, name, j + 1);
        }
    }
}

proof fn lemma_strn_eq_refl(a: Seq<u8>, i: int, n: int)
    ensures
        crate::language::spec_strn_eq(a, a, i, n),
    decreases n - i,
{
    if i < n && a[i] != 0 {
        lemma_strn_eq_refl(a, i + 1, n);
    }
}

/// A name not found in `a` is found at the entry added after `a`'s, where
/// it is that entry's name.
proof fn lemma_id_added(a: crate::query::SymbolTable, b: crate::query::SymbolTable, name: Seq<u8>, j: int)
    requires
        crate::query::symbol_table_wf(a),
        table_extends(a, b),
        b.slices.contents@.len() == a.slices.contents@.len() + 1,
        b.slices.contents@.last().length == name.len(),
        spec_name_at(b, a.slices.contents@.len() as int) == name,
        0 <= j <= a.slices.contents@.len(),
        spec_id_for_name(a, name, j) < 0,
    ensures
        spec_id_for_name(b, name, j) == a.slices.contents@.len(),
    decreases a.slices.contents@.len() - j,
{
    let n = a.slices.contents@.len() as int;
    if j < n {
        assert(b.slices.contents@[j] == a.slices.contents@[j]);
        assert(spec_name_at(b, j) =~= spec_name_at(a, j));
        lemma_id_added(a, b, name, j + 1);
    } else {
        assert(b.slices.contents@[n] == b.slices.contents@.last());
        lemma_strn_eq_refl(name, 0, name.len() as int);
    }
}

/// Whether `q` is `o` with one predicate step for each of `args` (see
/// `step_for_arg`) and `extra` more after them, all counted in the last
/// pattern's predicates; its strings extend `o`'s.
pub open spec fn steps_for_args(o: TSQuery, q: TSQuery, args: Seq<PredicateArg>, extra: nat) -> bool {
    let n0 = o.predicate_steps.contents@.len();
    let pbp = o.predicates_by_pattern.contents@;
    let last = pbp.len() - 1;
    &&& q.predicate_steps.contents@.len() == n0 + args.len() + extra
    &&& q.predicate_steps.contents@.subrange(0, n0 as int) == o.predicate_steps.contents@
    &&& forall|j: int|
        0 <= j < args.len() ==> step_for_arg(
            o.captures,
            q.predicate_values,
            #[trigger] args[j],
            q.predicate_steps.contents@[n0 + j],
        )
    &&& table_extends(o.predicate_values, q.predicate_values)
    &&& q.predicates_by_pattern.contents@[last].length == pbp[last].length + args.len() + extra
    &&& q.predicates_by_pattern.contents@ == pbp.update(
        last,
        Slice { length: q.predicates_by_pattern.contents@[last].length, ..pbp[last] },
    )
}

/// Whether `q` is `o` with a predicate read: a step for each of `args`, then
/// a done step.
pub open spec fn predicate_read(o: TSQuery, q: TSQuery, args: Seq<PredicateArg>) -> bool {
    &&& steps_for_args(o, q, args, 1)
    &&& q.predicate_steps.contents@[o.predicate_steps.contents@.len() + args.len() as int] == (TSQueryPredicateStep {
        type_0: TSQueryPredicateStepTypeDone,
        value_id: 0,
    })
}

proof fn lemma_read_start(q: TSQuery)
    requires
        q.predicates_by_pattern.contents@.len() > 0,
    ensures
        steps_for_args(q, q, Seq::empty(), 0),
{
    let pbp = q.predicates_by_pattern.contents@;
    let last = pbp.len() - 1;
    assert(q.predicate_steps.contents@.subrange(0, q.predicate_steps.contents@.len() as int)
        =~= q.predicate_steps.contents@);
    assert(q.predicate_values.slices.contents@.subrange(0, q.predicate_values.slices.contents@.len() as int)
        =~= q.predicate_values.slices.contents@);
    assert(q.predicate_values.characters.contents@.subrange(
        0,
        q.predicate_values.characters.contents@.len() as int,
    ) =~= q.predicate_values.characters.contents@);
    assert(pbp.update(last, Slice { length: pbp[last].length, ..pbp[last] }) =~= pbp);
}

proof fn lemma_read_push(
    o: TSQuery,
    q1: TSQuery,
    q2: TSQuery,
    q: TSQuery,
    got: Seq<PredicateArg>,
    x: PredicateArg,
    step: TSQueryPredicateStep,
)
    requires
        steps_for_args(o, q1, got, 0),
        crate::query::symbol_table_wf(q1.predicate_values),
        table_extends(q1.predicate_values, q2.predicate_values),
        q2.predicate_steps == q1.predicate_steps,
        q2.predicates_by_pattern == q1.predicates_by_pattern,
        q.predicate_steps.contents@ == q2.predicate_steps.contents@.push(step),
        q.predicate_values == q2.predicate_values,
        q.predicates_by_pattern.contents@[q2.predicates_by_pattern.contents@.len() - 1].length
            == q2.predicates_by_pattern.contents@[q2.predicates_by_pattern.contents@.len() - 1].length + 1,
        q.predicates_by_pattern.contents@ == q2.predicates_by_pattern.contents@.update(
            q2.predicates_by_pattern.contents@.len() - 1,
            Slice {
                length: q.predicates_by_pattern.contents@[q2.predicates_by_pattern.contents@.len() - 1].length,
                ..q2.predicates_by_pattern.contents@[q2.predicates_by_pattern.contents@.len() - 1]
            },
        ),
        o.predicates_by_pattern.contents@.len() > 0,
        step_for_arg(o.captures, q.predicate_values, x, step),
    ensures
        steps_for_args(o, q, got.push(x), 0),
{
    let n0 = o.predicate_steps.contents@.len();
    let g = got.push(x);
    lemma_extends_trans(o.predicate_values, q1.predicate_values, q2.predicate_values);
    assert(q.predicate_steps.contents@.subrange(0, n0 as int) =~= o.predicate_steps.contents@) by {
        assert(q1.predicate_steps.contents@.subrange(0, n0 as int) == o.predicate_steps.contents@);
    }
    assert forall|j: int| 0 <= j < g.len() implies step_for_arg(
        o.captures,
        q.predicate_values,
        #[trigger] g[j],
        q.predicate_steps.contents@[n0 + j],
    ) by {
        if j < got.len() {
            assert(g[j] == got[j]);
            assert(step_for_arg(o.captures, q1.predicate_values, got[j], q1.predicate_steps.contents@[n0 + j]));
            assert(q.predicate_steps.contents@[n0 + j] == q1.predicate_steps.contents@[n0 + j]);
            if let PredicateArg::Text(nm) = got[j] {
                lemma_id_kept(q1.predicate_values, q2.predicate_values, nm, 0);
            }
        }
    }
    let pbp = o.predicates_by_pattern.contents@;
    let last = pbp.len() - 1;
    assert(q.predicates_by_pattern.contents@ =~= pbp.update(
        last,
        Slice { length: q.predicates_by_pattern.contents@[last].length, ..pbp[last] },
    ));
}

proof fn lemma_read_done(o: TSQuery, q1: TSQuery, q: TSQuery, got: Seq<PredicateArg>)
    requires
        steps_for_args(o, q1, got, 0),
        q.predicate_steps.contents@ == q1.predicate_steps.contents@.push(
            TSQueryPredicateStep { type_0: TSQueryPredicateStepTypeDone, value_id: 0 },
        ),
        q.predicate_values == q1.predicate_values,
        q.predicates_by_pattern.contents@[q1.predicates_by_pattern.contents@.len() - 1].length
            == q1.predicates_by_pattern.contents@[q1.predicates_by_pattern.contents@.len() - 1].length + 1,
        q.predicates_by_pattern.contents@ == q1.predicates_by_pattern.contents@.update(
            q1.predicates_by_pattern.contents@.len() - 1,
            Slice {
                length: q.predicates_by_pattern.contents@[q1.predicates_by_pattern.contents@.len() - 1].length,
                ..q1.predicates_by_pattern.contents@[q1.predicates_by_pattern.contents@.len() - 1]
            },
        ),
        o.predicates_by_pattern.contents@.len() > 0,
    ensures
        predicate_read(o, q, got),
{
    let n0 = o.predicate_steps.contents@.len();
    assert(q.predicate_steps.contents@.subrange(0, n0 as int) =~= o.predicate_steps.contents@) by {
        assert(q1.predicate_steps.contents@.subrange(0, n0 as int) == o.predicate_steps.contents@);
    }
    assert forall|j: int| 0 <= j < got.len() implies step_for_arg(
        o.captures,
        q.predicate_values,
        #[trigger] got[j],
        q.predicate_steps.contents@[n0 + j],
    ) by {
        assert(q.predicate_steps.contents@[n0 + j] == q1.predicate_steps.contents@[n0 + j]);
    }
    let pbp = o.predicates_by_pattern.contents@;
    let last = pbp.len() - 1;
    assert(q.predicates_by_pattern.contents@ =~= pbp.update(
        last,
        Slice { length: q.predicates_by_pattern.contents@[last].length, ..pbp[last] },
    ));
}

proof fn lemma_insert_text(
    a: crate::query::SymbolTable,
    b: crate::query::SymbolTable,
    name: Seq<u8>,
    id: u16,
)
    requires
        crate::query::symbol_table_wf(a),
        name.len() <= u32::MAX,
        spec_id_for_name(a, name, 0) >= 0 ==> id == spec_id_for_name(a, name, 0) as u16 && b == a,
        spec_id_for_name(a, name, 0) < 0 ==> {
            &&& b.slices.contents@ == a.slices.contents@.push(
                Slice { offset: a.characters.contents@.len() as u32, length: name.len() as u32 },
            )
            &&& id == a.slices.contents@.len() as u16
            &&& spec_name_at(b, a.slices.contents@.len() as int) == name
            &&& a.characters.contents@.len() <= b.characters.contents@.len()
            &&& b.characters.contents@.subrange(0, a.characters.contents@.len() as int)
                == a.characters.contents@
        },
    ensures
        table_extends(a, b),
        spec_id_for_name(b, name, 0) >= 0,
        spec_id_for_name(b, name, 0) as u16 == id,
{
    if spec_id_for_name(a, name, 0) >= 0 {
        lemma_read_start_table(a);
    } else {
        assert(b.slices.contents@.subrange(0, a.slices.contents@.len() as int) =~= a.slices.contents@);
        lemma_id_added(a, b, name, 0);
    }
}

proof fn lemma_read_start_table(a: crate::query::SymbolTable)
    ensures
        table_extends(a, a),
{
    assert(a.slices.contents@.subrange(0, a.slices.contents@.len() as int) =~= a.slices.contents@);
    assert(a.characters.contents@.subrange(0, a.characters.contents@.len() as int) =~= a.characters.contents@);
}

proof fn lemma_known_push(captures: crate::query::SymbolTable, got: Seq<PredicateArg>, x: PredicateArg)
    requires
        !has_unknown_capture(captures, got),
        x matches PredicateArg::Capture(n, _) ==> spec_id_for_name(captures, n, 0) >= 0,
    ensures
        !has_unknown_capture(captures, got.push(x)),
{
    let g = got.push(x);
    assert forall|j: int| 0 <= j < g.len() implies !(#[trigger] g[j] matches PredicateArg::Capture(n, _)
        && spec_id_for_name(captures, n, 0) < 0) by {
        if j < got.len() {
            assert(g[j] == got[j]);
        }
    }
}

proof fn lemma_with_args_push(got: Seq<PredicateArg>, x: PredicateArg, rest: PredicateParse)
    ensures
        with_args(got.push(x), rest) == with_args(got, with_arg(x, rest)),
{
    match rest {
        PredicateParse::Closed(a, e) => {
            assert(got.push(x) + a =~= got + (seq![x] + a));
        },
        PredicateParse::Broken(a, _) => {
            assert(got.push(x) + a =~= got + (seq![x] + a));
        },
    }
}

/// Reads one predicate of a pattern, `(name argument...)`, into the
/// predicate steps of the last pattern, followed by a done step. Arguments
/// are captures (`@name`, by capture id), string literals (unescaped) and
/// bare names, both as ids among the query's strings. At `)` it returns
/// `PARENT_DONE` and leaves all as it was; at anything but `(` and `)` a
/// syntax error; an unknown capture name is a capture error.
#[verifier::rlimit(40)]
pub fn ts_query__parse_predicate(self_0: &mut TSQuery, stream: &mut Stream) -> (r: u32)
    requires
        query_tables_wf(*old(self_0)),
        stream_wf(*old(stream)),
        old(self_0).predicates_by_pattern.contents@.len() > 0,
        spec_potential(*old(self_0), *old(stream)) <= query_size_limit(),
    ensures
        query_tables_wf(*final(self_0)),
        parse_keeps(*old(self_0), *final(self_0)),
        final(self_0).steps == old(self_0).steps,
        final(self_0).captures == old(self_0).captures,
        stream_wf(*final(stream)),
        final(stream).source == old(stream).source,
        r == TSQueryErrorNone || r == TSQueryErrorSyntax || r == TSQueryErrorCapture || r
            == PARENT_DONE,
        (r == PARENT_DONE) == (old(stream).next == 41),
        r == PARENT_DONE ==> *final(self_0) == *old(self_0) && *final(stream) == *old(stream),
        old(stream).next != 40 && old(stream).next != 41 ==> r == TSQueryErrorSyntax
            && *final(self_0) == *old(self_0) && *final(stream) == *old(stream),
        old(stream).next == 40 ==> {
            let src = old(stream).source@;
            let p = spec_predicate_parse(
                src,
                crate::query::spec_skip(
                    src,
                    crate::query::spec_stream_advance(src, crate::query::stream_view(*old(stream))),
                    false,
                ),
            );
            let args = predicate_args(p);
            &&& (r == TSQueryErrorCapture) == has_unknown_capture(old(self_0).captures, args)
            &&& (r == TSQueryErrorNone) == (p is Closed && !has_unknown_capture(old(self_0).captures, args))
            &&& r == TSQueryErrorNone ==> predicate_read(*old(self_0), *final(self_0), args)
                && p == PredicateParse::Closed(args, crate::query::stream_view(*final(stream)))
            &&& r == TSQueryErrorCapture ==> final(stream).input == unknown_capture_at(
                table_known(old(self_0).captures),
                args,
                0,
            )
            &&& r == TSQueryErrorSyntax ==> (p matches PredicateParse::Broken(_, pos) && final(stream).input
                == pos)
        },
        r == TSQueryErrorNone ==> spec_potential(*final(self_0), *final(stream)) + 7
            <= spec_potential(*old(self_0), *old(stream)),
        r == TSQueryErrorNone ==> final(stream).input > old(stream).input,
        spec_query_size(*final(self_0)) <= spec_potential(*old(self_0), *old(stream)),
{
    if stream.next == 41 {
        return PARENT_DONE;
    }
    if stream.next != 40 {
        return TSQueryErrorSyntax;
    }
    let ghost p0 = spec_potential(*self_0, *stream);
    let ghost start = stream.input;
    stream_advance(stream);
    stream_skip_whitespace(stream);
    let ghost whole = spec_predicate_parse(stream.source@, crate::query::stream_view(*stream));
    let ghost mut got: Seq<PredicateArg> = Seq::empty();
    proof {
        assert(with_args(got, whole) == whole) by {
            match whole {
                PredicateParse::Closed(a, e) => {
                    assert(got + a =~= a);
                },
                PredicateParse::Broken(a, _) => {
                    assert(got + a =~= a);
                },
            }
        }
        lemma_read_start(*self_0);
    }
    loop
        invariant
            query_tables_wf(*self_0),
            parse_keeps(*old(self_0), *self_0),
            self_0.steps == old(self_0).steps,
            self_0.captures == old(self_0).captures,
            self_0.predicates_by_pattern.contents@.len() > 0,
            stream_wf(*stream),
            stream.source == old(stream).source,
            stream.input > start,
            start == old(stream).input,
            old(stream).next == 40,
            p0 == spec_potential(*old(self_0), *old(stream)),
            p0 <= query_size_limit(),
            spec_potential(*self_0, *stream) + 8 <= p0,
            whole == spec_predicate_parse(
                old(stream).source@,
                crate::query::spec_skip(
                    old(stream).source@,
                    crate::query::spec_stream_advance(
                        old(stream).source@,
                        crate::query::stream_view(*old(stream)),
                    ),
                    false,
                ),
            ),
            with_args(got, spec_predicate_parse(stream.source@, crate::query::stream_view(*stream)))
                == whole,
            !has_unknown_capture(old(self_0).captures, got),
            steps_for_args(*old(self_0), *self_0, got, 0),
        decreases stream.source@.len() - stream.input,
    {
        let ghost p1 = spec_potential(*self_0, *stream);
        let ghost q1 = *self_0;
        let ghost v = crate::query::stream_view(*stream);
        let ghost src_s = stream.source@;
        if stream.next == 41 {
            stream_advance(stream);
            stream_skip_whitespace(stream);
            push_predicate_step(
                self_0,
                TSQueryPredicateStep { type_0: TSQueryPredicateStepTypeDone, value_id: 0 },
            );
            proof {
                lemma_parse_keeps_trans(*old(self_0), q1, *self_0);
                lemma_read_done(*old(self_0), q1, *self_0, got);
                assert(got + Seq::<PredicateArg>::empty() =~= got);
            }
            return TSQueryErrorNone;
        }
        let src = stream.source;
        if stream.next == 64 {
            stream_advance(stream);
            if !stream_is_ident_start(stream) {
                proof {
                    assert(got + Seq::<PredicateArg>::empty() =~= got);
                }
                return TSQueryErrorSyntax;
            }
            let ghost a = crate::query::stream_view(*stream);
            let capture_name = stream.input;
            stream_scan_identifier(stream);
            let length = (stream.input - capture_name) as u32;
            let name = vstd::slice::slice_subrange(src, capture_name, stream.input);
            let capture_id = symbol_table_id_for_name(&self_0.captures, name, length);
            let ghost x = PredicateArg::Capture(name@, a.input);
            let ghost rest = spec_predicate_parse(
                src_s,
                crate::query::spec_skip(src_s, crate::query::stream_view(*stream), false),
            );
            proof {
                assert(name@ == src_s.subrange(a.input, crate::query::stream_view(*stream).input));
                assert(spec_predicate_parse(src_s, v) == with_arg(x, rest));
                lemma_with_args_push(got, x, rest);
            }
            if capture_id == -1 {
                stream_reset(stream, capture_name);
                proof {
                    let all = predicate_args(whole);
                    assert(all == got + seq![x] + predicate_args(rest));
                    assert(all[got.len() as int] == x);
                    assert forall|i: int| 0 <= i < got.len() implies !(#[trigger] all[i] matches PredicateArg::Capture(
                        n,
                        _,
                    ) && spec_id_for_name(old(self_0).captures, n, 0) < 0) by {
                        assert(all[i] == got[i]);
                    }
                    lemma_unknown_capture_at(old(self_0).captures, all, 0, got.len() as int);
                }
                return TSQueryErrorCapture;
            }
            proof {
                crate::query::lemma_id_for_name_range(self_0.captures, name@, 0);
            }
            let step = TSQueryPredicateStep {
                type_0: TSQueryPredicateStepTypeCapture,
                value_id: capture_id as u32,
            };
            push_predicate_step(self_0, step);
            proof {
                lemma_parse_keeps_trans(*old(self_0), q1, *self_0);
                lemma_read_start_table(q1.predicate_values);
                lemma_read_push(*old(self_0), q1, q1, *self_0, got, x, step);
                lemma_known_push(old(self_0).captures, got, x);
                got = got.push(x);
            }
        } else if stream.next == 34 {
            stream_advance(stream);
            let string_content = stream.input;
            let ghost a = crate::query::stream_view(*stream);
            proof {
                assert(a == crate::query::spec_stream_advance(src_s, v));
            }
            let mut is_escaped = false;
            loop
                invariant
                    stream_wf(*stream),
                    stream.source == old(stream).source,
                    src == stream.source,
                    src_s == stream.source@,
                    stream.input >= string_content,
                    string_content >= 1,
                    string_content <= stream.source@.len(),
                    *self_0 == q1,
                    self_0.steps == old(self_0).steps,
                    self_0.captures == old(self_0).captures,
                    old(stream).next == 40,
                    p1 + 8 <= p0,
                    p0 == spec_potential(*old(self_0), *old(stream)),
                    query_tables_wf(*self_0),
                    parse_keeps(*old(self_0), *self_0),
                    spec_potential(*self_0, *stream) + 8 * (stream.input - string_content) + 8
                        <= p1,
                    a.input == string_content,
                    with_args(got, spec_predicate_parse(src_s, v)) == whole,
                    whole == spec_predicate_parse(
                        old(stream).source@,
                        crate::query::spec_skip(
                            old(stream).source@,
                            crate::query::spec_stream_advance(
                                old(stream).source@,
                                crate::query::stream_view(*old(stream)),
                            ),
                            false,
                        ),
                    ),
                    !has_unknown_capture(old(self_0).captures, got),
                    crate::query::view_wf(src_s, v),
                    v.next == 34,
                    v.next_size > 0,
                    src_s.len() <= u32::MAX,
                    a == crate::query::spec_stream_advance(src_s, v),
                    spec_string_close(src_s, a, false) == spec_string_close(
                        src_s,
                        crate::query::stream_view(*stream),
                        is_escaped,
                    ),
                ensures
                    stream_wf(*stream),
                    stream.source == old(stream).source,
                    stream.input >= string_content,
                    *self_0 == q1,
                    stream.next == 34,
                    stream.next_size > 0,
                    spec_potential(*self_0, *stream) + 8 * (stream.input - string_content) + 8
                        <= p1,
                    spec_string_close(src_s, a, false) == Some(crate::query::stream_view(*stream)),
                decreases stream.source@.len() - stream.input,
            {
                let ghost w = crate::query::stream_view(*stream);
                let ghost esc = is_escaped;
                if is_escaped {
                    is_escaped = false;
                } else if stream.next == 92 {
                    is_escaped = true;
                } else {
                    if stream.next == 34 {
                        break;
                    }
                    if stream.next == 10 {
                        stream_reset(stream, string_content - 1);
                        proof {
                            assert(spec_string_close(src_s, a, false) is None);
                            assert(spec_predicate_parse(src_s, v) == PredicateParse::Broken(Seq::empty(), a.input - 1));
                            assert(got + Seq::<PredicateArg>::empty() =~= got);
                        }
                        return TSQueryErrorSyntax;
                    }
                }
                if !stream_advance(stream) {
                    stream_reset(stream, string_content - 1);
                    proof {
                        assert(spec_string_close(src_s, a, false) is None);
                        assert(spec_predicate_parse(src_s, v) == PredicateParse::Broken(Seq::empty(), a.input - 1));
                        assert(got + Seq::<PredicateArg>::empty() =~= got);
                    }
                    return TSQueryErrorSyntax;
                }
                proof {
                    assert(is_escaped == (!esc && w.next == 92));
                }
            }
            let ghost c = crate::query::stream_view(*stream);
            let length = (stream.input - string_content) as u32;
            let content = vstd::slice::slice_subrange(src, string_content, stream.input);
            let id = symbol_table_insert_name_with_escapes(&mut self_0.predicate_values, content, length);
            let ghost q2 = *self_0;
            let ghost x = PredicateArg::Text(crate::query::spec_unescape(content@, 0, false));
            let step = TSQueryPredicateStep { type_0: TSQueryPredicateStepTypeString, value_id: id as u32 };
            proof {
                let nm = crate::query::spec_unescape(content@, 0, false);
                crate::query::lemma_unescape_len(content@, 0, false);
                if spec_id_for_name(q1.predicate_values, nm, 0) < 0 {
                    assert(q2.predicate_values.characters.contents@.subrange(
                        0,
                        q1.predicate_values.characters.contents@.len() as int,
                    ) =~= q1.predicate_values.characters.contents@);
                }
                lemma_insert_text(q1.predicate_values, q2.predicate_values, nm, id);
            }
            push_predicate_step(self_0, step);
            proof {
                lemma_parse_keeps_trans(*old(self_0), q1, q2);
                lemma_parse_keeps_trans(*old(self_0), q2, *self_0);
                lemma_read_push(*old(self_0), q1, q2, *self_0, got, x, step);
                lemma_known_push(old(self_0).captures, got, x);
            }
            if stream.next != 34 {
                return TSQueryErrorSyntax;
            }
            stream_advance(stream);
            proof {
                let rest = spec_predicate_parse(
                    src_s,
                    crate::query::spec_skip(src_s, crate::query::stream_view(*stream), false),
                );
                assert(content@ == src_s.subrange(a.input, c.input));
                assert(spec_predicate_parse(src_s, v) == with_arg(x, rest));
                lemma_with_args_push(got, x, rest);
                got = got.push(x);
            }
        } else if stream_is_ident_start(stream) {
            let symbol_start = stream.input;
            stream_scan_identifier(stream);
            let length = (stream.input - symbol_start) as u32;
            let name = vstd::slice::slice_subrange(src, symbol_start, stream.input);
            proof {
                assert(stream.input >= symbol_start + 1);
                assert(spec_query_size(q1) + 8 * (stream.source@.len() - symbol_start) == p1);
                assert(p1 + 8 <= p0);
            }
            let id = symbol_table_insert_name(&mut self_0.predicate_values, name, length);
            proof {
                assert(spec_query_size(*self_0) <= spec_query_size(q1) + length + 2);
            }
            let ghost q2 = *self_0;
            let ghost x = PredicateArg::Text(name@);
            let step = TSQueryPredicateStep { type_0: TSQueryPredicateStepTypeString, value_id: id as u32 };
            proof {
                if spec_id_for_name(q1.predicate_values, name@, 0) < 0 {
                    assert(q2.predicate_values.characters.contents@.subrange(
                        0,
                        q1.predicate_values.characters.contents@.len() as int,
                    ) =~= q1.predicate_values.characters.contents@);
                }
                lemma_insert_text(q1.predicate_values, q2.predicate_values, name@, id);
            }
            push_predicate_step(self_0, step);
            proof {
                lemma_parse_keeps_trans(*old(self_0), q1, q2);
                lemma_parse_keeps_trans(*old(self_0), q2, *self_0);
                lemma_read_push(*old(self_0), q1, q2, *self_0, got, x, step);
                lemma_known_push(old(self_0).captures, got, x);
                let rest = spec_predicate_parse(
                    src_s,
                    crate::query::spec_skip(src_s, crate::query::stream_view(*stream), false),
                );
                assert(name@ == src_s.subrange(v.input, crate::query::stream_view(*stream).input));
                assert(spec_predicate_parse(src_s, v) == with_arg(x, rest));
                lemma_with_args_push(got, x, rest);
                got = got.push(x);
            }
        } else {
            proof {
                assert(got + Seq::<PredicateArg>::empty() =~= got);
            }
            return TSQueryErrorSyntax;
        }
        stream_skip_whitespace(stream);
    }
}

// ---------------------------------------------------------------------------
// The grammar of a pattern.
// ---------------------------------------------------------------------------

/// Which capture names a query knows: those its captures table finds.
pub open spec fn table_known(t: crate::query::SymbolTable) -> spec_fn(Seq<u8>) -> bool {
    |n: Seq<u8>| spec_id_for_name(t, n, 0) >= 0
}

/// Whether the stored name `m` answers a lookup of `n`: the same length,
/// and equal up to the first zero byte.
pub open spec fn name_answers(m: Seq<u8>, n: Seq<u8>) -> bool {
    m.len() == n.len() && crate::language::spec_strn_eq(m, n, 0, n.len() as int)
}

/// What is known after the capture name `m` is added.
pub open spec fn known_with(known: spec_fn(Seq<u8>) -> bool, m: Seq<u8>) -> spec_fn(Seq<u8>) -> bool {
    |n: Seq<u8>| known(n) || name_answers(m, n)
}

/// Whether some capture among `args` is not known.
pub open spec fn names_unknown(known: spec_fn(Seq<u8>) -> bool, args: Seq<PredicateArg>) -> bool {
    exists|j: int|
        0 <= j < args.len() && (#[trigger] args[j] matches PredicateArg::Capture(n, _) && !known(n))
}

/// How reading a pattern went: read up to a stream state, with the number
/// of captures read and what is known of capture names afterwards; a `)`
/// where a pattern was to start; or an error, with the byte where it was
/// found.
pub enum PatternParse {
    Read(crate::query::StreamView, nat, spec_fn(Seq<u8>) -> bool),
    Done,
    Failed(u32, int),
}

/// `r` with `n` captures read before it.
pub open spec fn after_captures(n: nat, r: PatternParse) -> PatternParse {
    match r {
        PatternParse::Read(e, m, k) => PatternParse::Read(e, n + m, k),
        other => other,
    }
}

/// Whether `x` is past `v`, within the source.
pub open spec fn ahead(source: Seq<u8>, x: crate::query::StreamView, v: crate::query::StreamView) -> bool {
    v.input < x.input <= source.len()
}

/// Reading a node name's string literal from `v` (just past the quote): the
/// stream at the closing quote, with no escapes; `None` at the end.
pub open spec fn spec_name_close(source: Seq<u8>, v: crate::query::StreamView) -> Option<
    crate::query::StreamView,
>
    decreases source.len() - v.input,
{
    if !crate::query::view_wf(source, v) {
        None
    } else if v.next == 34 {
        Some(v)
    } else {
        let a = crate::query::spec_stream_advance(source, v);
        if a.next_size == 0 || v.next_size == 0 {
            None
        } else {
            spec_name_close(source, a)
        }
    }
}

/// The captures `@name` after a pattern, from `v`: how many, and their
/// names made known.
pub open spec fn spec_pattern_captures(
    source: Seq<u8>,
    v: crate::query::StreamView,
    known: spec_fn(Seq<u8>) -> bool,
) -> PatternParse
    decreases source.len() - v.input, 0int,
{
    if v.next != 64 {
        PatternParse::Read(v, 0, known)
    } else {
        let a = crate::query::spec_stream_advance(source, v);
        if !crate::query::spec_is_ident_start(a.next) {
            PatternParse::Failed(TSQueryErrorSyntax, a.input)
        } else {
            let e = crate::query::spec_scan_identifier(source, a);
            let after = crate::query::spec_skip(source, e, false);
            if ahead(source, after, v) {
                after_captures(
                    1,
                    spec_pattern_captures(source, after, known_with(known, source.subrange(a.input, e.input))),
                )
            } else {
                PatternParse::Failed(TSQueryErrorSyntax, v.input)
            }
        }
    }
}

/// The predicates after the pattern of `((pattern) predicate...)`, from `v`,
/// up to the closing `)` (see `spec_predicate_parse`), and the stream after
/// it.
pub open spec fn spec_pattern_predicates(
    source: Seq<u8>,
    v: crate::query::StreamView,
    known: spec_fn(Seq<u8>) -> bool,
) -> PatternParse
    decreases source.len() - v.input, 0int,
{
    if v.next == 41 {
        PatternParse::Read(
            crate::query::spec_skip(source, crate::query::spec_stream_advance(source, v), false),
            0,
            known,
        )
    } else if v.next != 40 {
        PatternParse::Failed(TSQueryErrorSyntax, v.input)
    } else {
        let p = spec_predicate_parse(
            source,
            crate::query::spec_skip(source, crate::query::spec_stream_advance(source, v), false),
        );
        if names_unknown(known, predicate_args(p)) {
            PatternParse::Failed(TSQueryErrorCapture, unknown_capture_at(known, predicate_args(p), 0))
        } else {
            match p {
                PredicateParse::Closed(_, e) => if ahead(source, e, v) {
                    spec_pattern_predicates(source, e, known)
                } else {
                    PatternParse::Failed(TSQueryErrorSyntax, v.input)
                },
                PredicateParse::Broken(_, pos) => PatternParse::Failed(TSQueryErrorSyntax, pos),
            }
        }
    }
}

/// The depth below `depth`, wrapping around.
pub open spec fn depth_below(depth: u32) -> u32 {
    ((depth + 1) % 0x1_0000_0000) as u32
}

/// What follows a pattern's form read up to `r`, from a pattern that started
/// at `v`: its captures, after whitespace.
pub open spec fn then_captures(source: Seq<u8>, v: crate::query::StreamView, r: PatternParse) -> PatternParse {
    match r {
        PatternParse::Read(e, n, k) => {
            let t = crate::query::spec_skip(source, e, false);
            if ahead(source, t, v) {
                after_captures(n, spec_pattern_captures(source, t, k))
            } else {
                PatternParse::Failed(TSQueryErrorSyntax, v.input)
            }
        },
        other => other,
    }
}

/// The node a parenthesized pattern names, read from `a`: the stream after
/// the name (a wildcard `*`, or a node name of the grammar); `None` for a
/// name the grammar lacks or no name at all.
pub open spec fn spec_node_name(l: &TSLanguage, source: Seq<u8>, a: crate::query::StreamView) -> Option<
    crate::query::StreamView,
> {
    if a.next == 42 {
        Some(crate::query::spec_stream_advance(source, a))
    } else if crate::query::spec_is_ident_start(a.next) {
        let e = crate::query::spec_scan_identifier(source, a);
        if crate::language::spec_symbol_for_name(l, source.subrange(a.input, e.input), true) == 0 {
            None
        } else {
            Some(e)
        }
    } else {
        None
    }
}

/// A parenthesized pattern from `v` (at its `(`): `((pattern) predicate...)`
/// at the top, or a node name (or `*`) followed by its children; then its
/// captures.
pub open spec fn spec_paren_pattern(
    l: &TSLanguage,
    source: Seq<u8>,
    v: crate::query::StreamView,
    depth: u32,
    known: spec_fn(Seq<u8>) -> bool,
) -> PatternParse
    decreases source.len() - v.input, 0int,
{
    let a = crate::query::spec_skip(source, crate::query::spec_stream_advance(source, v), false);
    if !ahead(source, a, v) {
        PatternParse::Failed(TSQueryErrorSyntax, v.input)
    } else if a.next == 40 && depth == 0 {
        match spec_pattern(l, source, a, 0, known) {
            PatternParse::Read(e, n, k) => {
                let b = crate::query::spec_skip(source, e, false);
                if ahead(source, b, v) {
                    after_captures(n, spec_pattern_predicates(source, b, k))
                } else {
                    PatternParse::Failed(TSQueryErrorSyntax, v.input)
                }
            },
            other => other,
        }
    } else {
        match spec_node_name(l, source, a) {
            None => if a.next == 42 || !crate::query::spec_is_ident_start(a.next) {
                PatternParse::Failed(TSQueryErrorSyntax, a.input)
            } else {
                PatternParse::Failed(TSQueryErrorNodeType, a.input)
            },
            Some(b) => {
                let c = crate::query::spec_skip(source, b, false);
                if ahead(source, c, v) {
                    then_captures(source, v, spec_pattern_children(l, source, c, depth_below(depth), known))
                } else {
                    PatternParse::Failed(TSQueryErrorSyntax, v.input)
                }
            },
        }
    }
}

/// A node named by a string literal, from `v` (at its `"`); then its
/// captures.
#[verifier::opaque]
pub open spec fn spec_string_pattern(
    l: &TSLanguage,
    source: Seq<u8>,
    v: crate::query::StreamView,
    known: spec_fn(Seq<u8>) -> bool,
) -> PatternParse {
    let a = crate::query::spec_stream_advance(source, v);
    match spec_name_close(source, a) {
        None => PatternParse::Failed(TSQueryErrorSyntax, a.input - 1),
        Some(c) => if crate::language::spec_symbol_for_name(l, source.subrange(a.input, c.input), false)
            == 0 {
            PatternParse::Failed(TSQueryErrorNodeType, a.input)
        } else {
            then_captures(source, v, PatternParse::Read(crate::query::spec_stream_advance(source, c), 0, known))
        },
    }
}

/// A pattern with a field, `name: pattern`, from `v` (at the name); then its
/// captures.
pub open spec fn spec_field_pattern(
    l: &TSLanguage,
    source: Seq<u8>,
    v: crate::query::StreamView,
    depth: u32,
    known: spec_fn(Seq<u8>) -> bool,
) -> PatternParse
    decreases source.len() - v.input, 0int,
{
    let e = crate::query::spec_scan_identifier(source, v);
    let f = crate::query::spec_skip(source, e, false);
    if f.next != 58 {
        PatternParse::Failed(TSQueryErrorSyntax, v.input)
    } else {
        let g = crate::query::spec_skip(source, crate::query::spec_stream_advance(source, f), false);
        if !ahead(source, g, v) {
            PatternParse::Failed(TSQueryErrorSyntax, v.input)
        } else {
            match spec_pattern(l, source, g, depth, known) {
                PatternParse::Done => PatternParse::Failed(TSQueryErrorSyntax, g.input),
                PatternParse::Failed(x, p) => PatternParse::Failed(x, p),
                PatternParse::Read(e2, n, k) => if crate::language::spec_field_id_for_name_from(
                    l,
                    source.subrange(v.input, e.input),
                    1,
                ) == 0 {
                    PatternParse::Failed(TSQueryErrorField, v.input)
                } else {
                    then_captures(source, v, PatternParse::Read(e2, n, k))
                },
            }
        }
    }
}

/// Reading one pattern at depth `depth` from `v` (see
/// `ts_query__parse_pattern`): its form, checked against the grammar's node
/// and field names, then its captures; `known` the capture names known
/// before it.
pub open spec fn spec_pattern(
    l: &TSLanguage,
    source: Seq<u8>,
    v: crate::query::StreamView,
    depth: u32,
    known: spec_fn(Seq<u8>) -> bool,
) -> PatternParse
    decreases source.len() - v.input, 1int,
{
    if !crate::query::view_wf(source, v) || source.len() > u32::MAX || v.next == 0 {
        PatternParse::Failed(TSQueryErrorSyntax, v.input)
    } else if v.next == 41 {
        PatternParse::Done
    } else if v.next == 40 {
        spec_paren_pattern(l, source, v, depth, known)
    } else if v.next == 34 {
        spec_string_pattern(l, source, v, known)
    } else if crate::query::spec_is_ident_start(v.next) {
        spec_field_pattern(l, source, v, depth, known)
    } else if v.next == 42 {
        then_captures(
            source,
            v,
            PatternParse::Read(
                crate::query::spec_skip(source, crate::query::spec_stream_advance(source, v), false),
                0,
                known,
            ),
        )
    } else {
        PatternParse::Failed(TSQueryErrorSyntax, v.input)
    }
}

/// The children of a parenthesized pattern at depth `depth`, from `v`, each
/// maybe marked immediate by a `.` before it, up to the `)` that closes it:
/// the stream just past that `)`.
pub open spec fn spec_pattern_children(
    l: &TSLanguage,
    source: Seq<u8>,
    v: crate::query::StreamView,
    depth: u32,
    known: spec_fn(Seq<u8>) -> bool,
) -> PatternParse
    decreases source.len() - v.input, 2int,
{
    let c = if v.next == 46 {
        crate::query::spec_skip(source, crate::query::spec_stream_advance(source, v), false)
    } else {
        v
    };
    if !(v.input <= c.input <= source.len()) {
        PatternParse::Failed(TSQueryErrorSyntax, v.input)
    } else {
        match spec_pattern(l, source, c, depth, known) {
            PatternParse::Done => PatternParse::Read(crate::query::spec_stream_advance(source, c), 0, known),
            PatternParse::Failed(x, p) => PatternParse::Failed(x, p),
            PatternParse::Read(e, n, k) => if ahead(source, e, v) {
                after_captures(n, spec_pattern_children(l, source, e, depth, k))
            } else {
                PatternParse::Failed(TSQueryErrorSyntax, v.input)
            },
        }
    }
}

/// Whether entry `e` of a table answers a lookup of `n`.
pub open spec fn entry_answers(t: crate::query::SymbolTable, e: int, n: Seq<u8>) -> bool {
    t.slices.contents@[e].length == n.len() && crate::language::spec_strn_eq(
        spec_name_at(t, e),
        n,
        0,
        n.len() as int,
    )
}

proof fn lemma_id_found(t: crate::query::SymbolTable, n: Seq<u8>, j: int)
    requires
        spec_id_for_name(t, n, j) >= 0,
    ensures
        j <= spec_id_for_name(t, n, j) < t.slices.contents@.len(),
        entry_answers(t, spec_id_for_name(t, n, j), n),
    decreases t.slices.contents@.len() - j,
{
    if 0 <= j < t.slices.contents@.len() && !entry_answers(t, j, n) {
        lemma_id_found(t, n, j + 1);
    }
}

proof fn lemma_id_finds(t: crate::query::SymbolTable, n: Seq<u8>, j: int, e: int)
    requires
        0 <= j <= e < t.slices.contents@.len(),
        entry_answers(t, e, n),
    ensures
        spec_id_for_name(t, n, j) >= 0,
    decreases e - j,
{
    if !entry_answers(t, j, n) {
        lemma_id_finds(t, n, j + 1, e);
    }
}

proof fn lemma_strn_eq_trans(a: Seq<u8>, b: Seq<u8>, c: Seq<u8>, i: int, n: int)
    requires
        crate::language::spec_strn_eq(a, b, i, n),
        crate::language::spec_strn_eq(b, c, i, n),
    ensures
        crate::language::spec_strn_eq(a, c, i, n),
    decreases n - i,
{
    if i < n && a[i] != 0 {
        lemma_strn_eq_trans(a, b, c, i + 1, n);
    }
}

proof fn lemma_id_extend(a: crate::query::SymbolTable, b: crate::query::SymbolTable, m: Seq<u8>, n: Seq<u8>, j: int)
    requires
        crate::query::symbol_table_wf(a),
        table_extends(a, b),
        b.slices.contents@.len() == a.slices.contents@.len() + 1,
        b.slices.contents@.last().length == m.len(),
        spec_name_at(b, a.slices.contents@.len() as int) == m,
        0 <= j <= a.slices.contents@.len(),
    ensures
        (spec_id_for_name(b, n, j) >= 0) == (spec_id_for_name(a, n, j) >= 0 || name_answers(m, n)),
    decreases a.slices.contents@.len() - j,
{
    let len = a.slices.contents@.len() as int;
    if j < len {
        assert(b.slices.contents@[j] == a.slices.contents@[j]);
        assert(spec_name_at(b, j) =~= spec_name_at(a, j));
        lemma_id_extend(a, b, m, n, j + 1);
    } else {
        assert(b.slices.contents@[len] == b.slices.contents@.last());
        assert(spec_id_for_name(b, n, len + 1) == -1);
        assert(spec_id_for_name(a, n, len) == -1);
    }
}

/// Adding the capture name `m` to a table makes known what `known_with`
/// says.
proof fn lemma_insert_known(a: crate::query::SymbolTable, b: crate::query::SymbolTable, m: Seq<u8>)
    requires
        crate::query::symbol_table_wf(a),
        m.len() <= u32::MAX,
        spec_id_for_name(a, m, 0) >= 0 ==> b == a,
        spec_id_for_name(a, m, 0) < 0 ==> {
            &&& b.slices.contents@ == a.slices.contents@.push(
                Slice { offset: a.characters.contents@.len() as u32, length: m.len() as u32 },
            )
            &&& spec_name_at(b, a.slices.contents@.len() as int) == m
            &&& a.characters.contents@.len() <= b.characters.contents@.len()
            &&& b.characters.contents@.subrange(0, a.characters.contents@.len() as int)
                == a.characters.contents@
        },
    ensures
        table_known(b) == known_with(table_known(a), m),
{
    assert forall|n: Seq<u8>| #[trigger] table_known(b)(n) == known_with(table_known(a), m)(n) by {
        if spec_id_for_name(a, m, 0) >= 0 {
            if name_answers(m, n) {
                let e = spec_id_for_name(a, m, 0);
                lemma_id_found(a, m, 0);
                lemma_strn_eq_trans(spec_name_at(a, e), m, n, 0, n.len() as int);
                lemma_id_finds(a, n, 0, e);
            }
        } else {
            assert(b.slices.contents@.subrange(0, a.slices.contents@.len() as int) =~= a.slices.contents@);
            lemma_id_extend(a, b, m, n, 0);
        }
    }
    assert(table_known(b) =~= known_with(table_known(a), m));
}

proof fn lemma_unknown_same(t: crate::query::SymbolTable, args: Seq<PredicateArg>)
    ensures
        has_unknown_capture(t, args) == names_unknown(table_known(t), args),
{
    if has_unknown_capture(t, args) {
        let j = choose|j: int|
            0 <= j < args.len() && (#[trigger] args[j] matches PredicateArg::Capture(n, _) && spec_id_for_name(
                t,
                n,
                0,
            ) < 0);
        assert(args[j] matches PredicateArg::Capture(n, _) && !table_known(t)(n));
    }
    if names_unknown(table_known(t), args) {
        let j = choose|j: int|
            0 <= j < args.len() && (#[trigger] args[j] matches PredicateArg::Capture(n, _) && !table_known(t)(n));
        assert(args[j] matches PredicateArg::Capture(n, _) && spec_id_for_name(t, n, 0) < 0);
    }
}

proof fn lemma_after_captures_twice(m: nat, n: nat, r: PatternParse)
    ensures
        after_captures(m, after_captures(n, r)) == after_captures(m + n, r),
{
}

proof fn lemma_count_mod(c: u32, m: nat, n: nat, c1: u32)
    requires
        c1 as int == (c + m) % 0x1_0000_0000,
    ensures
        (c1 + n) % 0x1_0000_0000 == (c + m + n) % 0x1_0000_0000,
{
    assert((c1 + n) % 0x1_0000_0000 == (c + m + n) % 0x1_0000_0000) by (nonlinear_arith)
        requires
            c1 as int == (c + m) % 0x1_0000_0000,
    ;
}

/// Sets the field of step `index`.
fn set_step_field(self_0: &mut TSQuery, index: usize, field: u16)
    requires
        index < old(self_0).steps.contents@.len(),
    ensures
        final(self_0).steps.contents@ == old(self_0).steps.contents@.update(
            index as int,
            crate::query::QueryStep { field, ..old(self_0).steps.contents@[index as int] },
        ),
        final(self_0).steps.capacity == old(self_0).steps.capacity,
        final(self_0).captures == old(self_0).captures,
        final(self_0).predicate_values == old(self_0).predicate_values,
        final(self_0).predicate_steps == old(self_0).predicate_steps,
        final(self_0).predicates_by_pattern == old(self_0).predicates_by_pattern,
        final(self_0).pattern_map == old(self_0).pattern_map,
        final(self_0).start_bytes_by_pattern == old(self_0).start_bytes_by_pattern,
        final(self_0).language == old(self_0).language,
        final(self_0).max_capture_count == old(self_0).max_capture_count,
        final(self_0).wildcard_root_pattern_count == old(self_0).wildcard_root_pattern_count,
        final(self_0).symbol_map == old(self_0).symbol_map,
{
    let mut step = self_0.steps.contents[index];
    step.field = field;
    self_0.steps.contents.set(index, step);
}

/// Marks step `index` as the last of its pattern.
fn set_step_last(self_0: &mut TSQuery, index: usize)
    requires
        index < old(self_0).steps.contents@.len(),
    ensures
        final(self_0).steps.contents@ == old(self_0).steps.contents@.update(
            index as int,
            crate::query::QueryStep { is_last: true, ..old(self_0).steps.contents@[index as int] },
        ),
        final(self_0).steps.capacity == old(self_0).steps.capacity,
        final(self_0).captures == old(self_0).captures,
        final(self_0).predicate_values == old(self_0).predicate_values,
        final(self_0).predicate_steps == old(self_0).predicate_steps,
        final(self_0).predicates_by_pattern == old(self_0).predicates_by_pattern,
        final(self_0).pattern_map == old(self_0).pattern_map,
        final(self_0).start_bytes_by_pattern == old(self_0).start_bytes_by_pattern,
        final(self_0).language == old(self_0).language,
        final(self_0).max_capture_count == old(self_0).max_capture_count,
        final(self_0).wildcard_root_pattern_count == old(self_0).wildcard_root_pattern_count,
        final(self_0).symbol_map == old(self_0).symbol_map,
{
    let mut step = self_0.steps.contents[index];
    step.is_last = true;
    self_0.steps.contents.set(index, step);
}

/// Adds capture `capture_id` to step `index` (see `query_step__add_capture`).
fn add_step_capture(self_0: &mut TSQuery, index: usize, capture_id: u16)
    requires
        index < old(self_0).steps.contents@.len(),
    ensures
        final(self_0).steps.contents@.len() == old(self_0).steps.contents@.len(),
        forall|i: int|
            0 <= i < old(self_0).steps.contents@.len() && i != index ==> #[trigger] final(self_0).steps.contents@[i]
                == old(self_0).steps.contents@[i],
        final(self_0).steps.contents@[index as int].symbol == old(self_0).steps.contents@[index as int].symbol,
        final(self_0).steps.contents@[index as int].depth == old(self_0).steps.contents@[index as int].depth,
        final(self_0).steps.contents@[index as int].is_immediate == old(self_0).steps.contents@[index as int].is_immediate,
        final(self_0).steps.contents@[index as int].capture_ids@ == crate::query::spec_add_capture(
            old(self_0).steps.contents@[index as int].capture_ids@,
            capture_id,
        ),
        final(self_0).steps.contents@[index as int].field == old(self_0).steps.contents@[index as int].field,
        final(self_0).steps.contents@[index as int].contains_captures
            == old(self_0).steps.contents@[index as int].contains_captures,
        final(self_0).steps.contents@[index as int].is_last == old(self_0).steps.contents@[index as int].is_last,
        final(self_0).steps.capacity == old(self_0).steps.capacity,
        final(self_0).captures == old(self_0).captures,
        final(self_0).predicate_values == old(self_0).predicate_values,
        final(self_0).predicate_steps == old(self_0).predicate_steps,
        final(self_0).predicates_by_pattern == old(self_0).predicates_by_pattern,
        final(self_0).pattern_map == old(self_0).pattern_map,
        final(self_0).start_bytes_by_pattern == old(self_0).start_bytes_by_pattern,
        final(self_0).language == old(self_0).language,
        final(self_0).max_capture_count == old(self_0).max_capture_count,
        final(self_0).wildcard_root_pattern_count == old(self_0).wildcard_root_pattern_count,
        final(self_0).symbol_map == old(self_0).symbol_map,
{
    let mut step = self_0.steps.contents[index];
    query_step__add_capture(&mut step, capture_id);
    self_0.steps.contents.set(index, step);
}

/// Reads one pattern at nesting depth `depth` into the query's steps: a
/// parenthesized node `(name child...)` or `(* child...)` (a wildcard, named
/// below the top), a string leaf `"text"`, a wildcard `*`, or a pattern with
/// a field `name: pattern`; each followed by any number of captures `@name`,
/// which go to the pattern's first step and count in `capture_count`. At the
/// top, `((pattern) predicate...)` gives a pattern with predicates. Its
/// first step, at the end of the steps as they were, has the depth (in 13
/// bits) and `is_immediate`. `PARENT_DONE` at `)`, leaving all as it was;
/// a syntax error at the end; an unknown node or field name is a node-type
/// or field error.
proof fn lemma_children_read(
    l: &TSLanguage,
    source: Seq<u8>,
    w: crate::query::StreamView,
    c: crate::query::StreamView,
    depth: u32,
    known: spec_fn(Seq<u8>) -> bool,
    m: nat,
)
    requires
        c == (if w.next == 46 {
            crate::query::spec_skip(source, crate::query::spec_stream_advance(source, w), false)
        } else {
            w
        }),
        w.input <= c.input <= source.len(),
        spec_pattern(l, source, c, depth, known) is Read,
        ahead(source, spec_pattern(l, source, c, depth, known)->Read_0, w),
    ensures
        ({
            let r = spec_pattern(l, source, c, depth, known);
            after_captures(m, spec_pattern_children(l, source, w, depth, known)) == after_captures(
                m + r->Read_1,
                spec_pattern_children(l, source, r->Read_0, depth, r->Read_2),
            )
        }),
{
}

proof fn lemma_children_stop(
    l: &TSLanguage,
    source: Seq<u8>,
    w: crate::query::StreamView,
    c: crate::query::StreamView,
    depth: u32,
    known: spec_fn(Seq<u8>) -> bool,
    m: nat,
)
    requires
        c == (if w.next == 46 {
            crate::query::spec_skip(source, crate::query::spec_stream_advance(source, w), false)
        } else {
            w
        }),
        w.input <= c.input <= source.len(),
        !(spec_pattern(l, source, c, depth, known) is Read),
    ensures
        spec_pattern(l, source, c, depth, known) is Done ==> after_captures(
            m,
            spec_pattern_children(l, source, w, depth, known),
        ) == PatternParse::Read(crate::query::spec_stream_advance(source, c), m, known),
        spec_pattern(l, source, c, depth, known) is Failed ==> spec_pattern_children(l, source, w, depth, known)
            == spec_pattern(l, source, c, depth, known),
{
}

/// The predicates after the pattern of `((pattern) predicate...)` (see
/// `spec_pattern_predicates`), each read into the last pattern's predicate
/// steps, and the stream past the closing `)` and the whitespace after it.
#[verifier::rlimit(60)]
fn parse_pattern_predicates(
    self_0: &mut TSQuery,
    stream: &mut Stream,
    Ghost(q0): Ghost<TSQuery>,
    Ghost(n0): Ghost<int>,
    Ghost(p0): Ghost<int>,
    Ghost(pdepth): Ghost<u32>,
    Ghost(pimm): Ghost<bool>,
    Ghost(s0): Ghost<int>,
) -> (r: u32)
    requires
        query_tables_wf(*old(self_0)),
        parse_keeps(q0, *old(self_0)),
        n0 == q0.steps.contents@.len(),
        old(self_0).steps.contents@.len() > n0,
        old(self_0).steps.contents@[n0].depth == (pdepth as u16) % 8192,
        old(self_0).steps.contents@[n0].is_immediate == pimm,
        old(self_0).predicates_by_pattern.contents@.len() > 0,
        stream_wf(*old(stream)),
        old(stream).input > s0,
        spec_potential(*old(self_0), *old(stream)) + 15 <= p0,
        p0 <= query_size_limit(),
    ensures
        query_tables_wf(*final(self_0)),
        parse_keeps(q0, *final(self_0)),
        final(self_0).captures == old(self_0).captures,
        final(stream).source == old(stream).source,
        final(stream).input <= final(stream).source@.len(),
        spec_query_size(*final(self_0)) <= p0,
        r == TSQueryErrorNone || r == TSQueryErrorSyntax || r == TSQueryErrorCapture,
        ({
            let pres = spec_pattern_predicates(
                old(stream).source@,
                crate::query::stream_view(*old(stream)),
                table_known(old(self_0).captures),
            );
            &&& r != TSQueryErrorNone ==> pres == PatternParse::Failed(r, final(stream).input as int)
            &&& r == TSQueryErrorNone ==> pres == PatternParse::Read(
                crate::query::stream_view(*final(stream)),
                0,
                table_known(old(self_0).captures),
            )
        }),
        r == TSQueryErrorNone ==> {
            &&& stream_wf(*final(stream))
            &&& final(stream).input > s0
            &&& spec_potential(*final(self_0), *final(stream)) + 7 <= p0
            &&& final(self_0).steps.contents@.len() > n0
            &&& final(self_0).steps.contents@[n0].depth == (pdepth as u16) % 8192
            &&& final(self_0).steps.contents@[n0].is_immediate == pimm
        },
{
    let ghost src_s = stream.source@;
    let ghost k0 = table_known(self_0.captures);
    let ghost pres0 = spec_pattern_predicates(src_s, crate::query::stream_view(*stream), k0);
    loop
        invariant
            pres0 == spec_pattern_predicates(src_s, crate::query::stream_view(*stream), k0),
            k0 == table_known(self_0.captures),
            self_0.captures == old(self_0).captures,
            src_s == stream.source@,
            pres0 == spec_pattern_predicates(
                old(stream).source@,
                crate::query::stream_view(*old(stream)),
                table_known(old(self_0).captures),
            ),
            query_tables_wf(*self_0),
            parse_keeps(q0, *self_0),
            n0 == q0.steps.contents@.len(),
            self_0.steps.contents@.len() > n0,
            self_0.steps.contents@[n0].depth == (pdepth as u16) % 8192,
            self_0.steps.contents@[n0].is_immediate == pimm,
            self_0.predicates_by_pattern.contents@.len() > 0,
            stream_wf(*stream),
            stream.source == old(stream).source,
            stream.input > s0,
            spec_potential(*self_0, *stream) + 15 <= p0,
            p0 <= query_size_limit(),
        decreases stream.source@.len() - stream.input,
    {
        let ghost q1 = *self_0;
        let ghost w = crate::query::stream_view(*stream);
        let e_0 = ts_query__parse_predicate(self_0, stream);
        proof {
            lemma_parse_keeps_trans(q0, q1, *self_0);
            if w.next == 40 {
                let p = spec_predicate_parse(
                    src_s,
                    crate::query::spec_skip(src_s, crate::query::spec_stream_advance(src_s, w), false),
                );
                lemma_unknown_same(q1.captures, predicate_args(p));
            }
        }
        if e_0 == PARENT_DONE {
            stream_advance(stream);
            stream_skip_whitespace(stream);
            return TSQueryErrorNone;
        } else if e_0 != 0 {
            return e_0;
        }
        proof {
            assert(ahead(src_s, crate::query::stream_view(*stream), w));
        }
    }
}

/// The children of a parenthesized pattern at depth `depth` (see
/// `spec_pattern_children`), each a pattern read into the query's steps;
/// the first child's step marked last where it is immediate and the node
/// has no more children.
#[verifier::rlimit(60)]
fn parse_children(
    self_0: &mut TSQuery,
    stream: &mut Stream,
    depth: u32,
    capture_count: &mut u32,
    child_start_step_index: u16,
    Ghost(q0): Ghost<TSQuery>,
    Ghost(n0): Ghost<int>,
    Ghost(p0): Ghost<int>,
    Ghost(pdepth): Ghost<u32>,
    Ghost(pimm): Ghost<bool>,
    Ghost(s0): Ghost<int>,
) -> (r: u32)
    requires
        query_tables_wf(*old(self_0)),
        parse_keeps(q0, *old(self_0)),
        spec_symbol_count(old(self_0).language) <= u16::MAX,
        old(self_0).language.field_count < u16::MAX,
        n0 == q0.steps.contents@.len(),
        old(self_0).steps.contents@.len() > n0,
        old(self_0).steps.contents@[n0].depth == (pdepth as u16) % 8192,
        old(self_0).steps.contents@[n0].is_immediate == pimm,
        old(self_0).predicates_by_pattern.contents@.len() > 0,
        stream_wf(*old(stream)),
        old(stream).input > s0,
        spec_potential(*old(self_0), *old(stream)) + 15 <= p0,
        p0 <= query_size_limit(),
    ensures
        query_tables_wf(*final(self_0)),
        parse_keeps(q0, *final(self_0)),
        final(stream).source == old(stream).source,
        final(stream).input <= final(stream).source@.len(),
        spec_query_size(*final(self_0)) <= p0,
        r == TSQueryErrorNone || r == TSQueryErrorSyntax || r == TSQueryErrorNodeType || r
            == TSQueryErrorField || r == TSQueryErrorCapture,
        ({
            let cres = spec_pattern_children(
                old(self_0).language,
                old(stream).source@,
                crate::query::stream_view(*old(stream)),
                depth,
                table_known(old(self_0).captures),
            );
            &&& r != TSQueryErrorNone ==> cres == PatternParse::Failed(r, final(stream).input as int)
            &&& r == TSQueryErrorNone ==> (cres matches PatternParse::Read(e, n, k)
                && crate::query::stream_view(*final(stream)) == e && *final(capture_count) as int == (
            *old(capture_count) + n) % 0x1_0000_0000 && table_known(final(self_0).captures) == k)
        }),
        r == TSQueryErrorNone ==> {
            &&& stream_wf(*final(stream))
            &&& final(stream).input > s0
            &&& spec_potential(*final(self_0), *final(stream)) + 15 <= p0
            &&& final(self_0).steps.contents@.len() > n0
            &&& final(self_0).steps.contents@[n0].depth == (pdepth as u16) % 8192
            &&& final(self_0).steps.contents@[n0].is_immediate == pimm
            &&& final(self_0).predicates_by_pattern.contents@.len() > 0
        },
    decreases old(stream).source@.len() - old(stream).input, 2int,
{
    let ghost l = self_0.language;
    let ghost src_s = stream.source@;
    let ghost cres0 = spec_pattern_children(
        l,
        src_s,
        crate::query::stream_view(*stream),
        depth,
        table_known(self_0.captures),
    );
    let ghost cc0 = *capture_count;
    let ghost mut m: nat = 0;
    let ghost q_start = *self_0;
    let mut child_is_immediate = false;
    loop
        invariant_except_break
            cres0 == after_captures(
                m,
                spec_pattern_children(
                    l,
                    src_s,
                    crate::query::stream_view(*stream),
                    depth,
                    table_known(self_0.captures),
                ),
            ),
        invariant
            *capture_count as int == (cc0 + m) % 0x1_0000_0000,
            src_s == stream.source@,
            l == self_0.language,
            cc0 == *old(capture_count),
            q_start == *old(self_0),
            cres0 == spec_pattern_children(
                old(self_0).language,
                old(stream).source@,
                crate::query::stream_view(*old(stream)),
                depth,
                table_known(old(self_0).captures),
            ),
            query_tables_wf(*self_0),
            parse_keeps(q0, *self_0),
            spec_symbol_count(self_0.language) <= u16::MAX,
            self_0.language.field_count < u16::MAX,
            n0 == q0.steps.contents@.len(),
            self_0.steps.contents@.len() > n0,
            self_0.steps.contents@[n0].depth == (pdepth as u16) % 8192,
            self_0.steps.contents@[n0].is_immediate == pimm,
            self_0.predicates_by_pattern.contents@.len() > 0,
            stream_wf(*stream),
            stream.source == old(stream).source,
            stream.input > s0,
            stream.input >= old(stream).input,
            spec_potential(*self_0, *stream) + 15 <= p0,
            p0 <= query_size_limit(),
        ensures
            cres0 == PatternParse::Read(crate::query::stream_view(*stream), m, table_known(self_0.captures)),
        decreases stream.source@.len() - stream.input,
    {
        let ghost w = crate::query::stream_view(*stream);
        if stream.next == 46 {
            child_is_immediate = true;
            stream_advance(stream);
            stream_skip_whitespace(stream);
        }
        let ghost q1 = *self_0;
        let ghost c1 = crate::query::stream_view(*stream);
        let ghost cc1 = *capture_count;
        proof {
            assert(w.input <= c1.input <= src_s.len());
        }
        let e_1 = ts_query__parse_pattern(self_0, stream, depth, capture_count, child_is_immediate);
        proof {
            lemma_parse_keeps_trans(q0, q1, *self_0);
            let cres = spec_pattern(l, src_s, c1, depth, table_known(q1.captures));
            if e_1 == 0 {
                let n1 = cres->Read_1;
                assert(ahead(src_s, crate::query::stream_view(*stream), w));
                lemma_children_read(l, src_s, w, c1, depth, table_known(q1.captures), m);
                lemma_count_mod(cc0, m, n1, cc1);
                m = m + n1;
            } else {
                lemma_children_stop(l, src_s, w, c1, depth, table_known(q1.captures), m);
            }
        }
        if e_1 == PARENT_DONE {
            if child_is_immediate && (child_start_step_index as usize) < self_0.steps.contents.len() {
                let ghost q2 = *self_0;
                set_step_last(self_0, child_start_step_index as usize);
                proof {
                    assert(parse_keeps(q2, *self_0));
                    lemma_parse_keeps_trans(q0, q2, *self_0);
                }
            }
            stream_advance(stream);
            break;
        } else {
            if e_1 != 0 {
                return e_1;
            }
            child_is_immediate = false;
        }
    }
    TSQueryErrorNone
}

/// A parenthesized pattern after its `(` (see `spec_paren_pattern`), when
/// it is not `((pattern) predicate...)`: its node name (or `*`), a step for
/// it, and its children; the stream is left before its captures, with the
/// number of captures read.
#[verifier::rlimit(60)]
fn parse_node_pattern(
    self_0: &mut TSQuery,
    stream: &mut Stream,
    depth: u32,
    capture_count: &mut u32,
    is_immediate: bool,
    Ghost(q0): Ghost<TSQuery>,
    Ghost(n0): Ghost<int>,
    Ghost(p0): Ghost<int>,
    Ghost(v0): Ghost<crate::query::StreamView>,
) -> (r: (u32, Ghost<nat>))
    requires
        *old(self_0) == q0,
        query_tables_wf(q0),
        q0.predicates_by_pattern.contents@.len() > 0,
        spec_symbol_count(q0.language) <= u16::MAX,
        q0.language.field_count < u16::MAX,
        n0 == q0.steps.contents@.len(),
        stream_wf(*old(stream)),
        crate::query::view_wf(old(stream).source@, v0),
        v0.next == 40,
        v0.next_size > 0,
        crate::query::stream_view(*old(stream)) == crate::query::spec_skip(
            old(stream).source@,
            crate::query::spec_stream_advance(old(stream).source@, v0),
            false,
        ),
        ahead(old(stream).source@, crate::query::stream_view(*old(stream)), v0),
        !(old(stream).next == 40 && depth == 0),
        spec_potential(q0, *old(stream)) + 8 <= p0,
        p0 <= query_size_limit(),
    ensures
        query_tables_wf(*final(self_0)),
        parse_keeps(q0, *final(self_0)),
        final(stream).source == old(stream).source,
        final(stream).input <= final(stream).source@.len(),
        spec_query_size(*final(self_0)) <= p0,
        r.0 == TSQueryErrorNone || r.0 == TSQueryErrorSyntax || r.0 == TSQueryErrorNodeType || r.0
            == TSQueryErrorField || r.0 == TSQueryErrorCapture,
        ({
            let pr = spec_paren_pattern(
                q0.language,
                old(stream).source@,
                v0,
                depth,
                table_known(q0.captures),
            );
            &&& r.0 != TSQueryErrorNone ==> pr == PatternParse::Failed(r.0, final(stream).input as int)
            &&& r.0 == TSQueryErrorNone ==> pr == then_captures(
                old(stream).source@,
                v0,
                PatternParse::Read(crate::query::stream_view(*final(stream)), r.1@, table_known(final(self_0).captures)),
            ) && *final(capture_count) as int == (*old(capture_count) + r.1@) % 0x1_0000_0000
        }),
        r.0 == TSQueryErrorNone ==> {
            &&& stream_wf(*final(stream))
            &&& final(stream).input > v0.input
            &&& spec_potential(*final(self_0), *final(stream)) + 15 <= p0
            &&& final(self_0).steps.contents@.len() > n0
            &&& final(self_0).steps.contents@[n0].depth == (depth as u16) % 8192
            &&& final(self_0).steps.contents@[n0].is_immediate == is_immediate
            &&& final(self_0).predicates_by_pattern.contents@.len() > 0
        },
    decreases old(stream).source@.len() - v0.input, 0int,
{
    let ghost l = self_0.language;
    let ghost src_s = stream.source@;
    let ghost k0 = table_known(self_0.captures);
    let ghost a = crate::query::stream_view(*stream);
    let ghost res = spec_paren_pattern(l, src_s, v0, depth, k0);
    let src = stream.source;
        let mut symbol: u16 = 0;
        if stream.next == 42 {
            symbol = if depth > 0 {
                NAMED_WILDCARD_SYMBOL
            } else {
                WILDCARD_SYMBOL
            };
            stream_advance(stream);
        } else if stream_is_ident_start(stream) {
            let node_name = stream.input;
            stream_scan_identifier(stream);
            let length = (stream.input - node_name) as u32;
            let name = vstd::slice::slice_subrange(src, node_name, stream.input);
            symbol = ts_language_symbol_for_name(self_0.language, name, length, true);
            proof {
                assert(name@ == src_s.subrange(a.input, crate::query::stream_view(*stream).input));
            }
            if symbol == 0 {
                proof {
                    assert(res == PatternParse::Failed(TSQueryErrorNodeType, a.input)) by {
                    }
                }
                stream_reset(stream, node_name);
                return (TSQueryErrorNodeType, Ghost(0));
            }
        } else {
            proof {
                assert(res == PatternParse::Failed(TSQueryErrorSyntax, a.input)) by {
                }
            }
            return (TSQueryErrorSyntax, Ghost(0));
        }
        proof {
            assert(spec_node_name(l, src_s, a) == Some(crate::query::stream_view(*stream)));
        }
        let ghost b = crate::query::stream_view(*stream);
        array_push(&mut self_0.steps, query_step__new(symbol, depth as u16, is_immediate));
        stream_skip_whitespace(stream);
        proof {
            assert(crate::query::stream_view(*stream) == crate::query::spec_skip(src_s, b, false));
            assert(spec_node_name(l, src_s, a) == Some(b));
            assert(ahead(src_s, crate::query::stream_view(*stream), v0));
            assert(res == then_captures(
                src_s,
                v0,
                spec_pattern_children(l, src_s, crate::query::stream_view(*stream), depth_below(depth), k0),
            )) by {
                let aa = crate::query::spec_skip(src_s, crate::query::spec_stream_advance(src_s, v0), false);
                assert(aa == a);
                assert(ahead(src_s, aa, v0));
                assert(!(aa.next == 40 && depth == 0));
                assert(spec_node_name(l, src_s, aa) == Some(b));
                let cc = crate::query::spec_skip(src_s, b, false);
                assert(ahead(src_s, cc, v0));
                assert(res == then_captures(src_s, v0, spec_pattern_children(l, src_s, cc, depth_below(depth), k0)));
            }
            assert(depth.wrapping_add(1) == depth_below(depth));
            assert(after_captures(
                0,
                spec_pattern_children(l, src_s, crate::query::stream_view(*stream), depth_below(depth), k0),
            ) == spec_pattern_children(l, src_s, crate::query::stream_view(*stream), depth_below(depth), k0));
        }
        let child_start_step_index: u16 = self_0.steps.contents.len() as u16;
        let ghost before_children = crate::query::stream_view(*stream);
        let e_1 = parse_children(
            self_0,
            stream,
            depth.wrapping_add(1),
            capture_count,
            child_start_step_index,
            Ghost(q0),
            Ghost(n0),
            Ghost(p0),
            Ghost(depth),
            Ghost(is_immediate),
            Ghost(v0.input),
        );
        if e_1 != 0 {
            return (e_1, Ghost(0));
        }
        let ghost cres = spec_pattern_children(l, src_s, before_children, depth_below(depth), k0);
        (TSQueryErrorNone, Ghost(cres->Read_1))
}

/// A pattern with a field, `name: pattern` (see `spec_field_pattern`), from
/// its name: the pattern, with the field set on its first step; the stream
/// is left before its captures, with the number of captures read.
#[verifier::rlimit(60)]
fn parse_field_pattern(
    self_0: &mut TSQuery,
    stream: &mut Stream,
    depth: u32,
    capture_count: &mut u32,
    is_immediate: bool,
    Ghost(q0): Ghost<TSQuery>,
    Ghost(n0): Ghost<int>,
    Ghost(p0): Ghost<int>,
) -> (r: (u32, Ghost<nat>))
    requires
        *old(self_0) == q0,
        query_tables_wf(q0),
        q0.predicates_by_pattern.contents@.len() > 0,
        spec_symbol_count(q0.language) <= u16::MAX,
        q0.language.field_count < u16::MAX,
        n0 == q0.steps.contents@.len(),
        stream_wf(*old(stream)),
        crate::query::spec_is_ident_start(old(stream).next),
        p0 == spec_potential(q0, *old(stream)),
        p0 <= query_size_limit(),
    ensures
        query_tables_wf(*final(self_0)),
        parse_keeps(q0, *final(self_0)),
        final(stream).source == old(stream).source,
        final(stream).input <= final(stream).source@.len(),
        spec_query_size(*final(self_0)) <= p0,
        r.0 == TSQueryErrorNone || r.0 == TSQueryErrorSyntax || r.0 == TSQueryErrorNodeType || r.0
            == TSQueryErrorField || r.0 == TSQueryErrorCapture,
        ({
            let fr = spec_field_pattern(
                q0.language,
                old(stream).source@,
                crate::query::stream_view(*old(stream)),
                depth,
                table_known(q0.captures),
            );
            &&& r.0 != TSQueryErrorNone ==> fr == PatternParse::Failed(r.0, final(stream).input as int)
            &&& r.0 == TSQueryErrorNone ==> fr == then_captures(
                old(stream).source@,
                crate::query::stream_view(*old(stream)),
                PatternParse::Read(crate::query::stream_view(*final(stream)), r.1@, table_known(final(self_0).captures)),
            ) && *final(capture_count) as int == (*old(capture_count) + r.1@) % 0x1_0000_0000
        }),
        r.0 == TSQueryErrorNone ==> {
            &&& stream_wf(*final(stream))
            &&& final(stream).input > old(stream).input
            &&& spec_potential(*final(self_0), *final(stream)) + 7 <= p0
            &&& final(self_0).steps.contents@.len() > n0
            &&& final(self_0).steps.contents@[n0].depth == (depth as u16) % 8192
            &&& final(self_0).steps.contents@[n0].is_immediate == is_immediate
        },
    decreases old(stream).source@.len() - old(stream).input, 0int,
{
    let ghost l = self_0.language;
    let ghost src_s = stream.source@;
    let ghost k0 = table_known(self_0.captures);
    let ghost v0 = crate::query::stream_view(*stream);
    let ghost res = spec_field_pattern(l, src_s, v0, depth, k0);
    let src = stream.source;
        let field_name = stream.input;
        stream_scan_identifier(stream);
        let ghost fe = crate::query::stream_view(*stream);
        let length = (stream.input - field_name) as u32;
        stream_skip_whitespace(stream);
        if stream.next != 58 {
            proof {
                assert(res == PatternParse::Failed(TSQueryErrorSyntax, v0.input)) by {
                }
            }
            stream_reset(stream, field_name);
            return (TSQueryErrorSyntax, Ghost(0));
        }
        stream_advance(stream);
        stream_skip_whitespace(stream);
        let step_index = self_0.steps.contents.len();
        proof {
            assert(ahead(src_s, crate::query::stream_view(*stream), v0));
        }
        let ghost g = crate::query::stream_view(*stream);
        let e_2 = ts_query__parse_pattern(self_0, stream, depth, capture_count, is_immediate);
        proof {
            let ires = spec_pattern(l, src_s, g, depth, k0);
            assert(ires is Done ==> res == PatternParse::Failed(TSQueryErrorSyntax, g.input)) by {
            }
            assert(ires is Failed ==> res == ires) by {
            }
        }
        if e_2 == PARENT_DONE {
            return (TSQueryErrorSyntax, Ghost(0));
        }
        if e_2 != 0 {
            return (e_2, Ghost(0));
        }
        let name = vstd::slice::slice_subrange(src, field_name, field_name + length as usize);
        let field_id = ts_language_field_id_for_name(self_0.language, name, length);
        proof {
            assert(name@ == src_s.subrange(v0.input, fe.input));
            let ires = spec_pattern(l, src_s, g, depth, k0);
            assert(field_id == 0 ==> res == PatternParse::Failed(TSQueryErrorField, v0.input)) by {
            }
            assert(field_id != 0 ==> res == then_captures(src_s, v0, ires)) by {
            }
        }
        if field_id == 0 {
            stream.input = field_name;
            return (TSQueryErrorField, Ghost(0));
        }
        let ghost q2 = *self_0;
        set_step_field(self_0, step_index, field_id);
        proof {
            assert(parse_keeps(q2, *self_0));
            lemma_parse_keeps_trans(q0, q2, *self_0);
        }
    let ghost ires = spec_pattern(l, src_s, g, depth, k0);
    (TSQueryErrorNone, Ghost(ires->Read_1))
}

/// A node named by a string literal (see `spec_string_pattern`), from its
/// `"`: a step for it; the stream is left before its captures.
#[verifier::rlimit(60)]
fn parse_string_pattern(
    self_0: &mut TSQuery,
    stream: &mut Stream,
    depth: u32,
    is_immediate: bool,
    Ghost(q0): Ghost<TSQuery>,
    Ghost(n0): Ghost<int>,
    Ghost(p0): Ghost<int>,
) -> (r: u32)
    requires
        *old(self_0) == q0,
        query_tables_wf(q0),
        q0.predicates_by_pattern.contents@.len() > 0,
        spec_symbol_count(q0.language) <= u16::MAX,
        n0 == q0.steps.contents@.len(),
        stream_wf(*old(stream)),
        old(stream).next == 34,
        p0 == spec_potential(q0, *old(stream)),
        p0 <= query_size_limit(),
    ensures
        query_tables_wf(*final(self_0)),
        parse_keeps(q0, *final(self_0)),
        final(self_0).captures == q0.captures,
        final(stream).source == old(stream).source,
        final(stream).input <= final(stream).source@.len(),
        spec_query_size(*final(self_0)) <= p0,
        r == TSQueryErrorNone || r == TSQueryErrorSyntax || r == TSQueryErrorNodeType,
        ({
            let sr = spec_string_pattern(
                q0.language,
                old(stream).source@,
                crate::query::stream_view(*old(stream)),
                table_known(q0.captures),
            );
            &&& r != TSQueryErrorNone ==> sr == PatternParse::Failed(r, final(stream).input as int)
            &&& r == TSQueryErrorNone ==> sr == then_captures(
                old(stream).source@,
                crate::query::stream_view(*old(stream)),
                PatternParse::Read(crate::query::stream_view(*final(stream)), 0, table_known(q0.captures)),
            )
        }),
        r == TSQueryErrorNone ==> {
            &&& stream_wf(*final(stream))
            &&& final(stream).input > old(stream).input
            &&& spec_potential(*final(self_0), *final(stream)) + 7 <= p0
            &&& final(self_0).steps.contents@.len() > n0
            &&& final(self_0).steps.contents@[n0].depth == (depth as u16) % 8192
            &&& final(self_0).steps.contents@[n0].is_immediate == is_immediate
        },
{
    let ghost l = self_0.language;
    let ghost src_s = stream.source@;
    let ghost v0 = crate::query::stream_view(*stream);
    let ghost k0 = table_known(self_0.captures);
    let ghost res = spec_string_pattern(l, src_s, v0, k0);
    let src = stream.source;
    stream_advance(stream);
    let ghost a = crate::query::stream_view(*stream);
    let string_content = stream.input;
    while stream.next != 34
        invariant
            spec_name_close(src_s, a) == spec_name_close(src_s, crate::query::stream_view(*stream)),
            src_s == stream.source@,
            a.input == string_content,
            a == crate::query::spec_stream_advance(src_s, v0),
            l == old(self_0).language,
            res == spec_string_pattern(l, src_s, v0, k0),
            v0 == crate::query::stream_view(*old(stream)),
            k0 == table_known(old(self_0).captures),
            stream_wf(*stream),
            stream.source == old(stream).source,
            src == stream.source,
            stream.input >= string_content,
            string_content >= 1,
            string_content <= stream.source@.len(),
            *self_0 == q0,
            q0 == *old(self_0),
            query_tables_wf(*self_0),
            old(stream).next == 34,
            p0 == spec_potential(*old(self_0), *old(stream)),
            spec_potential(*self_0, *stream) + 8 * (stream.input - string_content) + 8 <= p0,
        decreases stream.source@.len() - stream.input,
    {
        let ghost w = crate::query::stream_view(*stream);
        if !stream_advance(stream) {
            proof {
                assert(spec_name_close(src_s, w) is None);
                assert(res == PatternParse::Failed(TSQueryErrorSyntax, a.input - 1)) by {
                    reveal(spec_string_pattern);
                }
            }
            stream_reset(stream, string_content - 1);
            return TSQueryErrorSyntax;
        }
    }
    let length = (stream.input - string_content) as u32;
    let name = vstd::slice::slice_subrange(src, string_content, stream.input);
    let symbol = ts_language_symbol_for_name(self_0.language, name, length, false);
    proof {
        assert(spec_name_close(src_s, a) == Some(crate::query::stream_view(*stream)));
        assert(name@ == src_s.subrange(a.input, crate::query::stream_view(*stream).input));
        assert(symbol == 0 ==> res == PatternParse::Failed(TSQueryErrorNodeType, a.input)) by {
            reveal(spec_string_pattern);
        }
        assert(symbol != 0 ==> res == then_captures(
            src_s,
            v0,
            PatternParse::Read(
                crate::query::spec_stream_advance(src_s, crate::query::stream_view(*stream)),
                0,
                k0,
            ),
        )) by {
            reveal(spec_string_pattern);
        }
    }
    if symbol == 0 {
        stream_reset(stream, string_content);
        return TSQueryErrorNodeType;
    }
    array_push(&mut self_0.steps, query_step__new(symbol, depth as u16, is_immediate));
    if stream.next != 34 {
        return TSQueryErrorSyntax;
    }
    stream_advance(stream);
    TSQueryErrorNone
}

#[verifier::rlimit(100)]
#[verifier::spinoff_prover]
pub fn ts_query__parse_pattern(
    self_0: &mut TSQuery,
    stream: &mut Stream,
    depth: u32,
    capture_count: &mut u32,
    is_immediate: bool,
) -> (r: u32)
    requires
        query_tables_wf(*old(self_0)),
        stream_wf(*old(stream)),
        old(self_0).predicates_by_pattern.contents@.len() > 0,
        spec_potential(*old(self_0), *old(stream)) <= query_size_limit(),
        spec_symbol_count(old(self_0).language) <= u16::MAX,
        old(self_0).language.field_count < u16::MAX,
    ensures
        query_tables_wf(*final(self_0)),
        parse_keeps(*old(self_0), *final(self_0)),
        final(stream).source == old(stream).source,
        final(stream).input <= final(stream).source@.len(),
        r == TSQueryErrorNone || r == PARENT_DONE ==> stream_wf(*final(stream)),
        spec_query_size(*final(self_0)) <= spec_potential(*old(self_0), *old(stream)),
        r == TSQueryErrorNone || r == TSQueryErrorSyntax || r == TSQueryErrorNodeType || r
            == TSQueryErrorField || r == TSQueryErrorCapture || r == PARENT_DONE,
        old(stream).next == 0 ==> r == TSQueryErrorSyntax && *final(self_0) == *old(self_0)
            && *final(stream) == *old(stream) && *final(capture_count) == *old(capture_count),
        (r == PARENT_DONE) == (old(stream).next == 41),
        r == PARENT_DONE ==> *final(self_0) == *old(self_0) && *final(stream) == *old(stream)
            && *final(capture_count) == *old(capture_count),
        r == TSQueryErrorNone ==> {
            &&& final(stream).input > old(stream).input
            &&& spec_potential(*final(self_0), *final(stream)) + 7 <= spec_potential(
                *old(self_0),
                *old(stream),
            )
            &&& final(self_0).steps.contents@.len() > old(self_0).steps.contents@.len()
            &&& final(self_0).steps.contents@[old(self_0).steps.contents@.len() as int].depth == (
            depth as u16) % 8192
            &&& final(self_0).steps.contents@[old(self_0).steps.contents@.len() as int].is_immediate
                == is_immediate
        },
        ({
            let res = spec_pattern(
                old(self_0).language,
                old(stream).source@,
                crate::query::stream_view(*old(stream)),
                depth,
                table_known(old(self_0).captures),
            );
            &&& (res is Done) == (r == PARENT_DONE)
            &&& (res matches PatternParse::Failed(x, p) ==> r == x && final(stream).input == p)
            &&& (res matches PatternParse::Read(e, n, k) ==> r == TSQueryErrorNone
                && crate::query::stream_view(*final(stream)) == e && *final(capture_count) as int == (
            *old(capture_count) + n) % 0x1_0000_0000 && table_known(final(self_0).captures) == k)
            &&& (res is Read) == (r == TSQueryErrorNone)
        }),
    decreases old(stream).source@.len() - old(stream).input, 1int,
{
    let ghost l = self_0.language;
    let ghost src_s = stream.source@;
    let ghost v0 = crate::query::stream_view(*stream);
    let ghost k0 = table_known(self_0.captures);
    let ghost res = spec_pattern(l, src_s, v0, depth, k0);
    let ghost cc0 = *capture_count;
    let ghost mut m: nat = 0;
    let steps_at_start: usize = self_0.steps.contents.len();
    let starting_step_index: u16 = steps_at_start as u16;
    if stream.next == 0 {
        return TSQueryErrorSyntax;
    }
    if stream.next == 41 {
        return PARENT_DONE;
    }
    let ghost p0 = spec_potential(*self_0, *stream);
    let ghost q0 = *self_0;
    let ghost n0 = self_0.steps.contents@.len() as int;
    let src = stream.source;
    if stream.next == 40 {
        stream_advance(stream);
        stream_skip_whitespace(stream);
        let ghost a = crate::query::stream_view(*stream);
        proof {
            assert(ahead(src_s, a, v0));
        }
        if stream.next == 40 && depth == 0 {
            let e = ts_query__parse_pattern(self_0, stream, 0, capture_count, is_immediate);
            if e != 0 {
                proof {
                    assert(res == spec_pattern(l, src_s, a, 0, k0)) by {
                    }
                }
                return e;
            }
            let ghost e1 = crate::query::stream_view(*stream);
            stream_skip_whitespace(stream);
            proof {
                let ires = spec_pattern(l, src_s, a, 0, k0);
                m = ires->Read_1;
                assert(ahead(src_s, crate::query::stream_view(*stream), v0));
                assert(res == after_captures(
                    m,
                    spec_pattern_predicates(
                        src_s,
                        crate::query::stream_view(*stream),
                        table_known(self_0.captures),
                    ),
                )) by {
                }
            }
            let e_p = parse_pattern_predicates(
                self_0,
                stream,
                Ghost(q0),
                Ghost(n0),
                Ghost(p0),
                Ghost(depth),
                Ghost(is_immediate),
                Ghost(old(stream).input as int),
            );
            return e_p;
        }
        let (e_1, Ghost(n1)) = parse_node_pattern(
            self_0,
            stream,
            depth,
            capture_count,
            is_immediate,
            Ghost(q0),
            Ghost(n0),
            Ghost(p0),
            Ghost(v0),
        );
        if e_1 != 0 {
            return e_1;
        }
        proof {
            m = n1;
        }
    } else if stream.next == 34 {
        let e_s = parse_string_pattern(
            self_0,
            stream,
            depth,
            is_immediate,
            Ghost(q0),
            Ghost(n0),
            Ghost(p0),
        );
        if e_s != 0 {
            return e_s;
        }
    } else if stream_is_ident_start(stream) {
        let (e_2, Ghost(n2)) = parse_field_pattern(
            self_0,
            stream,
            depth,
            capture_count,
            is_immediate,
            Ghost(q0),
            Ghost(n0),
            Ghost(p0),
        );
        if e_2 != 0 {
            return e_2;
        }
        proof {
            m = n2;
        }
    } else if stream.next == 42 {
        stream_advance(stream);
        stream_skip_whitespace(stream);
        array_push(&mut self_0.steps, query_step__new(WILDCARD_SYMBOL, depth as u16, is_immediate));
    } else {
        return TSQueryErrorSyntax;
    }
    proof {
        assert(res == then_captures(
            src_s,
            v0,
            PatternParse::Read(crate::query::stream_view(*stream), m, table_known(self_0.captures)),
        ));
    }
    let ghost w0 = crate::query::stream_view(*stream);
    stream_skip_whitespace(stream);
    proof {
        assert(ahead(src_s, crate::query::stream_view(*stream), v0));
    }
    while stream.next == 64
        invariant
            res == after_captures(
                m,
                spec_pattern_captures(src_s, crate::query::stream_view(*stream), table_known(self_0.captures)),
            ),
            *capture_count as int == (cc0 + m) % 0x1_0000_0000,
            src_s == stream.source@,
            l == self_0.language,
            res == spec_pattern(l, src_s, v0, depth, k0),
            v0 == crate::query::stream_view(*old(stream)),
            k0 == table_known(old(self_0).captures),
            cc0 == *old(capture_count),
            query_tables_wf(*self_0),
            parse_keeps(q0, *self_0),
            q0 == *old(self_0),
            old(stream).next != 0,
            old(stream).next != 41,
            n0 == q0.steps.contents@.len(),
            starting_step_index == steps_at_start as u16,
            steps_at_start == n0,
            self_0.steps.contents@.len() > n0,
            self_0.steps.contents@[n0].depth == (depth as u16) % 8192,
            self_0.steps.contents@[n0].is_immediate == is_immediate,
            self_0.predicates_by_pattern.contents@.len() > 0,
            stream_wf(*stream),
            stream.source == old(stream).source,
            src == stream.source,
            stream.input > old(stream).input,
            p0 == spec_potential(*old(self_0), *old(stream)),
            spec_potential(*self_0, *stream) + 7 <= p0,
            p0 <= query_size_limit(),
        decreases stream.source@.len() - stream.input,
    {
        let ghost w = crate::query::stream_view(*stream);
        stream_advance(stream);
        let ghost a1 = crate::query::stream_view(*stream);
        if !stream_is_ident_start(stream) {
            return TSQueryErrorSyntax;
        }
        let capture_name = stream.input;
        stream_scan_identifier(stream);
        let length = (stream.input - capture_name) as u32;
        let name = vstd::slice::slice_subrange(src, capture_name, stream.input);
        let ghost t1 = self_0.captures;
        let ghost w1 = crate::query::stream_view(*stream);
        let capture_id = symbol_table_insert_name(&mut self_0.captures, name, length);
        let ghost q2 = *self_0;
        proof {
            if spec_id_for_name(t1, name@, 0) < 0 {
                assert(self_0.captures.characters.contents@.subrange(0, t1.characters.contents@.len() as int)
                    =~= t1.characters.contents@);
            }
            lemma_insert_known(t1, self_0.captures, name@);
        }
        proof {
            assert((steps_at_start as u16) as usize <= steps_at_start) by (bit_vector);
        }
        add_step_capture(self_0, starting_step_index as usize, capture_id);
        proof {
            assert(parse_keeps(q2, *self_0));
            lemma_parse_keeps_trans(q0, q2, *self_0);
        }
        let ghost cc1 = *capture_count;
        *capture_count = capture_count.wrapping_add(1);
        stream_skip_whitespace(stream);
        proof {
            lemma_count_mod(cc0, m, 1, cc1);
            assert(name@ == src_s.subrange(a1.input, w1.input));
            assert(ahead(src_s, crate::query::stream_view(*stream), w));
            lemma_after_captures_twice(
                m,
                1,
                spec_pattern_captures(src_s, crate::query::stream_view(*stream), table_known(self_0.captures)),
            );
            m = m + 1;
        }
    }
    TSQueryErrorNone
}

/// The first symbol from `j` on, before symbol `i`, of the same kind and
/// name as `i`; `i` itself for none.
pub open spec fn spec_first_alike(l: &TSLanguage, i: int, j: int) -> int
    decreases i - j,
{
    if j >= i || j < 0 {
        i
    } else if spec_symbol_type(l, j as u16) == spec_symbol_type(l, i as u16) && spec_symbol_name(
        l,
        j as u16,
    ) == spec_symbol_name(l, i as u16) {
        j
    } else {
        spec_first_alike(l, i, j + 1)
    }
}

/// For grammars before version 11, the symbol a query reports for each
/// symbol: the first one of the same kind and name. From version 11 the
/// grammar has this map itself, and the query keeps none.
pub open spec fn spec_query_symbol_map(l: &TSLanguage) -> Seq<u16> {
    if l.version >= 11 {
        Seq::empty()
    } else {
        Seq::new(spec_symbol_count(l) as nat, |i: int| spec_first_alike(l, i, 0) as u16)
    }
}

fn bytes_equal(x: &Vec<u8>, y: &Vec<u8>) -> (r: bool)
    ensures
        r == (x@ == y@),
{
    if x.len() != y.len() {
        return false;
    }
    let mut k: usize = 0;
    while k < x.len()
        invariant
            k <= x@.len(),
            x@.len() == y@.len(),
            x@.subrange(0, k as int) == y@.subrange(0, k as int),
        decreases x@.len() - k,
    {
        if x[k] != y[k] {
            return false;
        }
        k = k + 1;
        proof {
            assert(x@.subrange(0, k as int) =~= x@.subrange(0, k - 1).push(x@[k - 1]));
            assert(y@.subrange(0, k as int) =~= y@.subrange(0, k - 1).push(y@[k - 1]));
        }
    }
    proof {
        assert(x@ =~= x@.subrange(0, x@.len() as int));
        assert(y@ =~= y@.subrange(0, y@.len() as int));
    }
    true
}

fn same_name(a: &Option<Vec<u8>>, b: &Option<Vec<u8>>) -> (r: bool)
    ensures
        r == (match (a, b) {
            (Some(x), Some(y)) => x@ == y@,
            (None, None) => true,
            _ => false,
        }),
{
    match (a, b) {
        (Some(x), Some(y)) => bytes_equal(x, y),
        (None, None) => true,
        _ => false,
    }
}

fn query_symbol_map(language: &TSLanguage) -> (m: Vec<u16>)
    requires
        spec_symbol_count(language) <= u16::MAX,
    ensures
        m@ == spec_query_symbol_map(language),
{
    let mut map: Vec<u16> = Vec::new();
    if ts_language_version(language) >= 11 {
        return map;
    }
    let count = ts_language_symbol_count(language);
    let mut i: u64 = 0;
    while i < count
        invariant
            i <= count,
            count == spec_symbol_count(language),
            count <= u16::MAX,
            language.version < 11,
            map@.len() == i,
            forall|k: int| 0 <= k < i ==> #[trigger] map@[k] == spec_first_alike(language, k, 0) as u16,
        decreases count - i,
    {
        let name = ts_language_symbol_name(language, i as u16);
        let symbol_type = ts_language_symbol_type(language, i as u16);
        let mut found: u64 = i;
        let mut j: u64 = 0;
        while j < i
            invariant_except_break
                found == i,
            invariant
                j <= i,
                i < count,
                count <= u16::MAX,
                spec_first_alike(language, i as int, 0) == spec_first_alike(language, i as int, j as int),
                symbol_type == spec_symbol_type(language, i as u16),
                match name {
                    Some(n) => spec_symbol_name(language, i as u16) == Some(n@),
                    None => spec_symbol_name(language, i as u16) is None,
                },
            ensures
                found == spec_first_alike(language, i as int, 0),
            decreases i - j,
        {
            if ts_language_symbol_type(language, j as u16) == symbol_type {
                let other = ts_language_symbol_name(language, j as u16);
                if same_name(&other, &name) {
                    found = j;
                    break;
                }
            }
            j = j + 1;
        }
        map.push(found as u16);
        i = i + 1;
    }
    proof {
        assert(map@ =~= spec_query_symbol_map(language));
    }
    map
}

/// A query is consistent: its tables are; each pattern has its start byte,
/// its predicates and its entry in the pattern map; the map points at steps,
/// and is sorted where the steps' indices fit its 16 bits; and its size is
/// within the limit.
pub open spec fn query_wf(q: TSQuery) -> bool {
    &&& query_tables_wf(q)
    &&& pattern_map_wf(q)
    &&& (q.steps.contents@.len() <= 65536 ==> pattern_map_sorted(q))
    &&& q.start_bytes_by_pattern.contents@.len() == q.predicates_by_pattern.contents@.len()
    &&& q.pattern_map.contents@.len() == q.predicates_by_pattern.contents@.len()
    &&& q.steps.contents@.len() >= 2 * q.pattern_map.contents@.len()
    &&& spec_query_size(q) <= query_size_limit()
}

/// The pattern map reads only the symbols of the steps it points at.
proof fn lemma_map_same_symbols(a: TSQuery, b: TSQuery)
    requires
        pattern_map_wf(a),
        b.pattern_map == a.pattern_map,
        b.wildcard_root_pattern_count == a.wildcard_root_pattern_count,
        b.steps.contents@.len() >= a.steps.contents@.len(),
        forall|i: int|
            0 <= i < a.steps.contents@.len() ==> (#[trigger] b.steps.contents@[i]).symbol
                == a.steps.contents@[i].symbol,
    ensures
        pattern_map_wf(b),
        pattern_map_sorted(a) ==> pattern_map_sorted(b),
{
    assert forall|i: int| 0 <= i < b.pattern_map.contents@.len() implies spec_entry_symbol(b, i)
        == spec_entry_symbol(a, i) by {
        assert(a.pattern_map.contents@[i].step_index < a.steps.contents@.len());
    }
}

/// Counting more entries as wildcard entries keeps the rest sorted.
proof fn lemma_sorted_past_more_wildcards(a: TSQuery, b: TSQuery)
    requires
        pattern_map_sorted(a),
        b.pattern_map == a.pattern_map,
        b.steps == a.steps,
        b.wildcard_root_pattern_count >= a.wildcard_root_pattern_count,
    ensures
        pattern_map_sorted(b),
{
    assert forall|i: int, j: int|
        b.wildcard_root_pattern_count <= i <= j < b.pattern_map.contents@.len() implies spec_entry_symbol(b, i)
        <= spec_entry_symbol(b, j) by {
        assert(spec_entry_symbol(b, i) == spec_entry_symbol(a, i));
        assert(spec_entry_symbol(b, j) == spec_entry_symbol(a, j));
    }
}

/// How compiling a query's source went: the byte where each pattern starts,
/// or the error that stopped it and the byte where it was found.
pub enum QueryParse {
    Compiled(Seq<u32>),
    Error(u32, int),
}

/// `r` with patterns starting at `starts` compiled before it.
pub open spec fn after_patterns(starts: Seq<u32>, r: QueryParse) -> QueryParse {
    match r {
        QueryParse::Compiled(s) => QueryParse::Compiled(starts + s),
        other => other,
    }
}

/// No capture name known: a query before its first pattern.
pub open spec fn no_capture_names() -> spec_fn(Seq<u8>) -> bool {
    |n: Seq<u8>| false
}

/// Compiling the patterns of a query's source from `v` to its end, one
/// after the other at the top (see `spec_pattern`), with the capture names
/// `known` so far: a `)` where a pattern was to start is the error
/// `PARENT_DONE`.
pub open spec fn spec_query_patterns(
    l: &TSLanguage,
    source: Seq<u8>,
    v: crate::query::StreamView,
    known: spec_fn(Seq<u8>) -> bool,
) -> QueryParse
    decreases source.len() - v.input,
{
    if !(v.input < source.len()) {
        QueryParse::Compiled(Seq::empty())
    } else {
        match spec_pattern(l, source, v, 0, known) {
            PatternParse::Read(e, n, k) => if ahead(source, e, v) {
                after_patterns(seq![v.input as u32], spec_query_patterns(l, source, e, k))
            } else {
                QueryParse::Error(TSQueryErrorSyntax, v.input)
            },
            PatternParse::Done => QueryParse::Error(PARENT_DONE, v.input),
            PatternParse::Failed(x, p) => QueryParse::Error(x, p),
        }
    }
}

/// Releases a query's storage.
pub fn ts_query_delete(self_0: &mut TSQuery)
    ensures
        spec_query_size(*final(self_0)) == 0,
        final(self_0).symbol_map@.len() == 0,
        final(self_0).language == old(self_0).language,
{
    array__delete(&mut self_0.steps);
    array__delete(&mut self_0.pattern_map);
    array__delete(&mut self_0.predicate_steps);
    array__delete(&mut self_0.predicates_by_pattern);
    array__delete(&mut self_0.start_bytes_by_pattern);
    symbol_table_delete(&mut self_0.captures);
    symbol_table_delete(&mut self_0.predicate_values);
    self_0.symbol_map = Vec::new();
}

/// Compiles the patterns in `source[..source_len]` (see
/// `ts_query__parse_pattern`), each followed by a done step, with each one's
/// start byte and its entry in the pattern map, and each step marked with
/// whether it or a step below it captures. On an error, `None`, with the
/// error in `error_type` and where the source was read to in
/// `error_offset`: the byte where the error was found. A source without
/// patterns gives an empty query and leaves both as they were. The source
/// holds at most `0x0fff_ffff` bytes: each byte can add up to eight entries
/// to the query's tables, whose counts and name ids (`i32`) must not wrap.
#[verifier::rlimit(100)]
#[verifier::spinoff_prover]
pub fn ts_query_new<'l>(
    language: &'l TSLanguage,
    source: &[u8],
    source_len: u32,
    error_offset: &mut u32,
    error_type: &mut u32,
) -> (r: Option<TSQuery<'l>>)
    requires
        source_len <= source@.len(),
        source_len <= 0x0fff_ffff,
        spec_symbol_count(language) <= u16::MAX,
        language.field_count < u16::MAX,
    ensures
        match r {
            Some(q) => {
                &&& query_wf(q)
                &&& q.language == language
                &&& q.symbol_map@ == spec_query_symbol_map(language)
                &&& forall|i: int|
                    0 <= i < q.steps.contents@.len() ==> (#[trigger] q.steps.contents@[i]).contains_captures
                        == spec_contains_captures(q.steps.contents@, i)
                &&& forall|i: int|
                    0 <= i < q.start_bytes_by_pattern.contents@.len() ==> #[trigger] q.start_bytes_by_pattern.contents@[i]
                        < source_len
                &&& q.steps.contents@.len() > 0 ==> q.steps.contents@.last().depth
                    == PATTERN_DONE_MARKER as u16
                &&& q.predicates_by_pattern.contents@.len() > 0 ==> *final(error_type) == 0
                &&& q.predicates_by_pattern.contents@.len() == 0 ==> *final(error_type) == *old(
                    error_type,
                ) && q.steps.contents@.len() == 0
                &&& *final(error_offset) == *old(error_offset)
            },
            None => {
                &&& *final(error_type) == TSQueryErrorSyntax || *final(error_type) == TSQueryErrorNodeType
                    || *final(error_type) == TSQueryErrorField || *final(error_type) == TSQueryErrorCapture
                    || *final(error_type) == PARENT_DONE
                &&& *final(error_offset) <= source_len
            },
        },
        ({
            let src = source@.subrange(0, source_len as int);
            let start = crate::query::spec_skip(
                src,
                crate::query::spec_stream_advance(
                    src,
                    crate::query::StreamView { input: 0, next: 0, next_size: 0 },
                ),
                false,
            );
            let qp = spec_query_patterns(language, src, start, no_capture_names());
            &&& (r is Some) == (qp is Compiled)
            &&& r matches Some(q) ==> qp == QueryParse::Compiled(q.start_bytes_by_pattern.contents@)
                && q.predicates_by_pattern.contents@.len() == q.start_bytes_by_pattern.contents@.len()
            &&& r is None ==> qp == QueryParse::Error(*final(error_type), *final(error_offset) as int)
        }),
{
    let symbol_map = query_symbol_map(language);
    let mut self_0 = TSQuery {
        captures: symbol_table_new(),
        predicate_values: symbol_table_new(),
        steps: VoidArray::new(),
        pattern_map: VoidArray::new(),
        predicate_steps: VoidArray::new(),
        predicates_by_pattern: VoidArray::new(),
        start_bytes_by_pattern: VoidArray::new(),
        language,
        max_capture_count: 0,
        wildcard_root_pattern_count: 0,
        symbol_map,
    };
    let mut stream = stream_new(source, source_len);
    stream_skip_whitespace(&mut stream);
    let ghost src_s = stream.source@;
    let ghost qp = spec_query_patterns(language, src_s, crate::query::stream_view(stream), no_capture_names());
    proof {
        assert(table_known(self_0.captures) =~= no_capture_names());
    }
    while stream.input < stream.source.len()
        invariant
            qp == after_patterns(
                self_0.start_bytes_by_pattern.contents@,
                spec_query_patterns(language, src_s, crate::query::stream_view(stream), table_known(self_0.captures)),
            ),
            src_s == stream.source@,
            src_s == source@.subrange(0, source_len as int),
            qp == spec_query_patterns(
                language,
                src_s,
                crate::query::spec_skip(
                    src_s,
                    crate::query::spec_stream_advance(
                        src_s,
                        crate::query::StreamView { input: 0, next: 0, next_size: 0 },
                    ),
                    false,
                ),
                no_capture_names(),
            ),
            query_wf(self_0),
            self_0.language == language,
            self_0.symbol_map@ == spec_query_symbol_map(language),
            spec_symbol_count(language) <= u16::MAX,
            language.field_count < u16::MAX,
            stream_wf(stream),
            stream.source@.len() == source_len,
            spec_potential(self_0, stream) + 2 <= query_size_limit(),
            forall|i: int|
                0 <= i < self_0.start_bytes_by_pattern.contents@.len() ==> #[trigger] self_0.start_bytes_by_pattern.contents@[i]
                    < source_len,
            self_0.steps.contents@.len() > 0 ==> self_0.steps.contents@.last().depth
                == PATTERN_DONE_MARKER as u16,
            self_0.predicates_by_pattern.contents@.len() > 0 ==> *error_type == 0,
            self_0.predicates_by_pattern.contents@.len() == 0 ==> *error_type == *old(error_type)
                && self_0.steps.contents@.len() == 0,
            *error_offset == *old(error_offset),
        decreases stream.source@.len() - stream.input,
    {
        let ghost q0 = self_0;
        let start_step_index = self_0.steps.contents.len() as u32;
        let mut capture_count: u32 = 0;
        array_push(&mut self_0.start_bytes_by_pattern, stream.input as u32);
        let slice = Slice { offset: self_0.predicate_steps.contents.len() as u32, length: 0 };
        array_push(&mut self_0.predicates_by_pattern, slice);
        let ghost q1 = self_0;
        proof {
            let q = self_0;
            assert forall|i: int| 0 <= i < q.predicates_by_pattern.contents@.len() implies (
            #[trigger] q.predicates_by_pattern.contents@[i]).offset
                + q.predicates_by_pattern.contents@[i].length <= q.predicate_steps.contents@.len() by {
                if i < q0.predicates_by_pattern.contents@.len() {
                    assert(q.predicates_by_pattern.contents@[i] == q0.predicates_by_pattern.contents@[i]);
                }
            }
        }
        let ghost vq = crate::query::stream_view(stream);
        let ghost kq = table_known(self_0.captures);
        let ghost cq = self_0.start_bytes_by_pattern.contents@;
        let e = ts_query__parse_pattern(&mut self_0, &mut stream, 0, &mut capture_count, false);
        *error_type = e;
        proof {
            let pr = spec_pattern(language, src_s, vq, 0, kq);
            assert(cq == q0.start_bytes_by_pattern.contents@.push(vq.input as u32));
            let rest = spec_query_patterns(language, src_s, crate::query::stream_view(stream), table_known(self_0.captures));
            if e == 0 {
                if let QueryParse::Compiled(t) = rest {
                    assert(q0.start_bytes_by_pattern.contents@ + (seq![vq.input as u32] + t) =~= cq + t);
                }
            }
            if e == 0 {
                assert(ahead(src_s, crate::query::stream_view(stream), vq));
                assert(spec_query_patterns(language, src_s, vq, kq) == after_patterns(
                    seq![vq.input as u32],
                    spec_query_patterns(language, src_s, crate::query::stream_view(stream), table_known(self_0.captures)),
                ));
            }
        }
        let ghost q2 = self_0;
        array_push(&mut self_0.steps, query_step__new(0, PATTERN_DONE_MARKER as u16, false));
        if e != 0 {
            *error_offset = stream.input as u32;
            ts_query_delete(&mut self_0);
            return None;
        }
        proof {
            lemma_map_same_symbols(q1, self_0);
        }
        let symbol = self_0.steps.contents[start_step_index as usize].symbol;
        let ghost q3 = self_0;
        ts_query__pattern_map_insert(&mut self_0, symbol, start_step_index);
        let ghost q4 = self_0;
        if symbol == WILDCARD_SYMBOL {
            self_0.wildcard_root_pattern_count = self_0.wildcard_root_pattern_count.wrapping_add(1);
        }
        if capture_count > self_0.max_capture_count as u32 {
            self_0.max_capture_count = capture_count as u16;
        }
        proof {
            let q = self_0;
            assert(q.pattern_map.contents@.len() == q3.pattern_map.contents@.len() + 1);
            assert(query_tables_wf(q3));
            assert(query_tables_wf(q));
            assert(pattern_map_wf(q));
            assert(q.start_bytes_by_pattern.contents@.len() == q.predicates_by_pattern.contents@.len());
            assert(q.pattern_map.contents@.len() == q.predicates_by_pattern.contents@.len());
            assert(q.steps.contents@.len() >= 2 * q.pattern_map.contents@.len());
            assert(spec_query_size(q) <= query_size_limit());
            if q.steps.contents@.len() <= 65536 {
                assert(q0.steps.contents@.len() <= 65536);
                assert(pattern_map_sorted(q0));
                lemma_map_same_symbols(q0, q1);
                assert(pattern_map_sorted(q3));
                assert(start_step_index <= u16::MAX);
                assert(q3.steps.contents@[start_step_index as int].symbol == symbol);
                assert(pattern_map_sorted(q4));
                lemma_sorted_past_more_wildcards(q4, q);
            }
        }
    }
    let ghost before = self_0;
    ts_query__finalize_steps(&mut self_0);
    proof {
        let q = self_0;
        lemma_map_same_symbols(before, q);
        assert forall|i: int| 0 <= i < q.steps.contents@.len() implies (
        #[trigger] q.steps.contents@[i]).contains_captures == spec_contains_captures(
            q.steps.contents@,
            i,
        ) by {
            crate::query::lemma_captures_below_agree(q.steps.contents@, before.steps.contents@, i, i + 1);
        }
    }
    Some(self_0)
}

} // verus!
