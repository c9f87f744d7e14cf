//! A scan within the bounds that its filters give finds what the scan of
//! the whole prefix finds.
//!
//! The bounds come from the filters of the scan. A row on which every
//! filter holds lies within them; so a scan that looks only at the rows
//! within the bounds, and then filters, misses nothing.

use vstd::prelude::*;

use crate::bounds::{bound_for, bounds_upto, lower_bounds, mirrored, term_bound, upper_bounds};
use crate::bytecode::{code_holds, compile, lemma_compile_correct};
use crate::equivalences::{lemma_pass_is_select, passing};
use crate::error::EvalError;
use crate::expr::{args_values, holds, op_value, resolved, term_value, Op, Term};
use crate::plan::{compile_all, Codes};
use crate::rows::{expand, lemma_select_agree, lemma_select_contains, select};
use crate::semantics::{chosen_bounds, found_rows, pass_step, passes, passes_from, ScanKind};
use crate::sorted::{lemma_prefix_convex, lemma_prefix_le};
use crate::store::{bounded_range, with_prefix, within};
use crate::symbol::{lemma_resolve, resolve, Name};
use crate::tuple::{has_width, starts_with};
use crate::value::{
    compare_rows_from, compare_values, lemma_compare_equal, lemma_compare_flip, row_le, row_lt,
    Comparison, Row, Value,
};

verus! {

/// `Null` is the least value and `Bot` the greatest.
pub proof fn lemma_extremes(v: Value)
    ensures
        compare_values(Value::Null, v) != Comparison::Greater,
        compare_values(v, Value::Bot) != Comparison::Greater,
{
}

/// Every filter of the list is resolved against `names`.
pub open spec fn resolved_against(filters: Seq<Term>, names: Seq<Name>) -> bool {
    forall|i: int| 0 <= i < filters.len() ==> #[trigger] filters[i] == resolved(filters[i], names)
}

/// A name that stands once among names resolves to its place.
pub proof fn lemma_resolve_distinct(names: Seq<Name>, i: int)
    requires
        names.no_duplicates(),
        0 <= i < names.len(),
    ensures
        resolve(names, names[i]) == Some(i),
{
    lemma_resolve(names, names[i]);
    assert(names.contains(names[i]));
}

/// A comparison of a binding with a constant that holds on a row bounds
/// the value of the binding as the bounds of the comparison say.
pub proof fn lemma_bound_for(op: Op, x: Value, c: Value)
    requires
        holds(op, compare_values(x, c)),
    ensures
        compare_values(bound_for(op, c).0, x) != Comparison::Greater,
        compare_values(x, bound_for(op, c).1) != Comparison::Greater,
{
    lemma_compare_flip(x, c);
    lemma_compare_equal(x, c);
    lemma_compare_equal(c, x);
    lemma_extremes(x);
}

/// A comparison of a constant with a binding that holds on a row bounds
/// the value of the binding as the bounds of the mirrored comparison say.
pub proof fn lemma_bound_for_mirrored(op: Op, c: Value, x: Value)
    requires
        holds(op, compare_values(c, x)),
    ensures
        compare_values(bound_for(mirrored(op), c).0, x) != Comparison::Greater,
        compare_values(x, bound_for(mirrored(op), c).1) != Comparison::Greater,
{
    lemma_compare_flip(c, x);
    lemma_compare_equal(x, c);
    lemma_compare_equal(c, x);
    lemma_extremes(x);
}

/// The values of two arguments.
pub proof fn lemma_two_args(args: Seq<Term>, row: Row)
    requires
        args.len() == 2,
    ensures
        args_values(args, row, 2) == match term_value(args[0], row) {
            Ok(a) => match term_value(args[1], row) {
                Ok(b) => Ok::<Seq<Value>, EvalError>(seq![a, b]),
                Err(e) => Err(e),
            },
            Err(e) => Err(e),
        },
{
    assert(args_values(args, row, 0) == Ok::<Seq<Value>, EvalError>(Seq::empty()));
    assert(args_values(args, row, 1) == match term_value(args[0], row) {
        Ok(a) => Ok::<Seq<Value>, EvalError>(Seq::<Value>::empty().push(a)),
        Err(e) => Err(e),
    });
    if term_value(args[0], row) is Ok && term_value(args[1], row) is Ok {
        let a = term_value(args[0], row)->Ok_0;
        let b = term_value(args[1], row)->Ok_0;
        assert(Seq::<Value>::empty().push(a).push(b) =~= seq![a, b]);
    }
}

/// A filter that holds on a row bounds the column that the target
/// resolves to as the bounds of the filter say.
pub proof fn lemma_term_bound_sound(t: Term, target: Name, row: Row, names: Seq<Name>, p: int)
    requires
        t == resolved(t, names),
        resolve(names, target) == Some(p),
        term_value(t, row) == Ok::<Value, EvalError>(Value::Bool(true)),
    ensures
        0 <= p < row.len() ==> compare_values(term_bound(t, target).0, row[p])
            != Comparison::Greater && compare_values(row[p], term_bound(t, target).1)
            != Comparison::Greater,
{
    if 0 <= p < row.len() {
        lemma_extremes(row[p]);
        if t is Apply && t->Apply_args.len() == 2 {
            let args = t->Apply_args;
            let op = t->Apply_op;
            let a = args[0];
            let b = args[1];
            lemma_two_args(args, row);
            let ra = resolved(t, names)->Apply_args;
            assert(ra[0] == resolved(a, names));
            assert(ra[1] == resolved(b, names));
            if a is Binding && b is Const && a->Binding_var == target {
                assert(a->Binding_pos == Some(p));
                assert(term_value(a, row) == Ok::<Value, EvalError>(row[p]));
                let vs = seq![row[p], b->Const_val];
                assert(op_value(op, vs, t->Apply_span) == Ok::<Value, EvalError>(
                    Value::Bool(true),
                ));
                if crate::expr::is_comparison(op) {
                    lemma_bound_for(op, row[p], b->Const_val);
                }
            } else if a is Const && b is Binding && b->Binding_var == target {
                assert(b->Binding_pos == Some(p));
                assert(term_value(b, row) == Ok::<Value, EvalError>(row[p]));
                let vs = seq![a->Const_val, row[p]];
                assert(op_value(op, vs, t->Apply_span) == Ok::<Value, EvalError>(
                    Value::Bool(true),
                ));
                if crate::expr::is_comparison(op) {
                    lemma_bound_for_mirrored(op, a->Const_val, row[p]);
                }
            }
        }
    }
}

/// Filters that all hold on a row bound the column that the target
/// resolves to as their common bounds say.
pub proof fn lemma_bounds_sound(
    filters: Seq<Term>,
    target: Name,
    row: Row,
    names: Seq<Name>,
    p: int,
    n: int,
)
    requires
        resolved_against(filters, names),
        resolve(names, target) == Some(p),
        0 <= p < row.len(),
        0 <= n <= filters.len(),
        forall|i: int|
            0 <= i < n ==> term_value(#[trigger] filters[i], row) == Ok::<Value, EvalError>(
                Value::Bool(true),
            ),
    ensures
        compare_values(bounds_upto(filters, target, n).0, row[p]) != Comparison::Greater,
        compare_values(row[p], bounds_upto(filters, target, n).1) != Comparison::Greater,
    decreases n,
{
    lemma_extremes(row[p]);
    if n > 0 {
        lemma_bounds_sound(filters, target, row, names, p, n - 1);
        lemma_term_bound_sound(filters[n - 1], target, row, names, p);
    }
}

/// Where every predicate holds from a position on, each of them holds.
pub proof fn lemma_passes_all(codes: Codes, row: Row, k: int)
    requires
        0 <= k,
        passes_from(codes, row, k) == Ok::<bool, EvalError>(true),
    ensures
        forall|i: int|
            k <= i < codes.len() ==> code_holds((#[trigger] codes[i]).0, row, codes[i].1) == Ok::<
                bool,
                EvalError,
            >(true),
    decreases codes.len() - k,
{
    if k < codes.len() {
        lemma_passes_all(codes, row, k + 1);
    }
}

/// A row on which the compiled filters pass is a row on which every
/// filter has the value `true`.
pub proof fn lemma_passing_terms(filters: Seq<Term>, row: Row)
    requires
        passes(compile_all(filters), row) == Ok::<bool, EvalError>(true),
    ensures
        forall|i: int|
            0 <= i < filters.len() ==> term_value(#[trigger] filters[i], row) == Ok::<
                Value,
                EvalError,
            >(Value::Bool(true)),
{
    let codes = compile_all(filters);
    lemma_passes_all(codes, row, 0);
    assert forall|i: int| 0 <= i < filters.len() implies term_value(
        #[trigger] filters[i],
        row,
    ) == Ok::<Value, EvalError>(Value::Bool(true)) by {
        assert(codes[i].0 == compile(filters[i]));
        assert(code_holds(codes[i].0, row, codes[i].1) == Ok::<bool, EvalError>(true));
        lemma_compile_correct(filters[i], row);
    }
}

/// Two rows of one length of which the first is nowhere greater: the
/// first is not greater.
pub proof fn lemma_pointwise_le(a: Row, b: Row, i: int)
    requires
        a.len() == b.len(),
        0 <= i <= a.len(),
        forall|j: int|
            i <= j < a.len() ==> compare_values(#[trigger] a[j], b[j]) != Comparison::Greater,
    ensures
        compare_rows_from(a, b, i) != Comparison::Greater,
    decreases a.len() - i,
{
    if i < a.len() {
        assert(compare_values(a[i], b[i]) != Comparison::Greater);
        lemma_pointwise_le(a, b, i + 1);
    }
}

/// A row that is nowhere greater than another of its length is less than
/// that other with one more value.
pub proof fn lemma_pointwise_lt_longer(a: Row, b: Row, x: Value, i: int)
    requires
        a.len() == b.len(),
        0 <= i <= a.len(),
        forall|j: int|
            i <= j < a.len() ==> compare_values(#[trigger] a[j], b[j]) != Comparison::Greater,
    ensures
        compare_rows_from(a, b.push(x), i) == Comparison::Less,
    decreases a.len() - i,
{
    if i < a.len() {
        assert(compare_values(a[i], b[i]) != Comparison::Greater);
        assert(b.push(x)[i] == b[i]);
        lemma_pointwise_lt_longer(a, b, x, i + 1);
    }
}

/// A row that begins with the prefix and on which every filter holds lies
/// within the bounds that the filters give for the columns after the
/// prefix.
pub proof fn lemma_row_within_bounds(
    filters: Seq<Term>,
    names: Seq<Name>,
    prefix: Row,
    r: Row,
)
    requires
        names.no_duplicates(),
        resolved_against(filters, names),
        prefix.len() <= names.len(),
        r.len() == names.len(),
        starts_with(r, prefix),
        passes(compile_all(filters), r) == Ok::<bool, EvalError>(true),
    ensures
        ({
            let k = prefix.len() as int;
            let other = names.subrange(k, names.len() as int);
            let lo = lower_bounds(filters, other);
            let hi = upper_bounds(filters, other);
            &&& row_le(prefix + lo, r)
            &&& row_le(r, prefix + hi)
            &&& row_lt(r, (prefix + hi).push(Value::Bot))
        }),
{
    let k = prefix.len() as int;
    let other = names.subrange(k, names.len() as int);
    let lo = lower_bounds(filters, other);
    let hi = upper_bounds(filters, other);
    lemma_passing_terms(filters, r);
    let a = prefix + lo;
    let b = prefix + hi;
    assert forall|j: int| 0 <= j < r.len() implies compare_values(a[j], r[j])
        != Comparison::Greater && compare_values(r[j], b[j]) != Comparison::Greater by {
        if j < k {
            lemma_compare_equal(a[j], r[j]);
            lemma_compare_equal(r[j], b[j]);
        } else {
            let target = other[j - k];
            assert(target == names[j]);
            lemma_resolve_distinct(names, j);
            lemma_bounds_sound(filters, target, r, names, j, filters.len() as int);
            assert(lo[j - k] == bounds_upto(filters, target, filters.len() as int).0);
            assert(hi[j - k] == bounds_upto(filters, target, filters.len() as int).1);
        }
    }
    assert forall|j: int| 0 <= j < a.len() implies compare_values(#[trigger] a[j], r[j])
        != Comparison::Greater by {}
    assert forall|j: int| 0 <= j < r.len() implies compare_values(#[trigger] r[j], b[j])
        != Comparison::Greater by {}
    lemma_pointwise_le(a, r, 0);
    lemma_pointwise_le(r, b, 0);
    lemma_pointwise_lt_longer(r, b, Value::Bot, 0);
}

/// A row between a prefix followed by lower bounds and the prefix followed
/// by upper bounds begins with the prefix.
pub proof fn lemma_within_has_prefix(prefix: Row, lo: Row, hi: Row, r: Row)
    requires
        row_le(prefix + lo, r),
        row_le(r, prefix + hi) || row_lt(r, (prefix + hi).push(Value::Bot)),
    ensures
        starts_with(r, prefix),
{
    lemma_prefix_le(prefix + lo, prefix);
    crate::value::lemma_compare_rows_trans(prefix, prefix + lo, r);
    if row_le(r, prefix + hi) {
        lemma_prefix_convex(prefix, r, prefix + hi);
    } else {
        lemma_prefix_convex(prefix, r, (prefix + hi).push(Value::Bot));
    }
}

/// Selecting twice is selecting by both conditions.
pub proof fn lemma_select_twice(rows: Seq<Row>, a: spec_fn(Row) -> bool, b: spec_fn(Row) -> bool)
    ensures
        select(select(rows, a), b) == select(rows, |r: Row| a(r) && b(r)),
    decreases rows.len(),
{
    let both = |r: Row| a(r) && b(r);
    if rows.len() > 0 {
        lemma_select_twice(rows.drop_last(), a, b);
        let x = rows.last();
        let init = select(rows.drop_last(), a);
        if a(x) {
            assert(init.push(x).drop_last() =~= init);
            assert(init.push(x).last() == x);
        }
    } else {
        assert(select(rows, a) =~= Seq::<Row>::empty());
        assert(select(rows, both) =~= Seq::<Row>::empty());
    }
}

/// A scan that succeeds has tried its predicates on every row without a
/// failure.
pub proof fn lemma_scan_tried(rows: Seq<Row>, codes: Codes)
    requires
        expand(rows, pass_step(codes)) is Ok,
    ensures
        forall|i: int| 0 <= i < rows.len() ==> passes(codes, #[trigger] rows[i]) is Ok,
    decreases rows.len(),
{
    if rows.len() > 0 {
        lemma_scan_tried(rows.drop_last(), codes);
        assert forall|i: int| 0 <= i < rows.len() implies passes(codes, #[trigger] rows[i]) is Ok by {
            if i < rows.len() - 1 {
                assert(rows.drop_last()[i] == rows[i]);
            } else {
                assert(rows[i] == rows.last());
            }
        }
    }
}

/// A scan of rows on each of which the predicates can be tried succeeds.
pub proof fn lemma_scan_succeeds(rows: Seq<Row>, codes: Codes)
    requires
        forall|i: int| 0 <= i < rows.len() ==> passes(codes, #[trigger] rows[i]) is Ok,
    ensures
        expand(rows, pass_step(codes)) is Ok,
    decreases rows.len(),
{
    if rows.len() > 0 {
        assert forall|i: int| 0 <= i < rows.len() - 1 implies passes(
            codes,
            #[trigger] rows.drop_last()[i],
        ) is Ok by {
            assert(rows.drop_last()[i] == rows[i]);
        }
        lemma_scan_succeeds(rows.drop_last(), codes);
        assert(rows[rows.len() - 1] == rows.last());
    }
}

/// A scan of the rows within a range that lies under a prefix, where the
/// rows under the prefix that pass lie within the range, finds what the
/// scan of all rows under the prefix finds.
pub proof fn lemma_narrowed_scan(
    source: Seq<Row>,
    codes: Codes,
    under: spec_fn(Row) -> bool,
    range: spec_fn(Row) -> bool,
)
    requires
        forall|i: int| 0 <= i < source.len() && range(#[trigger] source[i]) ==> under(source[i]),
        forall|i: int|
            0 <= i < source.len() && under(#[trigger] source[i]) && passing(codes)(source[i])
                ==> range(source[i]),
        expand(select(source, under), pass_step(codes)) is Ok,
    ensures
        expand(select(source, range), pass_step(codes)) == expand(
            select(source, under),
            pass_step(codes),
        ),
{
    let wide = select(source, under);
    let narrow = select(source, range);
    let pass = passing(codes);
    lemma_scan_tried(wide, codes);
    assert forall|i: int| 0 <= i < narrow.len() implies passes(codes, #[trigger] narrow[i]) is Ok by {
        lemma_select_contains(source, range, narrow[i]);
        assert(narrow.contains(narrow[i]));
        lemma_select_contains(source, under, narrow[i]);
        let j = choose|j: int| 0 <= j < source.len() && source[j] == narrow[i];
        assert(under(source[j]));
        assert(wide.contains(narrow[i]));
        let w = choose|w: int| 0 <= w < wide.len() && wide[w] == narrow[i];
        assert(passes(codes, wide[w]) is Ok);
    }
    lemma_scan_succeeds(narrow, codes);
    lemma_pass_is_select(wide, codes);
    lemma_pass_is_select(narrow, codes);
    lemma_select_twice(source, under, pass);
    lemma_select_twice(source, range, pass);
    lemma_select_agree(source, |r: Row| under(r) && pass(r), |r: Row| range(r) && pass(r));
}

/// The bounded scan of a prefix join finds what the scan of the whole
/// prefix finds, where the latter succeeds: for an in-memory store and for
/// a stored relation, with filters that are resolved against the bindings
/// of the scan and compiled, bindings that are distinct, and rows as wide
/// as the bindings are many.
pub proof fn lemma_bounded_scan_sound(
    kind: ScanKind,
    source: Seq<Row>,
    filters: Seq<Term>,
    names: Seq<Name>,
    prefix: Row,
)
    requires
        kind is Temp || kind is Stored,
        names.no_duplicates(),
        resolved_against(filters, names),
        prefix.len() <= names.len(),
        has_width(source, names.len() as int),
        found_rows(kind, source, filters, compile_all(filters), None, prefix) is Ok,
    ensures
        found_rows(
            kind,
            source,
            filters,
            compile_all(filters),
            chosen_bounds(filters, names, prefix.len() as int),
            prefix,
        ) == found_rows(kind, source, filters, compile_all(filters), None, prefix),
{
    let codes = compile_all(filters);
    let k = prefix.len() as int;
    let bounds = chosen_bounds(filters, names, k);
    if bounds is Some {
        let other = names.subrange(k, names.len() as int);
        let lo = lower_bounds(filters, other);
        let hi = upper_bounds(filters, other);
        assert(bounds == Some((lo, hi)));
        let under = with_prefix(prefix);
        let range = if kind is Temp {
            within(prefix + lo, prefix + hi, true)
        } else {
            bounded_range(prefix, lo, hi)
        };
        assert forall|i: int| 0 <= i < source.len() && range(#[trigger] source[i]) implies under(
            source[i],
        ) by {
            lemma_within_has_prefix(prefix, lo, hi, source[i]);
        }
        assert forall|i: int|
            0 <= i < source.len() && under(#[trigger] source[i]) && passing(codes)(
                source[i],
            ) implies range(source[i]) by {
            lemma_row_within_bounds(filters, names, prefix, source[i]);
        }
        lemma_narrowed_scan(source, codes, under, range);
    }
}

} // verus!
