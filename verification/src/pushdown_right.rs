//! A filter that mentions only bindings of the right side of a join can be
//! applied to the right side before the join instead of to the rows of the
//! join: where both ways succeed, they yield the same set of rows.

use vstd::prelude::*;

use crate::bytecode::compile;
use crate::equivalences::{lemma_filter_rows, lemma_pass_is_select, lemma_passes_concat, passing};
use crate::error::EvalError;
use crate::expr::{args_values, free_vars, lemma_resolved_span, resolved, term_value, Term};
use crate::join_members::{lemma_join_members, paired_with};
use crate::plan::{compile_all, retain, Codes, Plan};
use crate::pushdown_left::{
    lemma_args_free_vars, lemma_join_rows, lemma_one_code, one_code, plain_filter, plain_join,
};
use crate::rows::{expand, lemma_select_contains, select};
use crate::semantics::{all_resolve, filter_step, matching, passes, positions, scan_rows};
use crate::store::{EpochStore, SessionTx};
use crate::strategies::scan_source;
use crate::symbol::{lemma_resolve, resolve, Name, SourceSpan};
use crate::tuple::{eliminate_indices, in_range, lemma_eliminate_nothing};
use crate::unit_join::{joins_whole_groups, lemma_scan_is_expand, ready_scan};
use crate::value::Row;
use crate::widths::{lemma_retain_nothing, lemma_rows_width};

verus! {

/// A name of the second of two lists resolves in both together to its
/// place in the second, after the first.
pub proof fn lemma_resolve_after(a: Seq<Name>, b: Seq<Name>, v: Name)
    requires
        b.contains(v),
    ensures
        resolve(b, v) is Some,
        resolve(a + b, v) == Some(a.len() + resolve(b, v)->Some_0),
    decreases b.len(),
{
    assert((a + b).drop_last() =~= a + b.drop_last());
    assert((a + b).last() == b.last());
    if b.last() != v {
        let k = choose|k: int| 0 <= k < b.len() && b[k] == v;
        assert(b[b.len() - 1] == b.last());
        assert(b.drop_last()[k] == v);
        lemma_resolve_after(a, b.drop_last(), v);
    }
}

/// A term that mentions only names of the second of two lists has, on a
/// row of the first list followed by a row of the second, the value that
/// it has on the row of the second.
pub proof fn lemma_value_on_right(t: Term, a: Seq<Name>, b: Seq<Name>, l: Row, r: Row)
    requires
        l.len() == a.len(),
        forall|v: Name| free_vars(t).contains(v) ==> b.contains(v),
    ensures
        term_value(resolved(t, a + b), l + r) == term_value(resolved(t, b), r),
    decreases t, 1int, 0int,
{
    match t {
        Term::Binding { var, pos, span } => {
            assert(free_vars(t).contains(var));
            lemma_resolve_after(a, b, var);
            lemma_resolve(b, var);
        },
        Term::Const { .. } => {},
        Term::Apply { op, args, span } => {
            lemma_values_on_right(t, a, b, l, r, args.len() as int);
        },
    }
}

/// The same for the first `n` arguments of an application.
pub proof fn lemma_values_on_right(t: Term, a: Seq<Name>, b: Seq<Name>, l: Row, r: Row, n: int)
    requires
        t is Apply,
        l.len() == a.len(),
        forall|v: Name| free_vars(t).contains(v) ==> b.contains(v),
        0 <= n <= t->Apply_args.len(),
    ensures
        args_values(resolved(t, a + b)->Apply_args, l + r, n) == args_values(
            resolved(t, b)->Apply_args,
            r,
            n,
        ),
    decreases t, 0int, n,
{
    if n > 0 {
        let args = t->Apply_args;
        lemma_values_on_right(t, a, b, l, r, n - 1);
        lemma_args_free_vars(args, args.len() as int, n - 1);
        lemma_value_on_right(args[n - 1], a, b, l, r);
    }
}

/// Whether such a filter passes on the two rows together goes by the row
/// of the second list.
pub proof fn lemma_holds_on_right(t: Term, a: Seq<Name>, b: Seq<Name>, l: Row, r: Row)
    requires
        l.len() == a.len(),
        forall|v: Name| free_vars(t).contains(v) ==> b.contains(v),
    ensures
        passes(one_code(resolved(t, a + b)), l + r) == passes(one_code(resolved(t, b)), r),
{
    lemma_value_on_right(t, a, b, l, r);
    lemma_one_code(resolved(t, a + b), l + r);
    lemma_one_code(resolved(t, b), r);
    lemma_resolved_span(t, a + b);
    lemma_resolved_span(t, b);
}

/// Resolving a term that is resolved against the same names changes
/// nothing.
pub proof fn lemma_resolved_twice(t: Term, names: Seq<Name>)
    ensures
        resolved(resolved(t, names), names) == resolved(t, names),
    decreases t,
{
    match t {
        Term::Apply { op, args, span } => {
            let once = resolved(t, names);
            let x = resolved(once, names)->Apply_args;
            let y = once->Apply_args;
            assert forall|i: int| 0 <= i < args.len() implies x[i] == y[i] by {
                lemma_resolved_twice(args[i], names);
            }
            assert(x =~= y);
        },
        _ => {},
    }
}

/// The right side of a join with a filter pushed into it: among the
/// filters of a scan, and above any other plan.
pub open spec fn pushed_into(right: Plan, t: Term) -> Plan {
    let tr = resolved(t, right.bindings_after());
    match right {
        Plan::TempStore { bindings, storage_key, filters, codes, span } => Plan::TempStore {
            bindings,
            storage_key,
            filters: filters.push(tr),
            codes: codes.push((compile(tr), tr.span())),
            span,
        },
        Plan::Stored { bindings, storage, filters, codes, span } => Plan::Stored {
            bindings,
            storage,
            filters: filters.push(tr),
            codes: codes.push((compile(tr), tr.span())),
            span,
        },
        Plan::StoredWithValidity { bindings, storage, filters, codes, valid_at, span } => {
            Plan::StoredWithValidity {
                bindings,
                storage,
                filters: filters.push(tr),
                codes: codes.push((compile(tr), tr.span())),
                valid_at,
                span,
            }
        },
        _ => plain_filter(right, t),
    }
}

/// A plan with a filter pushed into it fits its sources as the plan does,
/// yields rows of the same bindings, and is a scan that is ready where the
/// plan is one.
pub proof fn lemma_pushed_fits(
    right: Plan,
    t: Term,
    tx: &SessionTx,
    stores: Map<u64, EpochStore>,
)
    requires
        right.wf(tx, stores),
        ready_scan(right),
    ensures
        pushed_into(right, t).wf(tx, stores),
        pushed_into(right, t).bindings_after() == right.bindings_after(),
        ready_scan(pushed_into(right, t)),
        pushed_into(right, t) is Fixed ==> right is Fixed,
        pushed_into(right, t).is_scan() == right.is_scan(),
{
    let names = right.bindings_after();
    let tr = resolved(t, names);
    let pushed = pushed_into(right, t);
    lemma_retain_nothing(names);
    lemma_resolved_twice(t, names);
    match right {
        Plan::TempStore { bindings, filters, codes, .. } => {
            assert(codes.push((compile(tr), tr.span())) =~= compile_all(filters.push(tr)));
            assert(pushed.bindings_before() == bindings);
            assert(names == bindings);
        },
        Plan::Stored { bindings, filters, codes, .. } => {
            assert(codes.push((compile(tr), tr.span())) =~= compile_all(filters.push(tr)));
            assert(pushed.bindings_before() == bindings);
            assert(names == bindings);
        },
        Plan::StoredWithValidity { bindings, filters, codes, .. } => {
            assert(codes.push((compile(tr), tr.span())) =~= compile_all(filters.push(tr)));
            assert(pushed.bindings_before() == bindings);
        },
        _ => {
            assert(pushed.bindings_before() == names);
            assert(names.len() <= right.bindings_before().len()) by {
                lemma_retain_shorter(right);
            }
        },
    }
}

/// A plan yields no more bindings than it has.
pub proof fn lemma_retain_shorter(p: Plan)
    ensures
        p.bindings_after().len() <= p.bindings_before().len(),
{
    match p.eliminate_set() {
        Some(gone) => lemma_retained(p.bindings_before(), gone),
        None => {},
    }
}

/// The names retained are no more than the names.
pub proof fn lemma_retained(names: Seq<Name>, gone: Set<Name>)
    ensures
        retain(names, gone).len() <= names.len(),
    decreases names.len(),
{
    if names.len() > 0 {
        lemma_retained(names.drop_last(), gone);
    }
}

/// A filter that drops no column and succeeds yields the rows that pass,
/// in their order.
pub proof fn lemma_filter_is_select(rows: Seq<Row>, codes: Codes)
    ensures
        expand(rows, filter_step(codes, Set::empty())) matches Ok(out) ==> out == select(
            rows,
            passing(codes),
        ),
    decreases rows.len(),
{
    let step = filter_step(codes, Set::empty());
    if rows.len() > 0 {
        lemma_filter_is_select(rows.drop_last(), codes);
        lemma_eliminate_nothing(rows.last(), Set::empty());
        let acc = expand(rows.drop_last(), step);
        if acc is Ok && step(rows.last()) is Ok {
            let x = acc->Ok_0;
            if passes(codes, rows.last()) == Ok::<bool, EvalError>(true) {
                assert(x + seq![rows.last()] =~= x.push(rows.last()));
            } else {
                assert(x + Seq::<Row>::empty() =~= x);
            }
        }
    } else {
        assert(rows =~= Seq::<Row>::empty());
    }
}

/// The rows of a scan that succeeds: the rows of its source that pass.
pub proof fn lemma_scan_members(source: Seq<Row>, filters: Seq<Term>, r: Row)
    requires
        scan_rows(filters, compile_all(filters), source) is Ok,
    ensures
        scan_rows(filters, compile_all(filters), source)->Ok_0.contains(r) <==> source.contains(r)
            && passes(compile_all(filters), r) == Ok::<bool, EvalError>(true),
{
    let codes = compile_all(filters);
    lemma_scan_is_expand(filters, source);
    lemma_pass_is_select(source, codes);
    lemma_select_contains(source, passing(codes), r);
}

/// The rows of a plan with a filter pushed into it: the rows of the plan
/// on which the filter holds, where both succeed.
pub proof fn lemma_pushed_rows(
    right: Plan,
    t: Term,
    tx: &SessionTx,
    delta_rule: Option<u64>,
    stores: Map<u64, EpochStore>,
    r: Row,
)
    requires
        right.wf(tx, stores),
        ready_scan(right),
        right.rows(tx, delta_rule, stores) is Ok,
        pushed_into(right, t).rows(tx, delta_rule, stores) is Ok,
    ensures
        pushed_into(right, t).rows(tx, delta_rule, stores)->Ok_0.contains(r) <==> right.rows(
            tx,
            delta_rule,
            stores,
        )->Ok_0.contains(r) && passes(one_code(resolved(t, right.bindings_after())), r) == Ok::<
            bool,
            EvalError,
        >(true),
{
    let names = right.bindings_after();
    let tr = resolved(t, names);
    let pushed = pushed_into(right, t);
    let rs = right.rows(tx, delta_rule, stores)->Ok_0;
    let source = scan_source(right, tx, delta_rule, stores);
    match right {
        Plan::TempStore { filters, .. } => {
            lemma_one_more(source, filters, tr, r);
        },
        Plan::Stored { filters, .. } => {
            lemma_one_more(source, filters, tr, r);
        },
        Plan::StoredWithValidity { filters, .. } => {
            lemma_one_more(source, filters, tr, r);
        },
        _ => {
            lemma_filter_rows(pushed, tx, delta_rule, stores);
            lemma_retain_nothing(names);
            let none = eliminate_indices(names, Set::<Name>::empty());
            assert(none =~= Set::<usize>::empty());
            assert(pushed.rows(tx, delta_rule, stores) == expand(
                rs,
                filter_step(one_code(tr), Set::empty()),
            ));
            lemma_filter_is_select(rs, one_code(tr));
            lemma_select_contains(rs, passing(one_code(tr)), r);
        },
    }
}

/// The rows of a scan with one filter more: the rows of the scan on which
/// that filter holds, where both succeed.
pub proof fn lemma_one_more(source: Seq<Row>, filters: Seq<Term>, tr: Term, r: Row)
    requires
        scan_rows(filters, compile_all(filters), source) is Ok,
        scan_rows(
            filters.push(tr),
            compile_all(filters).push((compile(tr), tr.span())),
            source,
        ) is Ok,
    ensures
        scan_rows(
            filters.push(tr),
            compile_all(filters).push((compile(tr), tr.span())),
            source,
        )->Ok_0.contains(r) <==> scan_rows(filters, compile_all(filters), source)->Ok_0.contains(r)
            && passes(one_code(tr), r) == Ok::<bool, EvalError>(true),
{
    let codes = compile_all(filters);
    let more = filters.push(tr);
    assert(compile_all(more) =~= codes + one_code(tr));
    assert(codes.push((compile(tr), tr.span())) =~= codes + one_code(tr));
    lemma_scan_members(source, filters, r);
    lemma_scan_members(source, more, r);
    lemma_passes_concat(codes, one_code(tr), r, 0);
}

/// The columns of names that all resolve are columns of the names, one for
/// each name.
pub proof fn lemma_positions_fit(names: Seq<Name>, wanted: Seq<Name>)
    requires
        all_resolve(names, wanted),
        names.len() <= usize::MAX,
    ensures
        positions(names, wanted).len() == wanted.len(),
        in_range(positions(names, wanted), names.len() as int),
{
    assert forall|k: int| 0 <= k < wanted.len() implies (#[trigger] positions(names, wanted)[k])
        < names.len() by {
        lemma_resolve(names, wanted[k]);
    }
}

/// Pushing a filter that mentions only bindings of the right side of a
/// join into the right side does not change the set of rows of the join,
/// where the right side, with and without the filter, the filter above
/// the join and the join above the filter all succeed. A right side that
/// is a scan is ready; a scan in time is joined on whole groups, with the
/// filter as without it.
pub proof fn lemma_pushdown_right(
    left: Plan,
    right: Plan,
    left_keys: Seq<Name>,
    right_keys: Seq<Name>,
    span: SourceSpan,
    t: Term,
    tx: &SessionTx,
    delta_rule: Option<u64>,
    stores: Map<u64, EpochStore>,
)
    requires
        plain_join(left, right, left_keys, right_keys, span).wf(tx, stores),
        forall|v: Name| free_vars(t).contains(v) ==> right.bindings_after().contains(v),
        ready_scan(right),
        joins_whole_groups(right, positions(right.bindings_after(), right_keys)),
        joins_whole_groups(
            pushed_into(right, t),
            positions(right.bindings_after(), right_keys),
        ),
        right.rows(tx, delta_rule, stores) is Ok,
        pushed_into(right, t).rows(tx, delta_rule, stores) is Ok,
        plain_filter(plain_join(left, right, left_keys, right_keys, span), t).rows(
            tx,
            delta_rule,
            stores,
        ) is Ok,
        plain_join(left, pushed_into(right, t), left_keys, right_keys, span).rows(
            tx,
            delta_rule,
            stores,
        ) is Ok,
    ensures
        plain_filter(plain_join(left, right, left_keys, right_keys, span), t).rows(
            tx,
            delta_rule,
            stores,
        )->Ok_0.to_set() == plain_join(
            left,
            pushed_into(right, t),
            left_keys,
            right_keys,
            span,
        ).rows(tx, delta_rule, stores)->Ok_0.to_set(),
{
    let j = plain_join(left, right, left_keys, right_keys, span);
    let above = plain_filter(j, t);
    let pr = pushed_into(right, t);
    let pushed = plain_join(left, pr, left_keys, right_keys, span);
    let names_l = left.bindings_after();
    let names_r = right.bindings_after();
    let names = names_l + names_r;
    let tj = resolved(t, names);
    let tr = resolved(t, names_r);
    let li = positions(names_l, left_keys);
    let ri = positions(names_r, right_keys);
    let none = Set::<usize>::empty();
    let lw = left.width();
    lemma_retain_nothing(names);
    lemma_pushed_fits(right, t, tx, stores);
    assert(left.wf(tx, stores));
    assert(right.wf(tx, stores));
    assert(eliminate_indices(names, Set::<Name>::empty()) =~= none);
    lemma_join_rows(j, tx, delta_rule, stores);
    lemma_join_rows(pushed, tx, delta_rule, stores);
    lemma_filter_rows(above, tx, delta_rule, stores);
    assert(j.bindings_after() == names);
    assert(names.len() <= usize::MAX);
    lemma_positions_fit(names_r, right_keys);
    lemma_rows_width(left, tx, delta_rule, stores);
    let ls = left.rows(tx, delta_rule, stores)->Ok_0;
    let rs = right.rows(tx, delta_rule, stores)->Ok_0;
    let rs2 = pr.rows(tx, delta_rule, stores)->Ok_0;
    let joined_rows = j.rows(tx, delta_rule, stores)->Ok_0;
    let lhs = above.rows(tx, delta_rule, stores)->Ok_0;
    let rhs = pushed.rows(tx, delta_rule, stores)->Ok_0;
    lemma_filter_is_select(joined_rows, one_code(tj));
    assert forall|row: Row| lhs.contains(row) <==> rhs.contains(row) by {
        lemma_join_members(right, ls, li, ri, lw, tx, delta_rule, stores, row);
        lemma_join_members(pr, ls, li, ri, lw, tx, delta_rule, stores, row);
        lemma_select_contains(joined_rows, passing(one_code(tj)), row);
        if lhs.contains(row) {
            let i = choose|i: int| 0 <= i < ls.len() && paired_with(#[trigger] ls[i], rs, li, ri, row);
            let k = choose|k: int|
                0 <= k < rs.len() && matching(li, ri, ls[i])(#[trigger] rs[k]) && row == ls[i]
                    + rs[k];
            lemma_holds_on_right(t, names_l, names_r, ls[i], rs[k]);
            lemma_pushed_rows(right, t, tx, delta_rule, stores, rs[k]);
            assert(rs.contains(rs[k]));
            let m = choose|m: int| 0 <= m < rs2.len() && rs2[m] == rs[k];
            assert(matching(li, ri, ls[i])(rs2[m]) && row == ls[i] + rs2[m]);
            assert(paired_with(ls[i], rs2, li, ri, row));
        }
        if rhs.contains(row) {
            let i = choose|i: int|
                0 <= i < ls.len() && paired_with(#[trigger] ls[i], rs2, li, ri, row);
            let k = choose|k: int|
                0 <= k < rs2.len() && matching(li, ri, ls[i])(#[trigger] rs2[k]) && row == ls[i]
                    + rs2[k];
            lemma_holds_on_right(t, names_l, names_r, ls[i], rs2[k]);
            lemma_pushed_rows(right, t, tx, delta_rule, stores, rs2[k]);
            assert(rs2.contains(rs2[k]));
            let m = choose|m: int| 0 <= m < rs.len() && rs[m] == rs2[k];
            assert(matching(li, ri, ls[i])(rs[m]) && row == ls[i] + rs[m]);
            assert(paired_with(ls[i], rs, li, ri, row));
        }
    }
    assert(lhs.to_set() =~= rhs.to_set());
}

} // verus!
