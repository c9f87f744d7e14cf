//! A filter that mentions only bindings of the left side of a join can be
//! applied to the left side before the join instead of to the rows of the
//! join: where both ways succeed, they yield the same rows.

use vstd::prelude::*;

use crate::bytecode::{compile, lemma_compile_correct};
use crate::error::EvalError;
use crate::expr::{args_free_vars, args_values, free_vars, resolved, term_value, Term};
use crate::materialize::lemma_expand_one;
use crate::plan::{Codes, Plan};
use crate::rows::{expand, lemma_expand_concat, then_expand, Outcome};
use crate::semantics::{
    filter_step, glue, is_prefix, join_step, joined, mat_step, materialized, passes, passes_from,
    prefix_step, stored_join_step,
};
use crate::store::{EpochStore, SessionTx};
use crate::symbol::{lemma_resolve, resolve, Name, SourceSpan};
use crate::tuple::{eliminated, lemma_eliminate_nothing, starts_with};
use crate::value::{Row, Value};

verus! {

/// Every binding of the term is resolved to a column below `n`, or to
/// none.
pub open spec fn positions_below(t: Term, n: int) -> bool
    decreases t,
{
    match t {
        Term::Binding { var, pos, span } => match pos {
            Some(p) => 0 <= p < n,
            None => true,
        },
        Term::Const { .. } => true,
        Term::Apply { op, args, span } => forall|i: int|
            0 <= i < args.len() ==> positions_below(#[trigger] args[i], n),
    }
}

/// A term resolved against names has its bindings below their count.
pub proof fn lemma_resolved_below(t: Term, names: Seq<Name>)
    ensures
        positions_below(resolved(t, names), names.len() as int),
    decreases t,
{
    match t {
        Term::Binding { var, pos, span } => {
            lemma_resolve(names, var);
        },
        Term::Const { .. } => {},
        Term::Apply { op, args, span } => {
            let out = resolved(t, names)->Apply_args;
            assert forall|i: int| 0 <= i < out.len() implies positions_below(
                #[trigger] out[i],
                names.len() as int,
            ) by {
                lemma_resolved_below(args[i], names);
            }
        },
    }
}

/// A term whose bindings lie in the columns of a row has on that row,
/// followed by anything, the value that it has on the row.
pub proof fn lemma_term_value_extend(t: Term, l: Row, r: Row)
    requires
        positions_below(t, l.len() as int),
    ensures
        term_value(t, l + r) == term_value(t, l),
    decreases t, 0int,
{
    match t {
        Term::Apply { op, args, span } => {
            lemma_args_values_extend(args, l, r, args.len() as int);
        },
        _ => {},
    }
}

/// The same for the first `n` of a list of terms.
pub proof fn lemma_args_values_extend(args: Seq<Term>, l: Row, r: Row, n: int)
    requires
        forall|i: int| 0 <= i < args.len() ==> positions_below(#[trigger] args[i], l.len() as int),
        0 <= n <= args.len(),
    ensures
        args_values(args, l + r, n) == args_values(args, l, n),
    decreases args, n,
{
    if n > 0 {
        lemma_args_values_extend(args, l, r, n - 1);
        lemma_term_value_extend(args[n - 1], l, r);
    }
}

/// A name of the first of two lists that is not in the second resolves in
/// both together as it does in the first.
pub proof fn lemma_resolve_concat(a: Seq<Name>, b: Seq<Name>, v: Name)
    requires
        !b.contains(v),
    ensures
        resolve(a + b, v) == resolve(a, v),
    decreases b.len(),
{
    if b.len() > 0 {
        assert((a + b).drop_last() =~= a + b.drop_last());
        assert((a + b).last() == b.last());
        assert(b[b.len() - 1] == b.last());
        assert forall|i: int| 0 <= i < b.drop_last().len() implies b.drop_last()[i] != v by {
            assert(b.drop_last()[i] == b[i]);
        }
        lemma_resolve_concat(a, b.drop_last(), v);
    } else {
        assert(a + b =~= a);
    }
}

/// What each of the first `n` terms mentions is among what they all
/// mention.
pub proof fn lemma_args_free_vars(args: Seq<Term>, n: int, i: int)
    requires
        0 <= i < n <= args.len(),
    ensures
        free_vars(args[i]).subset_of(args_free_vars(args, n)),
    decreases n,
{
    if i < n - 1 {
        lemma_args_free_vars(args, n - 1, i);
    }
}

/// A term that mentions no name of the second of two lists is resolved
/// against both together as it is against the first.
pub proof fn lemma_resolved_concat(t: Term, a: Seq<Name>, b: Seq<Name>)
    requires
        forall|v: Name| free_vars(t).contains(v) ==> !b.contains(v),
    ensures
        resolved(t, a + b) == resolved(t, a),
    decreases t,
{
    match t {
        Term::Binding { var, pos, span } => {
            assert(free_vars(t).contains(var));
            lemma_resolve_concat(a, b, var);
        },
        Term::Const { .. } => {},
        Term::Apply { op, args, span } => {
            let x = resolved(t, a + b)->Apply_args;
            let y = resolved(t, a)->Apply_args;
            assert forall|i: int| 0 <= i < args.len() implies x[i] == y[i] by {
                lemma_args_free_vars(args, args.len() as int, i);
                lemma_resolved_concat(args[i], a, b);
            }
            assert(x =~= y);
        },
    }
}

/// One compiled filter.
pub open spec fn one_code(t: Term) -> Codes {
    seq![(compile(t), t.span())]
}

/// Whether one compiled filter passes on a row goes by the value of the
/// filter on the row.
pub proof fn lemma_one_code(t: Term, row: Row)
    ensures
        passes(one_code(t), row) == match term_value(t, row) {
            Ok(Value::Bool(b)) => Ok::<bool, EvalError>(b),
            Ok(_) => Err(EvalError::PredicateType(t.span())),
            Err(e) => Err(e),
        },
{
    lemma_compile_correct(t, row);
    let codes = one_code(t);
    assert(passes_from(codes, row, 1) == Ok::<bool, EvalError>(true));
}

/// Every row that a step makes of a left row begins with the left row:
/// the step only appends.
pub open spec fn appends(step: spec_fn(Row) -> Outcome, rows: Seq<Row>) -> bool {
    forall|i: int, k: int|
        0 <= i < rows.len() && step(#[trigger] rows[i]) is Ok && 0 <= k < step(rows[i])->Ok_0.len()
            ==> starts_with(#[trigger] step(rows[i])->Ok_0[k], rows[i])
}

/// A filter over left columns before a step that only appends, and the
/// same filter after the step: where both succeed, they yield the same
/// rows.
pub proof fn lemma_filter_commutes(rows: Seq<Row>, t: Term, step: spec_fn(Row) -> Outcome, w: int)
    requires
        positions_below(t, w),
        forall|i: int| 0 <= i < rows.len() ==> (#[trigger] rows[i]).len() == w,
        appends(step, rows),
        then_expand(expand(rows, filter_step(one_code(t), Set::empty())), step) is Ok,
        then_expand(expand(rows, step), filter_step(one_code(t), Set::empty())) is Ok,
    ensures
        then_expand(expand(rows, filter_step(one_code(t), Set::empty())), step) == then_expand(
            expand(rows, step),
            filter_step(one_code(t), Set::empty()),
        ),
    decreases rows.len(),
{
    let f = filter_step(one_code(t), Set::empty());
    if rows.len() > 0 {
        let init = rows.drop_last();
        let x = rows.last();
        assert(x == rows[rows.len() - 1]);
        assert forall|i: int| 0 <= i < init.len() implies (#[trigger] init[i]).len() == w by {
            assert(init[i] == rows[i]);
        }
        assert(appends(step, init)) by {
            assert forall|i: int, k: int|
                0 <= i < init.len() && step(#[trigger] init[i]) is Ok && 0 <= k < step(
                    init[i],
                )->Ok_0.len() implies starts_with(#[trigger] step(init[i])->Ok_0[k], init[i]) by {
                assert(init[i] == rows[i]);
            }
        }
        let a = expand(init, f)->Ok_0;
        let b = f(x)->Ok_0;
        let c = expand(init, step)->Ok_0;
        let d = step(x)->Ok_0;
        lemma_expand_concat(a, b, step);
        lemma_expand_concat(c, d, f);
        lemma_filter_commutes(init, t, step, w);
        lemma_one_code(t, x);
        lemma_eliminate_nothing(x, Set::empty());
        if passes(one_code(t), x) == Ok::<bool, EvalError>(true) {
            assert(b =~= seq![x]);
            lemma_expand_one(x, step);
            lemma_all_pass(d, t, x);
        } else {
            assert(b =~= Seq::<Row>::empty());
            lemma_none_pass(d, t, x);
        }
    }
}

/// Rows that begin with a row on which a filter over its columns holds
/// all pass that filter.
pub proof fn lemma_all_pass(rows: Seq<Row>, t: Term, l: Row)
    requires
        positions_below(t, l.len() as int),
        forall|k: int| 0 <= k < rows.len() ==> starts_with(#[trigger] rows[k], l),
        passes(one_code(t), l) == Ok::<bool, EvalError>(true),
    ensures
        expand(rows, filter_step(one_code(t), Set::empty())) == Ok::<Seq<Row>, EvalError>(rows),
    decreases rows.len(),
{
    if rows.len() > 0 {
        let init = rows.drop_last();
        let x = rows.last();
        assert(x == rows[rows.len() - 1]);
        assert forall|k: int| 0 <= k < init.len() implies starts_with(#[trigger] init[k], l) by {
            assert(init[k] == rows[k]);
        }
        lemma_all_pass(init, t, l);
        lemma_same_on_extension(t, l, x);
        lemma_eliminate_nothing(x, Set::empty());
        assert(init + seq![x] =~= rows);
    } else {
        assert(rows =~= Seq::<Row>::empty());
    }
}

/// Rows that begin with a row on which a filter over its columns does not
/// hold are all dropped by that filter.
pub proof fn lemma_none_pass(rows: Seq<Row>, t: Term, l: Row)
    requires
        positions_below(t, l.len() as int),
        forall|k: int| 0 <= k < rows.len() ==> starts_with(#[trigger] rows[k], l),
        passes(one_code(t), l) == Ok::<bool, EvalError>(false),
    ensures
        expand(rows, filter_step(one_code(t), Set::empty())) == Ok::<Seq<Row>, EvalError>(
            Seq::empty(),
        ),
    decreases rows.len(),
{
    if rows.len() > 0 {
        let init = rows.drop_last();
        let x = rows.last();
        assert(x == rows[rows.len() - 1]);
        assert forall|k: int| 0 <= k < init.len() implies starts_with(#[trigger] init[k], l) by {
            assert(init[k] == rows[k]);
        }
        lemma_none_pass(init, t, l);
        lemma_same_on_extension(t, l, x);
        assert(Seq::<Row>::empty() + Seq::<Row>::empty() =~= Seq::<Row>::empty());
    }
}

/// A filter over the columns of a row passes on a row that begins with it
/// as it passes on the row itself.
pub proof fn lemma_same_on_extension(t: Term, l: Row, x: Row)
    requires
        positions_below(t, l.len() as int),
        starts_with(x, l),
    ensures
        passes(one_code(t), x) == passes(one_code(t), l),
{
    let r = x.subrange(l.len() as int, x.len() as int);
    assert(x =~= l + r);
    lemma_term_value_extend(t, l, r);
    lemma_one_code(t, x);
    lemma_one_code(t, l);
}

/// A left row followed by anything, with no column eliminated, begins
/// with the left row.
pub proof fn lemma_glue_appends(l: Row, rs: Seq<Row>, elim: Set<usize>)
    requires
        forall|i: int| !eliminated(elim, i),
    ensures
        forall|k: int| 0 <= k < glue(l, rs, elim).len() ==> starts_with(
            #[trigger] glue(l, rs, elim)[k],
            l,
        ),
{
    assert forall|k: int| 0 <= k < glue(l, rs, elim).len() implies starts_with(
        #[trigger] glue(l, rs, elim)[k],
        l,
    ) by {
        lemma_eliminate_nothing(l + rs[k], elim);
    }
}

/// The step of a join with a literal relation only appends.
pub proof fn lemma_join_step_appends(
    rows: Seq<Row>,
    right: Seq<Row>,
    li: Seq<usize>,
    ri: Seq<usize>,
    elim: Set<usize>,
)
    requires
        forall|i: int| !eliminated(elim, i),
    ensures
        appends(join_step(right, li, ri, elim), rows),
{
    let step = join_step(right, li, ri, elim);
    assert forall|i: int, k: int|
        0 <= i < rows.len() && step(#[trigger] rows[i]) is Ok && 0 <= k < step(
            rows[i],
        )->Ok_0.len() implies starts_with(#[trigger] step(rows[i])->Ok_0[k], rows[i]) by {
        lemma_glue_appends(
            rows[i],
            crate::rows::select(right, crate::semantics::matching(li, ri, rows[i])),
            elim,
        );
    }
}

/// The step of a materialized join only appends.
pub proof fn lemma_mat_step_appends(
    rows: Seq<Row>,
    mat: Seq<Row>,
    li: Seq<usize>,
    restore: Seq<usize>,
    elim: Set<usize>,
)
    requires
        forall|i: int| !eliminated(elim, i),
    ensures
        appends(mat_step(mat, li, restore, elim), rows),
{
    let step = mat_step(mat, li, restore, elim);
    assert forall|i: int, k: int|
        0 <= i < rows.len() && step(#[trigger] rows[i]) is Ok && 0 <= k < step(
            rows[i],
        )->Ok_0.len() implies starts_with(#[trigger] step(rows[i])->Ok_0[k], rows[i]) by {
        let l = rows[i];
        let ms = crate::rows::select(
            mat,
            crate::store::with_prefix(crate::tuple::project(l, li)),
        );
        lemma_eliminate_nothing(l + crate::tuple::project(ms[k], restore), elim);
    }
}

/// The step of a prefix join only appends.
pub proof fn lemma_prefix_step_appends(
    rows: Seq<Row>,
    kind: crate::semantics::ScanKind,
    source: Seq<Row>,
    filters: Seq<Term>,
    codes: Codes,
    bounds: Option<(Row, Row)>,
    cols: Seq<usize>,
    elim: Set<usize>,
)
    requires
        forall|i: int| !eliminated(elim, i),
    ensures
        appends(prefix_step(kind, source, filters, codes, bounds, cols, elim), rows),
{
    let step = prefix_step(kind, source, filters, codes, bounds, cols, elim);
    assert forall|i: int, k: int|
        0 <= i < rows.len() && step(#[trigger] rows[i]) is Ok && 0 <= k < step(
            rows[i],
        )->Ok_0.len() implies starts_with(#[trigger] step(rows[i])->Ok_0[k], rows[i]) by {
        let l = rows[i];
        let found = crate::semantics::found_rows(
            kind,
            source,
            filters,
            codes,
            bounds,
            crate::tuple::project(l, cols),
        );
        lemma_glue_appends(l, found->Ok_0, elim);
    }
}

/// The step of a join with a stored relation on a prefix only appends.
pub proof fn lemma_stored_step_appends(
    rows: Seq<Row>,
    source: Seq<Row>,
    key_len: int,
    val_len: int,
    filters: Seq<Term>,
    codes: Codes,
    bindings: Seq<Name>,
    li: Seq<usize>,
    ri: Seq<usize>,
    lw: int,
    elim: Set<usize>,
)
    requires
        forall|i: int| !eliminated(elim, i),
    ensures
        appends(
            stored_join_step(source, key_len, val_len, filters, codes, bindings, li, ri, lw, elim),
            rows,
        ),
{
    let cols = crate::semantics::prefix_columns(li, ri);
    let step = stored_join_step(
        source,
        key_len,
        val_len,
        filters,
        codes,
        bindings,
        li,
        ri,
        lw,
        elim,
    );
    if ri.len() >= key_len {
        assert forall|i: int, k: int|
            0 <= i < rows.len() && step(#[trigger] rows[i]) is Ok && 0 <= k < step(
                rows[i],
            )->Ok_0.len() implies starts_with(#[trigger] step(rows[i])->Ok_0[k], rows[i]) by {
            let l = rows[i];
            let prefix = crate::tuple::project(l, cols);
            lemma_eliminate_nothing(l + prefix + crate::semantics::bots(val_len), elim);
            let under = crate::rows::select(
                source,
                crate::store::with_prefix(prefix.take(key_len)),
            );
            if under.len() > 0 {
                lemma_glue_appends(l, seq![under[0]], elim);
                lemma_glue_appends(l, Seq::<Row>::empty(), elim);
            }
        }
    } else {
        lemma_prefix_step_appends(
            rows,
            crate::semantics::ScanKind::Stored,
            source,
            filters,
            codes,
            crate::semantics::chosen_bounds(filters, bindings, ri.len() as int),
            cols,
            elim,
        );
    }
}

/// A filter over left columns applied to the left rows of a join, and the
/// same filter applied to the rows of the join: where both succeed, they
/// yield the same rows, whatever the strategy of the join.
pub proof fn lemma_push_left_joined(
    right: Plan,
    rows: Seq<Row>,
    rs: Outcome,
    li: Seq<usize>,
    ri: Seq<usize>,
    w: int,
    elim: Set<usize>,
    t: Term,
    tx: &SessionTx,
    delta_rule: Option<u64>,
    stores: Map<u64, EpochStore>,
)
    requires
        positions_below(t, w),
        forall|i: int| 0 <= i < rows.len() ==> (#[trigger] rows[i]).len() == w,
        forall|i: int| !eliminated(elim, i),
        joined(
            right,
            expand(rows, filter_step(one_code(t), Set::empty())),
            rs,
            li,
            ri,
            w,
            elim,
            tx,
            delta_rule,
            stores,
        ) is Ok,
        then_expand(
            joined(right, Ok(rows), rs, li, ri, w, elim, tx, delta_rule, stores),
            filter_step(one_code(t), Set::empty()),
        ) is Ok,
    ensures
        joined(
            right,
            expand(rows, filter_step(one_code(t), Set::empty())),
            rs,
            li,
            ri,
            w,
            elim,
            tx,
            delta_rule,
            stores,
        ) == then_expand(
            joined(right, Ok(rows), rs, li, ri, w, elim, tx, delta_rule, stores),
            filter_step(one_code(t), Set::empty()),
        ),
{
    let f = filter_step(one_code(t), Set::empty());
    if right is Fixed {
        let step = join_step(rs->Ok_0, li, ri, elim);
        lemma_join_step_appends(rows, rs->Ok_0, li, ri, elim);
        lemma_filter_commutes(rows, t, step, w);
    } else if right.is_scan() && is_prefix(ri) {
        match right {
            Plan::TempStore { bindings, storage_key, filters, codes, .. } => {
                let step = prefix_step(
                    crate::semantics::ScanKind::Temp,
                    crate::semantics::temp_source(stores, storage_key, delta_rule),
                    filters,
                    codes,
                    crate::semantics::chosen_bounds(filters, bindings, ri.len() as int),
                    crate::semantics::prefix_columns(li, ri),
                    elim,
                );
                lemma_prefix_step_appends(
                    rows,
                    crate::semantics::ScanKind::Temp,
                    crate::semantics::temp_source(stores, storage_key, delta_rule),
                    filters,
                    codes,
                    crate::semantics::chosen_bounds(filters, bindings, ri.len() as int),
                    crate::semantics::prefix_columns(li, ri),
                    elim,
                );
                lemma_filter_commutes(rows, t, step, w);
            },
            Plan::Stored { bindings, storage, filters, codes, .. } => {
                let step = stored_join_step(
                    tx.rows_of(storage.id),
                    storage.key_len,
                    storage.val_len,
                    filters,
                    codes,
                    bindings,
                    li,
                    ri,
                    w,
                    elim,
                );
                lemma_stored_step_appends(
                    rows,
                    tx.rows_of(storage.id),
                    storage.key_len,
                    storage.val_len,
                    filters,
                    codes,
                    bindings,
                    li,
                    ri,
                    w,
                    elim,
                );
                lemma_filter_commutes(rows, t, step, w);
            },
            Plan::StoredWithValidity { bindings, storage, filters, codes, valid_at, .. } => {
                let kind = crate::semantics::ScanKind::AsOf { key_len: storage.key_len, valid_at };
                let step = prefix_step(
                    kind,
                    tx.rows_of(storage.id),
                    filters,
                    codes,
                    crate::semantics::chosen_bounds(filters, bindings, ri.len() as int),
                    crate::semantics::prefix_columns(li, ri),
                    elim,
                );
                lemma_prefix_step_appends(
                    rows,
                    kind,
                    tx.rows_of(storage.id),
                    filters,
                    codes,
                    crate::semantics::chosen_bounds(filters, bindings, ri.len() as int),
                    crate::semantics::prefix_columns(li, ri),
                    elim,
                );
                lemma_filter_commutes(rows, t, step, w);
            },
            _ => {},
        }
    } else {
        let kept = expand(rows, f)->Ok_0;
        if rows.len() > 0 {
            let rw = right.width();
            let mat = crate::sorted::gathered(
                crate::semantics::project_all(rs->Ok_0, crate::semantics::store_order(ri, rw)),
            );
            let restore = crate::semantics::restore_order(
                crate::semantics::store_order(ri, rw),
                rw,
            );
            let step = mat_step(mat, li, restore, elim);
            lemma_mat_step_appends(rows, mat, li, restore, elim);
            lemma_filter_commutes(rows, t, step, w);
        } else {
            assert(rows =~= Seq::<Row>::empty());
        }
    }
}

/// The join of two plans that drops nothing.
pub open spec fn plain_join(
    left: Plan,
    right: Plan,
    left_keys: Seq<Name>,
    right_keys: Seq<Name>,
    span: SourceSpan,
) -> Plan {
    Plan::Join {
        left: Box::new(left),
        right: Box::new(right),
        left_keys,
        right_keys,
        to_eliminate: Set::empty(),
        span,
    }
}

/// One resolved and compiled filter, dropping nothing, above a plan.
pub open spec fn plain_filter(parent: Plan, t: Term) -> Plan {
    Plan::Filter {
        parent: Box::new(parent),
        filters: seq![resolved(t, parent.bindings_after())],
        codes: one_code(resolved(t, parent.bindings_after())),
        to_eliminate: Set::empty(),
        span: t.span(),
    }
}

/// Pushing a filter that mentions no binding of the right side of a join
/// into the left side does not change the rows of the join: where the
/// filter above the join and the join above the filter both succeed, they
/// yield the same rows.
pub proof fn lemma_pushdown_left(
    left: Plan,
    right: Plan,
    left_keys: Seq<Name>,
    right_keys: Seq<Name>,
    span: SourceSpan,
    t: Term,
    tx: &SessionTx,
    delta_rule: Option<u64>,
    stores: Map<u64, EpochStore>,
)
    requires
        plain_join(left, right, left_keys, right_keys, span).wf(tx, stores),
        forall|v: Name| free_vars(t).contains(v) ==> !right.bindings_after().contains(v),
        plain_filter(plain_join(left, right, left_keys, right_keys, span), t).rows(
            tx,
            delta_rule,
            stores,
        ) is Ok,
        plain_join(plain_filter(left, t), right, left_keys, right_keys, span).rows(
            tx,
            delta_rule,
            stores,
        ) is Ok,
    ensures
        plain_filter(plain_join(left, right, left_keys, right_keys, span), t).rows(
            tx,
            delta_rule,
            stores,
        ) == plain_join(plain_filter(left, t), right, left_keys, right_keys, span).rows(
            tx,
            delta_rule,
            stores,
        ),
{
    let j = plain_join(left, right, left_keys, right_keys, span);
    let above = plain_filter(j, t);
    let fl = plain_filter(left, t);
    let pushed = plain_join(fl, right, left_keys, right_keys, span);
    let names_l = left.bindings_after();
    let names_r = right.bindings_after();
    let none = Set::<Name>::empty();
    let tl = resolved(t, names_l);
    crate::widths::lemma_retain_nothing(names_l + names_r);
    crate::widths::lemma_retain_nothing(names_l);
    assert(j.bindings_after() == names_l + names_r);
    assert(fl.bindings_after() == names_l);
    lemma_resolved_concat(t, names_l, names_r);
    lemma_resolved_below(t, names_l);
    crate::expr::lemma_resolved_span(t, names_l);
    assert(left.wf(tx, stores));
    crate::widths::lemma_rows_width(left, tx, delta_rule, stores);
    let ls = left.rows(tx, delta_rule, stores);
    let rs = right.rows(tx, delta_rule, stores);
    let li = crate::semantics::positions(names_l, left_keys);
    let ri = crate::semantics::positions(names_r, right_keys);
    let elim = crate::tuple::eliminate_indices(names_l + names_r, none);
    let none_l = crate::tuple::eliminate_indices(names_l, none);
    assert(none_l =~= Set::<usize>::empty());
    let none_j = crate::tuple::eliminate_indices(names_l + names_r, none);
    assert(none_j =~= Set::<usize>::empty());
    crate::equivalences::lemma_filter_rows(above, tx, delta_rule, stores);
    crate::equivalences::lemma_filter_rows(fl, tx, delta_rule, stores);
    lemma_join_rows(j, tx, delta_rule, stores);
    lemma_join_rows(pushed, tx, delta_rule, stores);
    if ls is Ok {
        lemma_push_left_joined(
            right,
            ls->Ok_0,
            rs,
            li,
            ri,
            left.width(),
            elim,
            tl,
            tx,
            delta_rule,
            stores,
        );
    }
}

/// The rows of a join plan.
pub proof fn lemma_join_rows(
    p: Plan,
    tx: &SessionTx,
    delta_rule: Option<u64>,
    stores: Map<u64, EpochStore>,
)
    requires
        p is Join,
    ensures
        p.rows(tx, delta_rule, stores) == joined(
            *p->Join_right,
            p->Join_left.rows(tx, delta_rule, stores),
            p->Join_right.rows(tx, delta_rule, stores),
            crate::semantics::positions(p->Join_left.bindings_after(), p->Join_left_keys),
            crate::semantics::positions(p->Join_right.bindings_after(), p->Join_right_keys),
            p->Join_left.width(),
            crate::tuple::eliminate_indices(p.bindings_before(), p->Join_to_eliminate),
            tx,
            delta_rule,
            stores,
        ),
        p.bindings_before() == p->Join_left.bindings_after() + p->Join_right.bindings_after(),
        p.bindings_after() == crate::plan::retain(p.bindings_before(), p->Join_to_eliminate),
{
}

} // verus!
