//! What holds of the rows of plans: scans yield rows in order, an
//! anti-join keeps exactly the left rows without a partner, fused filters
//! filter as nested ones do.

use vstd::prelude::*;

use crate::error::EvalError;
use crate::plan::{Codes, Plan};
use crate::rows::{expand, lemma_select_sorted, select, then_expand, Outcome};
use crate::semantics::{
    filter_step, has_partner, neg_step, pass_step, passes, passes_from, positions, temp_source,
    visible,
};
use crate::sorted::strictly_sorted;
use crate::store::{EpochStore, SessionTx};
use crate::tuple::{eliminate_indices, eliminate_row, eliminated, lemma_eliminate_nothing, project};
use crate::validity::visible_at;
use crate::value::Row;

verus! {

/// The condition "passes every predicate of `codes`".
pub open spec fn passing(codes: Codes) -> spec_fn(Row) -> bool {
    |row: Row| passes(codes, row) == Ok::<bool, EvalError>(true)
}

/// Two outcomes agree: they fail together, and where they succeed they
/// yield the same rows.
pub open spec fn agree(a: Outcome, b: Outcome) -> bool {
    (a is Ok || b is Ok) ==> a == b
}

/// A scan that succeeds yields the rows of its source that pass, in the
/// order of the source.
pub proof fn lemma_pass_is_select(rows: Seq<Row>, codes: Codes)
    ensures
        expand(rows, pass_step(codes)) matches Ok(out) ==> out == select(rows, passing(codes)),
    decreases rows.len(),
{
    if rows.len() > 0 {
        lemma_pass_is_select(rows.drop_last(), codes);
        let acc = expand(rows.drop_last(), pass_step(codes));
        if acc is Ok && pass_step(codes)(rows.last()) is Ok {
            let x = acc->Ok_0;
            if passes(codes, rows.last()) == Ok::<bool, EvalError>(true) {
                assert(x + seq![rows.last()] =~= x.push(rows.last()));
            } else {
                assert(x + Seq::<Row>::empty() =~= x);
            }
        }
    } else {
        assert(rows =~= Seq::<Row>::empty());
    }
}

/// The rows of a scan come in strictly increasing order, and so in
/// non-decreasing order of their keys.
pub proof fn lemma_scan_sorted(
    p: Plan,
    tx: &SessionTx,
    delta_rule: Option<u64>,
    stores: Map<u64, EpochStore>,
)
    requires
        p.is_scan(),
        p.wf(tx, stores),
    ensures
        p.rows(tx, delta_rule, stores) matches Ok(rs) ==> strictly_sorted(rs),
{
    match p {
        Plan::TempStore { bindings, storage_key, filters, codes, span } => {
            let source = temp_source(stores, storage_key, delta_rule);
            lemma_pass_is_select(source, codes);
            lemma_select_sorted(source, passing(codes));
        },
        Plan::Stored { bindings, storage, filters, codes, span } => {
            let source = tx.rows_of(storage.id);
            lemma_pass_is_select(source, codes);
            lemma_select_sorted(source, passing(codes));
        },
        Plan::StoredWithValidity { bindings, storage, filters, codes, valid_at, span } => {
            let all = tx.rows_of(storage.id);
            lemma_select_sorted(all, visible_at(all, storage.key_len, valid_at));
            let source = visible(all, storage.key_len, valid_at);
            lemma_pass_is_select(source, codes);
            lemma_select_sorted(source, passing(codes));
        },
        _ => {},
    }
}

/// The condition "has no partner among `right`".
pub open spec fn alone(right: Seq<Row>, li: Seq<usize>, ri: Seq<usize>) -> spec_fn(Row) -> bool {
    |l: Row| !has_partner(right, ri, project(l, li))
}

/// Each of `rows` without the eliminated columns.
pub open spec fn eliminate_all(rows: Seq<Row>, elim: Set<usize>) -> Seq<Row> {
    Seq::new(rows.len(), |i: int| eliminate_row(rows[i], elim))
}

/// An anti-join yields exactly the left rows whose join values are not
/// the join values of any right row, each once and in their order,
/// without the eliminated columns.
pub proof fn lemma_anti_join(
    left: Seq<Row>,
    right: Seq<Row>,
    li: Seq<usize>,
    ri: Seq<usize>,
    elim: Set<usize>,
)
    ensures
        expand(left, neg_step(right, li, ri, elim)) == Ok::<Seq<Row>, EvalError>(
            eliminate_all(select(left, alone(right, li, ri)), elim),
        ),
    decreases left.len(),
{
    let step = neg_step(right, li, ri, elim);
    let keep = alone(right, li, ri);
    if left.len() > 0 {
        lemma_anti_join(left.drop_last(), right, li, ri, elim);
        let before = eliminate_all(select(left.drop_last(), keep), elim);
        if keep(left.last()) {
            assert(before + seq![eliminate_row(left.last(), elim)] =~= eliminate_all(
                select(left, keep),
                elim,
            ));
        } else {
            assert(before + Seq::<Row>::empty() =~= before);
        }
    } else {
        assert(eliminate_all(select(left, keep), elim) =~= Seq::<Row>::empty());
    }
}

/// The rows of an anti-join plan are the rows of its left side that have
/// no partner among the rows of the source on its right side.
pub proof fn lemma_neg_join_rows(
    p: Plan,
    tx: &SessionTx,
    delta_rule: Option<u64>,
    stores: Map<u64, EpochStore>,
)
    requires
        p is NegJoin,
        p->NegJoin_left.rows(tx, delta_rule, stores) is Ok,
    ensures
        p.rows(tx, delta_rule, stores) == Ok::<Seq<Row>, EvalError>(
            eliminate_all(
                select(
                    p->NegJoin_left.rows(tx, delta_rule, stores)->Ok_0,
                    alone(
                        p->NegJoin_right.source_rows(tx, stores),
                        positions(p->NegJoin_left.bindings_after(), p->NegJoin_left_keys),
                        positions(p->NegJoin_right.bindings_after(), p->NegJoin_right_keys),
                    ),
                ),
                eliminate_indices(p->NegJoin_left.bindings_after(), p->NegJoin_to_eliminate),
            ),
        ),
{
    lemma_anti_join(
        p->NegJoin_left.rows(tx, delta_rule, stores)->Ok_0,
        p->NegJoin_right.source_rows(tx, stores),
        positions(p->NegJoin_left.bindings_after(), p->NegJoin_left_keys),
        positions(p->NegJoin_right.bindings_after(), p->NegJoin_right_keys),
        eliminate_indices(p->NegJoin_left.bindings_after(), p->NegJoin_to_eliminate),
    );
}

/// Whether the predicates of two lists, one after the other, hold: those
/// of the first, then those of the second.
pub proof fn lemma_passes_concat(a: Codes, b: Codes, row: Row, k: int)
    requires
        0 <= k <= a.len(),
    ensures
        passes_from(a + b, row, k) == match passes_from(a, row, k) {
            Ok(true) => passes(b, row),
            other => other,
        },
    decreases a.len() - k,
{
    if k < a.len() {
        assert((a + b)[k] == a[k]);
        lemma_passes_concat(a, b, row, k + 1);
    } else {
        lemma_passes_shift(a, b, row, 0);
    }
}

/// The predicates of the second of two lists hold from a position on as
/// they hold in the whole from the matching position on.
pub proof fn lemma_passes_shift(a: Codes, b: Codes, row: Row, j: int)
    requires
        0 <= j <= b.len(),
    ensures
        passes_from(a + b, row, a.len() + j) == passes_from(b, row, j),
    decreases b.len() - j,
{
    if j < b.len() {
        assert((a + b)[a.len() + j] == b[j]);
        lemma_passes_shift(a, b, row, j + 1);
    }
}

/// A filter above a filter that drops no column filters as one filter
/// with the predicates of both: where either succeeds, both yield the same
/// rows.
pub proof fn lemma_filter_fusion(rows: Seq<Row>, inner: Codes, outer: Codes, elim: Set<usize>)
    ensures
        agree(
            then_expand(expand(rows, filter_step(inner, Set::empty())), filter_step(outer, elim)),
            expand(rows, filter_step(inner + outer, elim)),
        ),
        expand(rows, filter_step(inner + outer, elim)) is Ok ==> expand(
            rows,
            filter_step(inner, Set::empty()),
        ) is Ok,
    decreases rows.len(),
{
    let f = filter_step(inner, Set::empty());
    let g = filter_step(outer, elim);
    let h = filter_step(inner + outer, elim);
    if rows.len() > 0 {
        let init = rows.drop_last();
        let x = rows.last();
        lemma_filter_fusion(init, inner, outer, elim);
        lemma_passes_concat(inner, outer, x, 0);
        lemma_eliminate_nothing(x, Set::empty());
        let nested_init = then_expand(expand(init, f), g);
        let fused_init = expand(init, h);
        if expand(init, f) is Ok && f(x) is Ok {
            let a = expand(init, f)->Ok_0;
            let b = f(x)->Ok_0;
            crate::rows::lemma_expand_concat(a, b, g);
            if passes(inner, x) == Ok::<bool, EvalError>(true) {
                assert(b =~= seq![x]);
                crate::materialize::lemma_expand_one(x, g);
            } else {
                assert(b =~= Seq::<Row>::empty());
                if expand(a, g) is Ok {
                    assert(expand(a, g)->Ok_0 + Seq::<Row>::empty() =~= expand(a, g)->Ok_0);
                }
                if fused_init is Ok {
                    assert(fused_init->Ok_0 + Seq::<Row>::empty() =~= fused_init->Ok_0);
                }
            }
        }
    }
}

/// The rows of a filter plan above a filter plan that drops no column are
/// the rows of one filter plan with the filters of both, where either
/// succeeds.
#[verifier::rlimit(100)]
pub proof fn lemma_fused_filter_rows(
    nested: Plan,
    fused: Plan,
    tx: &SessionTx,
    delta_rule: Option<u64>,
    stores: Map<u64, EpochStore>,
)
    requires
        nested is Filter,
        *nested->Filter_parent is Filter,
        (*nested->Filter_parent)->Filter_to_eliminate == Set::<crate::symbol::Name>::empty(),
        fused is Filter,
        fused->Filter_parent == (*nested->Filter_parent)->Filter_parent,
        fused->Filter_codes == (*nested->Filter_parent)->Filter_codes + nested->Filter_codes,
        fused->Filter_to_eliminate == nested->Filter_to_eliminate,
    ensures
        agree(nested.rows(tx, delta_rule, stores), fused.rows(tx, delta_rule, stores)),
{
    let inner = *nested->Filter_parent;
    let base = *inner->Filter_parent;
    let input = base.rows(tx, delta_rule, stores);
    let names = base.bindings_after();
    let none = eliminate_indices(names, Set::<crate::symbol::Name>::empty());
    assert(none =~= Set::<usize>::empty());
    crate::widths::lemma_retain_nothing(names);
    lemma_filter_rows(inner, tx, delta_rule, stores);
    lemma_filter_rows(nested, tx, delta_rule, stores);
    lemma_filter_rows(fused, tx, delta_rule, stores);
    if input is Ok {
        lemma_filter_fusion(
            input->Ok_0,
            inner->Filter_codes,
            nested->Filter_codes,
            eliminate_indices(names, nested->Filter_to_eliminate),
        );
    }
}

/// The rows of a filter plan.
pub proof fn lemma_filter_rows(
    p: Plan,
    tx: &SessionTx,
    delta_rule: Option<u64>,
    stores: Map<u64, EpochStore>,
)
    requires
        p is Filter,
    ensures
        p.rows(tx, delta_rule, stores) == then_expand(
            p->Filter_parent.rows(tx, delta_rule, stores),
            filter_step(
                p->Filter_codes,
                eliminate_indices(p->Filter_parent.bindings_after(), p->Filter_to_eliminate),
            ),
        ),
        p.bindings_before() == p->Filter_parent.bindings_after(),
        p.bindings_after() == crate::plan::retain(p.bindings_before(), p->Filter_to_eliminate),
{
}

} // verus!
