//! The relation of one row without columns is the left identity of the
//! join: joined with any relation on no keys it yields the rows of that
//! relation.

use vstd::prelude::*;

use crate::bounds_in_time::{lemma_bounded_scan_in_time, spares_validity};
use crate::bounds_sound::{lemma_bounded_scan_sound, resolved_against};
use crate::error::EvalError;
use crate::expr::Term;
use crate::materialize::lemma_expand_one;
use crate::plan::{compile_all, retain, Plan};
use crate::rows::{expand, lemma_select_all, select, Outcome};
use crate::semantics::{
    chosen_bounds, fixed_rows, glue, glue_restored, is_prefix, join_step, joined, mat_step,
    matching, materialized, others, pass_step, passes, positions, prefix_columns, prefix_step,
    project_all, restore_order, scan_joined, scan_rows, slot_of, store_order, stored_join_step,
    temp_source, visible, ScanKind,
};
use crate::sorted::{gathered, lemma_gathered};
use crate::store::{with_prefix, EpochStore, SessionTx};
use crate::symbol::Name;
use crate::tuple::{eliminate_indices, eliminated, has_width, lemma_eliminate_nothing, project};
use crate::value::Row;
use crate::widths::lemma_rows_width;

verus! {

/// The columns below `w`, in order.
pub open spec fn identity(w: int) -> Seq<usize> {
    Seq::new(w as nat, |i: int| i as usize)
}

/// A row with its columns in their own order is the row.
pub proof fn lemma_project_identity(r: Row)
    requires
        r.len() <= usize::MAX,
    ensures
        project(r, identity(r.len() as int)) == r,
{
    assert(project(r, identity(r.len() as int)) =~= r);
}

/// Where no column is a join column, all columns are the others.
pub proof fn lemma_others_of_none(w: int)
    requires
        0 <= w <= usize::MAX,
    ensures
        others(Seq::<usize>::empty(), w) == identity(w),
    decreases w,
{
    if w > 0 {
        lemma_others_of_none(w - 1);
        assert(identity(w - 1).push((w - 1) as usize) =~= identity(w));
    } else {
        assert(others(Seq::<usize>::empty(), w) =~= identity(w));
    }
}

/// The columns in order are restored by the columns in order.
pub proof fn lemma_restore_identity(w: int)
    requires
        0 <= w <= usize::MAX,
    ensures
        restore_order(identity(w), w) == identity(w),
{
    let id = identity(w);
    assert forall|c: int| 0 <= c < w implies restore_order(id, w)[c] == id[c] by {
        assert(id[c] == c);
        let a = slot_of(id, c);
        assert(0 <= a < id.len() && id[a] == c);
    }
    assert(restore_order(id, w) =~= id);
}

/// The empty row followed by each of some rows, with no column eliminated,
/// is those rows.
pub proof fn lemma_glue_empty(rs: Seq<Row>, elim: Set<usize>)
    requires
        forall|i: int| !eliminated(elim, i),
    ensures
        glue(Seq::<crate::value::Value>::empty(), rs, elim) == rs,
{
    let l = Seq::<crate::value::Value>::empty();
    assert forall|i: int| 0 <= i < rs.len() implies glue(l, rs, elim)[i] == rs[i] by {
        assert(l + rs[i] =~= rs[i]);
        lemma_eliminate_nothing(rs[i], elim);
    }
    assert(glue(l, rs, elim) =~= rs);
}

/// The empty row followed by each of some rows of one width, with their
/// columns in their own order and no column eliminated, is those rows.
pub proof fn lemma_glue_restored_empty(ms: Seq<Row>, w: int, elim: Set<usize>)
    requires
        0 <= w <= usize::MAX,
        has_width(ms, w),
        forall|i: int| !eliminated(elim, i),
    ensures
        glue_restored(Seq::<crate::value::Value>::empty(), ms, identity(w), elim) == ms,
{
    let l = Seq::<crate::value::Value>::empty();
    let out = glue_restored(l, ms, identity(w), elim);
    assert forall|i: int| 0 <= i < ms.len() implies out[i] == ms[i] by {
        lemma_project_identity(ms[i]);
        assert(l + ms[i] =~= ms[i]);
        lemma_eliminate_nothing(ms[i], elim);
    }
    assert(out =~= ms);
}

/// Every row begins with the empty row.
pub proof fn lemma_all_under_empty(rows: Seq<Row>)
    ensures
        select(rows, with_prefix(Seq::empty())) == rows,
{
    lemma_select_all(rows, with_prefix(Seq::empty()));
}

/// Without predicates every row passes.
pub proof fn lemma_pass_nothing(rows: Seq<Row>)
    ensures
        expand(rows, pass_step(Seq::empty())) == Ok::<Seq<Row>, EvalError>(rows),
    decreases rows.len(),
{
    if rows.len() > 0 {
        lemma_pass_nothing(rows.drop_last());
        assert(rows.drop_last() + seq![rows.last()] =~= rows);
    } else {
        assert(rows =~= Seq::<Row>::empty());
    }
}

/// A scan whose predicates are the compiled forms of its filters yields
/// the rows of its source that pass them, with or without filters.
pub proof fn lemma_scan_is_expand(filters: Seq<Term>, source: Seq<Row>)
    ensures
        scan_rows(filters, compile_all(filters), source) == expand(
            source,
            pass_step(compile_all(filters)),
        ),
{
    if filters.len() == 0 {
        assert(compile_all(filters) =~= Seq::empty());
        lemma_pass_nothing(source);
    }
}

/// The materialized join of the one empty row with some rows of one width,
/// on no keys and with no column eliminated, yields those rows in
/// increasing order, each once.
pub proof fn lemma_unit_materialized(rs: Outcome, w: int, elim: Set<usize>)
    requires
        0 <= w <= usize::MAX,
        rs matches Ok(rows) ==> has_width(rows, w),
        forall|i: int| !eliminated(elim, i),
    ensures
        materialized(
            Ok(seq![Seq::empty()]),
            rs,
            Seq::empty(),
            Seq::empty(),
            w,
            elim,
        ) == match rs {
            Ok(rows) => Ok::<Seq<Row>, EvalError>(gathered(rows)),
            Err(e) => Err(e),
        },
{
    if rs is Ok {
        let rows = rs->Ok_0;
        let none = Seq::<usize>::empty();
        let l = Seq::<crate::value::Value>::empty();
        lemma_others_of_none(w);
        assert(store_order(none, w) =~= identity(w));
        lemma_restore_identity(w);
        assert forall|i: int| 0 <= i < rows.len() implies project_all(rows, identity(w))[i]
            == rows[i] by {
            lemma_project_identity(rows[i]);
        }
        assert(project_all(rows, identity(w)) =~= rows);
        let mat = gathered(rows);
        lemma_gathered(rows);
        assert(has_width(mat, w)) by {
            assert forall|i: int| 0 <= i < mat.len() implies (#[trigger] mat[i]).len() == w by {
                assert(mat.contains(mat[i]));
                assert(rows.contains(mat[i]));
                let j = choose|j: int| 0 <= j < rows.len() && rows[j] == mat[i];
                assert(rows[j].len() == w);
            }
        }
        let step = mat_step(mat, none, identity(w), elim);
        assert(project(l, none) =~= Seq::<crate::value::Value>::empty());
        lemma_all_under_empty(mat);
        lemma_glue_restored_empty(mat, w, elim);
        lemma_expand_one(l, step);
    }
}

/// The join of the unit relation with a plan, on no keys and dropping
/// nothing.
pub open spec fn unit_join(unit: Plan, right: Plan) -> Plan {
    Plan::Join {
        left: Box::new(unit),
        right: Box::new(right),
        left_keys: Seq::empty(),
        right_keys: Seq::empty(),
        to_eliminate: Set::empty(),
        span: unit.span(),
    }
}

/// A scan is ready for a join: its bindings are distinct, its filters are
/// resolved against them and compiled, and a stored relation has a key
/// column.
pub open spec fn ready_scan(p: Plan) -> bool {
    match p {
        Plan::TempStore { bindings, filters, codes, .. } => {
            &&& bindings.no_duplicates()
            &&& resolved_against(filters, bindings)
            &&& codes == compile_all(filters)
        },
        Plan::Stored { bindings, storage, filters, codes, .. } => {
            &&& bindings.no_duplicates()
            &&& resolved_against(filters, bindings)
            &&& codes == compile_all(filters)
            &&& storage.key_len >= 1
        },
        Plan::StoredWithValidity { bindings, filters, codes, .. } => {
            &&& bindings.no_duplicates()
            &&& resolved_against(filters, bindings)
            &&& codes == compile_all(filters)
        },
        _ => true,
    }
}

/// A scan in time is joined on columns of the key before the validity,
/// and the bounds that its filters give leave the validity free: the rows
/// that the scan looks at for a prefix are then whole groups.
pub open spec fn joins_whole_groups(right: Plan, ri: Seq<usize>) -> bool {
    right matches Plan::StoredWithValidity { bindings, storage, filters, .. } ==> ri.len()
        < storage.key_len && spares_validity(
        filters,
        bindings,
        ri.len() as int,
        storage.key_len,
    )
}

/// What the prefix join of the one empty row with a ready scan on no keys
/// yields, where the scan succeeds: the rows of the scan.
pub proof fn lemma_unit_scan_joined(
    right: Plan,
    elim: Set<usize>,
    tx: &SessionTx,
    delta_rule: Option<u64>,
    stores: Map<u64, EpochStore>,
)
    requires
        right.is_scan(),
        right.wf(tx, stores),
        ready_scan(right),
        joins_whole_groups(right, Seq::empty()),
        forall|i: int| !eliminated(elim, i),
        right.rows(tx, delta_rule, stores) is Ok,
    ensures
        scan_joined(
            right,
            Ok(seq![Seq::empty()]),
            Seq::empty(),
            Seq::empty(),
            0,
            elim,
            tx,
            delta_rule,
            stores,
        ) == right.rows(tx, delta_rule, stores),
{
    let none = Seq::<usize>::empty();
    let l = Seq::<crate::value::Value>::empty();
    let cols = prefix_columns(none, none);
    assert(cols =~= none);
    assert(project(l, cols) =~= l);
    match right {
        Plan::TempStore { bindings, storage_key, filters, codes, .. } => {
            let source = temp_source(stores, storage_key, delta_rule);
            let bounds = chosen_bounds(filters, bindings, 0);
            lemma_all_under_empty(source);
            lemma_bounded_scan_sound(ScanKind::Temp, source, filters, bindings, l);
            let step = prefix_step(ScanKind::Temp, source, filters, codes, bounds, cols, elim);
            lemma_expand_one(l, step);
            lemma_glue_empty(right.rows(tx, delta_rule, stores)->Ok_0, elim);
        },
        Plan::Stored { bindings, storage, filters, codes, .. } => {
            let source = tx.rows_of(storage.id);
            let bounds = chosen_bounds(filters, bindings, 0);
            lemma_all_under_empty(source);
            lemma_scan_is_expand(filters, source);
            lemma_bounded_scan_sound(ScanKind::Stored, source, filters, bindings, l);
            let step = prefix_step(ScanKind::Stored, source, filters, codes, bounds, cols, elim);
            assert(stored_join_step(
                source,
                storage.key_len,
                storage.val_len,
                filters,
                codes,
                bindings,
                none,
                none,
                0,
                elim,
            ) == step);
            lemma_expand_one(l, step);
            lemma_glue_empty(right.rows(tx, delta_rule, stores)->Ok_0, elim);
        },
        Plan::StoredWithValidity { bindings, storage, filters, codes, valid_at, .. } => {
            let source = tx.rows_of(storage.id);
            let kind = ScanKind::AsOf { key_len: storage.key_len, valid_at };
            lemma_all_under_empty(source);
            lemma_scan_is_expand(filters, visible(source, storage.key_len, valid_at));
            lemma_bounded_scan_in_time(source, filters, bindings, l, storage.key_len, valid_at);
            let bounds = chosen_bounds(filters, bindings, 0);
            let step = prefix_step(kind, source, filters, codes, bounds, cols, elim);
            lemma_expand_one(l, step);
            lemma_glue_empty(right.rows(tx, delta_rule, stores)->Ok_0, elim);
        },
        _ => {},
    }
}

/// The join of the unit relation with a relation, on no keys, yields the
/// rows of that relation: where the relation succeeds, so does the join,
/// with the same rows; in the same order too, unless the join is
/// materialized, which yields them in increasing order, each once. Where
/// the relation is no scan and fails, the join fails in the same way.
pub proof fn lemma_unit_identity(
    unit: Plan,
    right: Plan,
    tx: &SessionTx,
    delta_rule: Option<u64>,
    stores: Map<u64, EpochStore>,
)
    requires
        unit.is_unit(),
        unit_join(unit, right).wf(tx, stores),
        ready_scan(right),
        joins_whole_groups(right, Seq::empty()),
    ensures
        right.rows(tx, delta_rule, stores) matches Ok(rows) ==> (unit_join(unit, right).rows(
            tx,
            delta_rule,
            stores,
        ) matches Ok(out) && out.to_set() == rows.to_set() && ((right is Fixed || right.is_scan())
            ==> out == rows)),
        !right.is_scan() && right.rows(tx, delta_rule, stores) is Err ==> unit_join(
            unit,
            right,
        ).rows(tx, delta_rule, stores) == right.rows(tx, delta_rule, stores),
{
    let j = unit_join(unit, right);
    let none = Seq::<usize>::empty();
    let l = Seq::<crate::value::Value>::empty();
    let rs = right.rows(tx, delta_rule, stores);
    let names = j.bindings_before();
    let elim = eliminate_indices(names, Set::<Name>::empty());
    assert(forall|i: int| !eliminated(elim, i));
    assert(unit.wf(tx, stores));
    assert(right.wf(tx, stores));
    let d = unit->Fixed_data[0];
    assert(d.len() == 0);
    assert(d =~= l);
    let ls = unit.rows(tx, delta_rule, stores);
    assert(ls == Ok::<Seq<Row>, EvalError>(seq![l])) by {
        let out = fixed_rows(unit->Fixed_bindings, unit->Fixed_data, unit->Fixed_to_eliminate);
        assert(out[0] == l);
        assert(out =~= seq![l]);
    }
    assert(unit.bindings_after() =~= Seq::<Name>::empty()) by {
        assert(retain(unit->Fixed_bindings, unit->Fixed_to_eliminate) =~= Seq::<Name>::empty());
    }
    assert(unit.width() == 0);
    let li = positions(unit.bindings_after(), Seq::<Name>::empty());
    let ri = positions(right.bindings_after(), Seq::<Name>::empty());
    assert(li =~= none);
    assert(ri =~= none);
    assert(is_prefix(none));
    assert(j.rows(tx, delta_rule, stores) == joined(
        right,
        ls,
        rs,
        none,
        none,
        0,
        elim,
        tx,
        delta_rule,
        stores,
    ));
    lemma_rows_width(right, tx, delta_rule, stores);
    if right is Fixed {
        let rows = rs->Ok_0;
        let step = join_step(rows, none, none, elim);
        assert(project(l, none) =~= l);
        assert forall|i: int| 0 <= i < rows.len() implies matching(none, none, l)(
            #[trigger] rows[i],
        ) by {
            assert(project(rows[i], none) =~= l);
        }
        lemma_select_all(rows, matching(none, none, l));
        lemma_glue_empty(rows, elim);
        lemma_expand_one(l, step);
    } else if right.is_scan() {
        if rs is Ok {
            lemma_unit_scan_joined(right, elim, tx, delta_rule, stores);
        }
    } else {
        lemma_unit_materialized(rs, right.width(), elim);
        if rs is Ok {
            lemma_gathered(rs->Ok_0);
            assert(gathered(rs->Ok_0).to_set() =~= rs->Ok_0.to_set());
        }
    }
}

} // verus!
