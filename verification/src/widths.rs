//! The rows of a plan have the columns that its bindings name.

use vstd::prelude::*;

use crate::expr::Term;
use crate::plan::{retain, Codes, Plan};
use crate::rows::{expand, lemma_expand_width, lemma_select_width, select, Outcome};
use crate::semantics::{
    bots, candidates, chosen_bounds, drops_values, exists_step, filter_step, fits, fixed_rows,
    found_rows, get_step, glue, glue_restored, is_prefix, join_step, joined, mat_step, matching,
    materialized, neg_step, pass_step, positions, prefix_columns, prefix_step, project_all,
    reorder_step, restore_order, scan_joined, scan_rows, store_order, stored_candidates,
    stored_join_step, temp_source, unify_step, visible, ScanKind,
};
use crate::sorted::gathered;
use crate::store::{bounded_range, with_prefix, within, EpochStore, SessionTx};
use crate::symbol::Name;
use crate::tuple::{
    eliminate_indices, eliminated, has_width, in_range, kept, lemma_eliminate_len, project,
};
use crate::validity::visible_at;
use crate::value::Row;

verus! {

/// As many names are retained as columns are kept.
pub proof fn lemma_retain_len(names: Seq<Name>, gone: Set<Name>)
    requires
        names.len() <= usize::MAX,
    ensures
        retain(names, gone).len() == kept(names.len() as int, eliminate_indices(names, gone)),
    decreases names.len(),
{
    if names.len() > 0 {
        let init = names.drop_last();
        lemma_retain_len(init, gone);
        lemma_kept_agree(
            init.len() as int,
            eliminate_indices(init, gone),
            eliminate_indices(names, gone),
        );
    }
}

/// Two sets of columns that agree below `w` keep the same number of the
/// first `w` columns.
pub proof fn lemma_kept_agree(w: int, a: Set<usize>, b: Set<usize>)
    requires
        forall|i: int| 0 <= i < w ==> eliminated(a, i) == eliminated(b, i),
    ensures
        kept(w, a) == kept(w, b),
    decreases w,
{
    if w > 0 {
        lemma_kept_agree(w - 1, a, b);
    }
}

/// Where no name is gone, all are retained.
pub proof fn lemma_retain_nothing(names: Seq<Name>)
    ensures
        retain(names, Set::empty()) == names,
    decreases names.len(),
{
    if names.len() > 0 {
        lemma_retain_nothing(names.drop_last());
        assert(names.drop_last().push(names.last()) =~= names);
    }
}

/// A left row with each of some right rows of one width, without the
/// eliminated columns, has the columns of both that are kept.
pub proof fn lemma_glue_width(l: Row, rs: Seq<Row>, elim: Set<usize>, rw: int)
    requires
        has_width(rs, rw),
    ensures
        has_width(glue(l, rs, elim), kept(l.len() + rw, elim)),
{
    assert forall|i: int| 0 <= i < glue(l, rs, elim).len() implies (#[trigger] glue(
        l,
        rs,
        elim,
    )[i]).len() == kept(l.len() + rw, elim) by {
        lemma_eliminate_len(l + rs[i], elim);
    }
}

/// Rows of one width fit indices that are in range of that width.
pub proof fn lemma_fits(rows: Seq<Row>, idx: Seq<usize>, w: int)
    requires
        has_width(rows, w),
        in_range(idx, w),
    ensures
        fits(rows, idx),
{
    assert forall|i: int| 0 <= i < rows.len() implies in_range(
        idx,
        (#[trigger] rows[i]).len() as int,
    ) by {}
}

/// The rows of a scan have the width of the rows of its source.
pub proof fn lemma_scan_width(filters: Seq<Term>, codes: Codes, source: Seq<Row>, w: int)
    requires
        has_width(source, w),
    ensures
        scan_rows(filters, codes, source) matches Ok(rs) ==> has_width(rs, w),
        expand(source, pass_step(codes)) matches Ok(rs) ==> has_width(rs, w),
{
    let step = pass_step(codes);
    assert forall|i: int| 0 <= i < source.len() implies (step(#[trigger] source[i]) matches Ok(
        out,
    ) ==> has_width(out, w)) by {
        if step(source[i]) is Ok {
            let out = step(source[i])->Ok_0;
            assert forall|j: int| 0 <= j < out.len() implies (#[trigger] out[j]).len() == w by {
                assert(out[j] == source[i]);
            }
        }
    }
    lemma_expand_width(source, step, w);
}

/// The rows that a prefix join finds have the width of the rows of the
/// source.
pub proof fn lemma_found_width(
    kind: ScanKind,
    source: Seq<Row>,
    filters: Seq<Term>,
    codes: Codes,
    bounds: Option<(Row, Row)>,
    prefix: Row,
    w: int,
)
    requires
        has_width(source, w),
    ensures
        found_rows(kind, source, filters, codes, bounds, prefix) matches Ok(rs) ==> has_width(
            rs,
            w,
        ),
{
    match bounds {
        Some((lo, hi)) => {
            lemma_select_width(source, within(prefix + lo, prefix + hi, true), w);
            lemma_select_width(source, bounded_range(prefix, lo, hi), w);
        },
        None => {
            lemma_select_width(source, with_prefix(prefix), w);
        },
    }
    let stored = stored_candidates(source, prefix, bounds);
    match kind {
        ScanKind::AsOf { key_len, valid_at } => {
            lemma_select_width(stored, visible_at(stored, key_len, valid_at), w);
        },
        _ => {},
    }
    lemma_scan_width(filters, codes, candidates(kind, source, prefix, bounds), w);
}

/// The rows of a join with a literal relation have the columns of both
/// sides that are kept.
pub proof fn lemma_join_step_width(
    rows: Seq<Row>,
    right: Seq<Row>,
    li: Seq<usize>,
    ri: Seq<usize>,
    elim: Set<usize>,
    lw: int,
    rw: int,
)
    requires
        has_width(rows, lw),
        has_width(right, rw),
    ensures
        expand(rows, join_step(right, li, ri, elim)) matches Ok(o) ==> has_width(
            o,
            kept(lw + rw, elim),
        ),
{
    let step = join_step(right, li, ri, elim);
    let w = kept(lw + rw, elim);
    assert forall|i: int| 0 <= i < rows.len() implies (step(#[trigger] rows[i]) matches Ok(
        o,
    ) ==> has_width(o, w)) by {
        let found = select(right, matching(li, ri, rows[i]));
        lemma_select_width(right, matching(li, ri, rows[i]), rw);
        lemma_glue_width(rows[i], found, elim, rw);
    }
    lemma_expand_width(rows, step, w);
}

/// The rows of a prefix join have the columns of both sides that are kept.
pub proof fn lemma_prefix_step_width(
    rows: Seq<Row>,
    kind: ScanKind,
    source: Seq<Row>,
    filters: Seq<Term>,
    codes: Codes,
    bounds: Option<(Row, Row)>,
    cols: Seq<usize>,
    elim: Set<usize>,
    lw: int,
    rw: int,
)
    requires
        has_width(rows, lw),
        has_width(source, rw),
    ensures
        expand(rows, prefix_step(kind, source, filters, codes, bounds, cols, elim)) matches Ok(
            o,
        ) ==> has_width(o, kept(lw + rw, elim)),
{
    let step = prefix_step(kind, source, filters, codes, bounds, cols, elim);
    let w = kept(lw + rw, elim);
    assert forall|i: int| 0 <= i < rows.len() implies (step(#[trigger] rows[i]) matches Ok(
        o,
    ) ==> has_width(o, w)) by {
        let found = found_rows(kind, source, filters, codes, bounds, project(rows[i], cols));
        lemma_found_width(kind, source, filters, codes, bounds, project(rows[i], cols), rw);
        if found is Ok {
            lemma_glue_width(rows[i], found->Ok_0, elim, rw);
        }
    }
    lemma_expand_width(rows, step, w);
}

/// The rows of a lookup by key alone have the columns of both sides that
/// are kept.
pub proof fn lemma_exists_step_width(
    rows: Seq<Row>,
    source: Seq<Row>,
    codes: Codes,
    cols: Seq<usize>,
    val_len: int,
    elim: Set<usize>,
    lw: int,
)
    requires
        has_width(rows, lw),
        0 <= val_len,
    ensures
        expand(rows, exists_step(source, codes, cols, val_len, elim)) matches Ok(o) ==> has_width(
            o,
            kept(lw + cols.len() + val_len, elim),
        ),
{
    let step = exists_step(source, codes, cols, val_len, elim);
    let w = kept(lw + cols.len() + val_len, elim);
    assert forall|i: int| 0 <= i < rows.len() implies (step(#[trigger] rows[i]) matches Ok(
        o,
    ) ==> has_width(o, w)) by {
        let l = rows[i];
        let key = project(l, cols);
        lemma_eliminate_len(l + key + bots(val_len), elim);
        if step(l) is Ok {
            let o = step(l)->Ok_0;
            assert forall|j: int| 0 <= j < o.len() implies (#[trigger] o[j]).len() == w by {}
        }
    }
    lemma_expand_width(rows, step, w);
}

/// The rows of a lookup of the row under a key have the columns of both
/// sides that are kept.
pub proof fn lemma_get_step_width(
    rows: Seq<Row>,
    source: Seq<Row>,
    key_len: int,
    codes: Codes,
    cols: Seq<usize>,
    elim: Set<usize>,
    lw: int,
    rw: int,
)
    requires
        has_width(rows, lw),
        has_width(source, rw),
    ensures
        expand(rows, get_step(source, key_len, codes, cols, elim)) matches Ok(o) ==> has_width(
            o,
            kept(lw + rw, elim),
        ),
{
    let step = get_step(source, key_len, codes, cols, elim);
    let w = kept(lw + rw, elim);
    assert forall|i: int| 0 <= i < rows.len() implies (step(#[trigger] rows[i]) matches Ok(
        o,
    ) ==> has_width(o, w)) by {
        let l = rows[i];
        let prefix = project(l, cols);
        let under = select(source, with_prefix(prefix.take(key_len)));
        lemma_select_width(source, with_prefix(prefix.take(key_len)), rw);
        if under.len() > 0 {
            let found = under[0];
            assert(found.len() == rw);
            assert(has_width(seq![found], rw));
            lemma_glue_width(l, seq![found], elim, rw);
            lemma_glue_width(l, Seq::<Row>::empty(), elim, rw);
        }
    }
    lemma_expand_width(rows, step, w);
}

/// The rows of a join with a stored relation on a prefix have the columns
/// of both sides that are kept.
pub proof fn lemma_stored_step_width(
    rows: Seq<Row>,
    source: Seq<Row>,
    key_len: int,
    val_len: int,
    filters: Seq<Term>,
    codes: Codes,
    bindings: Seq<Name>,
    li: Seq<usize>,
    ri: Seq<usize>,
    elim: Set<usize>,
    lw: int,
)
    requires
        has_width(rows, lw),
        has_width(source, key_len + val_len),
        0 <= key_len,
        0 <= val_len,
    ensures
        expand(
            rows,
            stored_join_step(source, key_len, val_len, filters, codes, bindings, li, ri, lw, elim),
        ) matches Ok(o) ==> has_width(o, kept(lw + key_len + val_len, elim)),
{
    let cols = prefix_columns(li, ri);
    let rw = key_len + val_len;
    if ri.len() >= key_len {
        if filters.len() == 0 && ri.len() == key_len && drops_values(elim, lw, key_len, val_len) {
            lemma_exists_step_width(rows, source, codes, cols, val_len, elim, lw);
        } else {
            lemma_get_step_width(rows, source, key_len, codes, cols, elim, lw, rw);
        }
    } else {
        lemma_prefix_step_width(
            rows,
            ScanKind::Stored,
            source,
            filters,
            codes,
            chosen_bounds(filters, bindings, ri.len() as int),
            cols,
            elim,
            lw,
            rw,
        );
    }
}

/// The rows of a materialized join have the columns of both sides that
/// are kept.
pub proof fn lemma_materialized_width(
    ls: Outcome,
    rs: Outcome,
    li: Seq<usize>,
    ri: Seq<usize>,
    lw: int,
    rw: int,
    elim: Set<usize>,
)
    requires
        0 <= rw,
        ls matches Ok(rows) ==> has_width(rows, lw),
    ensures
        materialized(ls, rs, li, ri, rw, elim) matches Ok(out) ==> has_width(
            out,
            kept(lw + rw, elim),
        ),
{
    if ls is Ok && rs is Ok && ls->Ok_0.len() > 0 {
        let rows = ls->Ok_0;
        let stored = store_order(ri, rw);
        let restore = restore_order(stored, rw);
        let mat = gathered(project_all(rs->Ok_0, stored));
        let step = mat_step(mat, li, restore, elim);
        let w = kept(lw + rw, elim);
        assert forall|i: int| 0 <= i < rows.len() implies (step(#[trigger] rows[i]) matches Ok(
            o,
        ) ==> has_width(o, w)) by {
            let l = rows[i];
            let ms = select(mat, with_prefix(project(l, li)));
            let o = glue_restored(l, ms, restore, elim);
            assert forall|j: int| 0 <= j < o.len() implies (#[trigger] o[j]).len() == w by {
                lemma_eliminate_len(l + project(ms[j], restore), elim);
            }
        }
        lemma_expand_width(rows, step, w);
    }
}

/// The rows of a plan that fits its sources have as many columns as the
/// plan has bindings.
pub proof fn lemma_rows_width(
    p: Plan,
    tx: &SessionTx,
    delta_rule: Option<u64>,
    stores: Map<u64, EpochStore>,
)
    requires
        p.wf(tx, stores),
    ensures
        p.rows(tx, delta_rule, stores) matches Ok(rs) ==> has_width(rs, p.width()),
    decreases p, 1int,
{
    match p {
        Plan::Fixed { bindings, data, to_eliminate, span } => {
            lemma_retain_len(bindings, to_eliminate);
            let rs = fixed_rows(bindings, data, to_eliminate);
            assert forall|i: int| 0 <= i < rs.len() implies (#[trigger] rs[i]).len()
                == p.width() by {
                lemma_eliminate_len(data[i], eliminate_indices(bindings, to_eliminate));
            }
        },
        Plan::TempStore { bindings, storage_key, filters, codes, span } => {
            lemma_scan_width(
                filters,
                codes,
                temp_source(stores, storage_key, delta_rule),
                bindings.len() as int,
            );
        },
        Plan::Stored { bindings, storage, filters, codes, span } => {
            lemma_scan_width(filters, codes, tx.rows_of(storage.id), bindings.len() as int);
        },
        Plan::StoredWithValidity { bindings, storage, filters, codes, valid_at, span } => {
            let all = tx.rows_of(storage.id);
            lemma_select_width(
                all,
                visible_at(all, storage.key_len, valid_at),
                bindings.len() as int,
            );
            lemma_scan_width(
                filters,
                codes,
                visible(all, storage.key_len, valid_at),
                bindings.len() as int,
            );
        },
        Plan::Reorder { relation, new_order } => {
            let input = relation.rows(tx, delta_rule, stores);
            if input is Ok {
                let rows = input->Ok_0;
                let step = reorder_step(positions(relation.bindings_after(), new_order));
                assert forall|i: int| 0 <= i < rows.len() implies (step(
                    #[trigger] rows[i],
                ) matches Ok(o) ==> has_width(o, new_order.len() as int)) by {}
                lemma_expand_width(rows, step, new_order.len() as int);
            }
        },
        Plan::Filter { parent, filters, codes, to_eliminate, span } => {
            let input = parent.rows(tx, delta_rule, stores);
            lemma_rows_width(*parent, tx, delta_rule, stores);
            if input is Ok {
                let rows = input->Ok_0;
                let names = parent.bindings_after();
                let elim = eliminate_indices(names, to_eliminate);
                let step = filter_step(codes, elim);
                lemma_retain_len(names, to_eliminate);
                assert forall|i: int| 0 <= i < rows.len() implies (step(
                    #[trigger] rows[i],
                ) matches Ok(o) ==> has_width(o, p.width())) by {
                    lemma_eliminate_len(rows[i], elim);
                }
                lemma_expand_width(rows, step, p.width());
            }
        },
        Plan::Unification { parent, binding, expr, code, is_multi, to_eliminate, span } => {
            let input = parent.rows(tx, delta_rule, stores);
            lemma_rows_width(*parent, tx, delta_rule, stores);
            if input is Ok {
                let rows = input->Ok_0;
                let names = parent.bindings_after().push(binding);
                let elim = eliminate_indices(names, to_eliminate);
                let step = unify_step(code, is_multi, span, elim);
                lemma_retain_len(names, to_eliminate);
                assert forall|i: int| 0 <= i < rows.len() implies (step(
                    #[trigger] rows[i],
                ) matches Ok(o) ==> has_width(o, p.width())) by {
                    if step(rows[i]) is Ok {
                        let o = step(rows[i])->Ok_0;
                        assert forall|j: int| 0 <= j < o.len() implies (#[trigger] o[j]).len()
                            == p.width() by {
                            let v = crate::bytecode::code_value(code, rows[i])->Ok_0;
                            if is_multi {
                                lemma_eliminate_len(rows[i].push(v->List_0[j]), elim);
                            } else {
                                lemma_eliminate_len(rows[i].push(v), elim);
                            }
                        }
                    }
                }
                lemma_expand_width(rows, step, p.width());
            }
        },
        Plan::NegJoin { left, right, left_keys, right_keys, to_eliminate, span } => {
            let input = left.rows(tx, delta_rule, stores);
            lemma_rows_width(*left, tx, delta_rule, stores);
            if input is Ok {
                let rows = input->Ok_0;
                let names = left.bindings_after();
                let elim = eliminate_indices(names, to_eliminate);
                let step = neg_step(
                    right.source_rows(tx, stores),
                    positions(left.bindings_after(), left_keys),
                    positions(right.bindings_after(), right_keys),
                    elim,
                );
                lemma_retain_len(names, to_eliminate);
                assert forall|i: int| 0 <= i < rows.len() implies (step(
                    #[trigger] rows[i],
                ) matches Ok(o) ==> has_width(o, p.width())) by {
                    lemma_eliminate_len(rows[i], elim);
                }
                lemma_expand_width(rows, step, p.width());
            }
        },
        Plan::Join { left, right, left_keys, right_keys, to_eliminate, span } => {
            lemma_join_width(p, tx, delta_rule, stores);
        },
    }
}

/// The rows of a join have as many columns as the join has bindings.
pub proof fn lemma_join_width(
    p: Plan,
    tx: &SessionTx,
    delta_rule: Option<u64>,
    stores: Map<u64, EpochStore>,
)
    requires
        p is Join,
        p.wf(tx, stores),
    ensures
        p.rows(tx, delta_rule, stores) matches Ok(rs) ==> has_width(rs, p.width()),
    decreases p, 0int,
{
    let left = *p->Join_left;
    let right = *p->Join_right;
    let names = p.bindings_before();
    let li = positions(left.bindings_after(), p->Join_left_keys);
    let ri = positions(right.bindings_after(), p->Join_right_keys);
    let elim = eliminate_indices(names, p->Join_to_eliminate);
    let lw = left.width();
    let rw = right.width();
    assert(names.len() == lw + rw);
    lemma_retain_len(names, p->Join_to_eliminate);
    let ls = left.rows(tx, delta_rule, stores);
    let rs = right.rows(tx, delta_rule, stores);
    lemma_rows_width(left, tx, delta_rule, stores);
    lemma_rows_width(right, tx, delta_rule, stores);
    lemma_joined_width(right, ls, rs, li, ri, lw, elim, tx, delta_rule, stores);
}

/// What a prefix join over a scan makes of left rows of one width has the
/// columns of both sides that are kept.
pub proof fn lemma_scan_joined_width(
    right: Plan,
    ls: Outcome,
    li: Seq<usize>,
    ri: Seq<usize>,
    lw: int,
    elim: Set<usize>,
    tx: &SessionTx,
    delta_rule: Option<u64>,
    stores: Map<u64, EpochStore>,
)
    requires
        right.is_scan(),
        right.wf(tx, stores),
        ls matches Ok(rows) ==> has_width(rows, lw),
    ensures
        scan_joined(right, ls, li, ri, lw, elim, tx, delta_rule, stores) matches Ok(o)
            ==> has_width(o, kept(lw + right.width(), elim)),
{
    if ls is Ok {
        let rows = ls->Ok_0;
        let rw = right.width();
        match right {
            Plan::TempStore { bindings, storage_key, filters, codes, .. } => {
                lemma_prefix_step_width(
                    rows,
                    ScanKind::Temp,
                    temp_source(stores, storage_key, delta_rule),
                    filters,
                    codes,
                    chosen_bounds(filters, bindings, ri.len() as int),
                    prefix_columns(li, ri),
                    elim,
                    lw,
                    rw,
                );
            },
            Plan::Stored { bindings, storage, filters, codes, .. } => {
                lemma_stored_step_width(
                    rows,
                    tx.rows_of(storage.id),
                    storage.key_len,
                    storage.val_len,
                    filters,
                    codes,
                    bindings,
                    li,
                    ri,
                    elim,
                    lw,
                );
            },
            Plan::StoredWithValidity { bindings, storage, filters, codes, valid_at, .. } => {
                lemma_prefix_step_width(
                    rows,
                    ScanKind::AsOf { key_len: storage.key_len, valid_at },
                    tx.rows_of(storage.id),
                    filters,
                    codes,
                    chosen_bounds(filters, bindings, ri.len() as int),
                    prefix_columns(li, ri),
                    elim,
                    lw,
                    rw,
                );
            },
            _ => {},
        }
    }
}

/// What a join makes of rows of one width on either side has the columns
/// of both sides that are kept.
pub proof fn lemma_joined_width(
    right: Plan,
    ls: Outcome,
    rs: Outcome,
    li: Seq<usize>,
    ri: Seq<usize>,
    lw: int,
    elim: Set<usize>,
    tx: &SessionTx,
    delta_rule: Option<u64>,
    stores: Map<u64, EpochStore>,
)
    requires
        right.wf(tx, stores),
        ls matches Ok(rows) ==> has_width(rows, lw),
        rs matches Ok(rows) ==> has_width(rows, right.width()),
        right is Fixed ==> rs is Ok,
    ensures
        joined(right, ls, rs, li, ri, lw, elim, tx, delta_rule, stores) matches Ok(o)
            ==> has_width(o, kept(lw + right.width(), elim)),
{
    let rw = right.width();
    if right is Fixed {
        if ls is Ok {
            lemma_join_step_width(ls->Ok_0, rs->Ok_0, li, ri, elim, lw, rw);
        }
    } else if right.is_scan() && is_prefix(ri) {
        lemma_scan_joined_width(right, ls, li, ri, lw, elim, tx, delta_rule, stores);
    } else {
        lemma_materialized_width(ls, rs, li, ri, lw, rw, elim);
    }
}

} // verus!
