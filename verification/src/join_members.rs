//! What a join yields, whatever its strategy: the left rows, each followed
//! by a right row that has in its join columns what the left row has in
//! its own.

use vstd::prelude::*;

use crate::materialize::lemma_mat_step_ok;
use crate::plan::Plan;
use crate::rows::{expand, lemma_select_contains, select, Outcome};
use crate::semantics::{
    glue, glue_restored, is_prefix, join_step, joined, mat_step, matching, materialized,
    project_all, restore_order, store_order,
};
use crate::sorted::gathered;
use crate::store::{with_prefix, EpochStore, SessionTx};
use crate::strategies::{
    lemma_materialized_matches, lemma_prefix_join_is_materialized, restored,
};
use crate::tuple::{has_width, in_range, lemma_eliminate_nothing, project};
use crate::unit_join::{joins_whole_groups, ready_scan};
use crate::value::Row;
use crate::widths::lemma_rows_width;

verus! {

/// `row` is `l` followed by a row of `rs` that matches it.
pub open spec fn paired_with(l: Row, rs: Seq<Row>, li: Seq<usize>, ri: Seq<usize>, row: Row)
    -> bool {
    exists|k: int| 0 <= k < rs.len() && matching(li, ri, l)(#[trigger] rs[k]) && row == l + rs[k]
}

/// `row` is a row of `ls` followed by a row of `rs` that matches it.
pub open spec fn paired(ls: Seq<Row>, rs: Seq<Row>, li: Seq<usize>, ri: Seq<usize>, row: Row)
    -> bool {
    exists|i: int| 0 <= i < ls.len() && paired_with(#[trigger] ls[i], rs, li, ri, row)
}

/// The rows of an expansion that succeeds are the rows that its steps
/// yield, and every step succeeds.
pub proof fn lemma_expand_members(rows: Seq<Row>, step: spec_fn(Row) -> Outcome, row: Row)
    requires
        expand(rows, step) is Ok,
    ensures
        forall|i: int| 0 <= i < rows.len() ==> step(#[trigger] rows[i]) is Ok,
        expand(rows, step)->Ok_0.contains(row) <==> exists|i: int|
            0 <= i < rows.len() && step(#[trigger] rows[i])->Ok_0.contains(row),
    decreases rows.len(),
{
    if rows.len() > 0 {
        let init = rows.drop_last();
        let x = rows.last();
        lemma_expand_members(init, step, row);
        let acc = expand(init, step)->Ok_0;
        let out = step(x)->Ok_0;
        let all = acc + out;
        assert(rows[rows.len() - 1] == x);
        assert forall|i: int| 0 <= i < rows.len() implies step(#[trigger] rows[i]) is Ok by {
            if i < init.len() {
                assert(init[i] == rows[i]);
            }
        }
        if all.contains(row) {
            let j = choose|j: int| 0 <= j < all.len() && all[j] == row;
            if j < acc.len() {
                assert(acc[j] == row);
                assert(acc.contains(row));
                let i = choose|i: int|
                    0 <= i < init.len() && step(#[trigger] init[i])->Ok_0.contains(row);
                assert(init[i] == rows[i]);
            } else {
                assert(out[j - acc.len()] == row);
                assert(out.contains(row));
            }
        }
        if exists|i: int| 0 <= i < rows.len() && step(#[trigger] rows[i])->Ok_0.contains(row) {
            let i = choose|i: int|
                0 <= i < rows.len() && step(#[trigger] rows[i])->Ok_0.contains(row);
            if i < init.len() {
                assert(init[i] == rows[i]);
                assert(acc.contains(row));
                let j = choose|j: int| 0 <= j < acc.len() && acc[j] == row;
                assert(all[j] == row);
            } else {
                let j = choose|j: int| 0 <= j < out.len() && out[j] == row;
                assert(all[acc.len() + j] == row);
            }
        }
    }
}

/// A left row followed by each of the right rows that match it, with no
/// column dropped.
pub proof fn lemma_glue_members(
    l: Row,
    hits: Seq<Row>,
    rs: Seq<Row>,
    li: Seq<usize>,
    ri: Seq<usize>,
    row: Row,
)
    requires
        forall|r: Row| hits.contains(r) <==> rs.contains(r) && matching(li, ri, l)(r),
    ensures
        glue(l, hits, Set::empty()).contains(row) <==> paired_with(l, rs, li, ri, row),
{
    let out = glue(l, hits, Set::empty());
    assert forall|k: int| 0 <= k < hits.len() implies #[trigger] out[k] == l + hits[k] by {
        lemma_eliminate_nothing(l + hits[k], Set::empty());
    }
    if out.contains(row) {
        let k = choose|k: int| 0 <= k < out.len() && out[k] == row;
        assert(hits.contains(hits[k]));
        let m = choose|m: int| 0 <= m < rs.len() && rs[m] == hits[k];
        assert(matching(li, ri, l)(rs[m]) && row == l + rs[m]);
    }
    if paired_with(l, rs, li, ri, row) {
        let m = choose|m: int|
            0 <= m < rs.len() && matching(li, ri, l)(#[trigger] rs[m]) && row == l + rs[m];
        assert(rs.contains(rs[m]));
        let k = choose|k: int| 0 <= k < hits.len() && hits[k] == rs[m];
        assert(out[k] == row);
    }
}

/// The rows of a materialized join that drops no column: each left row
/// followed by each right row that matches it.
pub proof fn lemma_materialized_members(
    ls: Seq<Row>,
    rs: Seq<Row>,
    li: Seq<usize>,
    ri: Seq<usize>,
    w: int,
    row: Row,
)
    requires
        has_width(rs, w),
        0 <= w <= usize::MAX,
        ri.no_duplicates(),
        in_range(ri, w),
        li.len() == ri.len(),
    ensures
        materialized(Ok(ls), Ok(rs), li, ri, w, Set::empty()) is Ok,
        materialized(Ok(ls), Ok(rs), li, ri, w, Set::empty())->Ok_0.contains(row) <==> paired(
            ls,
            rs,
            li,
            ri,
            row,
        ),
{
    let none = Set::<usize>::empty();
    let stored = store_order(ri, w);
    let restore = restore_order(stored, w);
    let mat = gathered(project_all(rs, stored));
    let step = mat_step(mat, li, restore, none);
    lemma_mat_step_ok(ls, mat, li, restore, none);
    if ls.len() > 0 {
        lemma_expand_members(ls, step, row);
        assert forall|i: int| 0 <= i < ls.len() implies step(#[trigger] ls[i])->Ok_0.contains(row)
            == paired_with(ls[i], rs, li, ri, row) by {
            let l = ls[i];
            let ms = select(mat, with_prefix(project(l, li)));
            let found = restored(ms, restore);
            lemma_materialized_matches(rs, l, li, ri, w);
            assert(glue(l, found, none) =~= glue_restored(l, ms, restore, none));
            lemma_glue_members(l, found, rs, li, ri, row);
        }
    } else {
        assert(!Seq::<Row>::empty().contains(row));
    }
}

/// The rows of a join that drops no column, whatever its strategy: each
/// left row followed by each row of the right side that matches it. A
/// right side that is a scan is ready, and joined on whole groups where it
/// is a scan in time.
pub proof fn lemma_join_members(
    right: Plan,
    ls: Seq<Row>,
    li: Seq<usize>,
    ri: Seq<usize>,
    lw: int,
    tx: &SessionTx,
    delta_rule: Option<u64>,
    stores: Map<u64, EpochStore>,
    row: Row,
)
    requires
        right.wf(tx, stores),
        right.width() <= usize::MAX,
        ready_scan(right),
        joins_whole_groups(right, ri),
        ri.no_duplicates(),
        in_range(ri, right.width()),
        li.len() == ri.len(),
        has_width(ls, lw),
        right.rows(tx, delta_rule, stores) is Ok,
        joined(
            right,
            Ok(ls),
            right.rows(tx, delta_rule, stores),
            li,
            ri,
            lw,
            Set::empty(),
            tx,
            delta_rule,
            stores,
        ) is Ok,
    ensures
        joined(
            right,
            Ok(ls),
            right.rows(tx, delta_rule, stores),
            li,
            ri,
            lw,
            Set::empty(),
            tx,
            delta_rule,
            stores,
        )->Ok_0.contains(row) <==> paired(ls, right.rows(tx, delta_rule, stores)->Ok_0, li, ri, row),
{
    let none = Set::<usize>::empty();
    let w = right.width();
    let rs = right.rows(tx, delta_rule, stores)->Ok_0;
    let out = joined(
        right,
        Ok(ls),
        right.rows(tx, delta_rule, stores),
        li,
        ri,
        lw,
        none,
        tx,
        delta_rule,
        stores,
    )->Ok_0;
    lemma_rows_width(right, tx, delta_rule, stores);
    lemma_materialized_members(ls, rs, li, ri, w, row);
    if right is Fixed {
        let step = join_step(rs, li, ri, none);
        lemma_expand_members(ls, step, row);
        assert forall|i: int| 0 <= i < ls.len() implies step(#[trigger] ls[i])->Ok_0.contains(row)
            == paired_with(ls[i], rs, li, ri, row) by {
            let l = ls[i];
            let hits = select(rs, matching(li, ri, l));
            assert forall|r: Row| hits.contains(r) <==> rs.contains(r) && matching(li, ri, l)(
                r,
            ) by {
                lemma_select_contains(rs, matching(li, ri, l), r);
            }
            lemma_glue_members(l, hits, rs, li, ri, row);
        }
    } else if right.is_scan() && is_prefix(ri) {
        lemma_prefix_join_is_materialized(right, ls, li, ri, lw, none, tx, delta_rule, stores);
        let other = materialized(Ok(ls), Ok(rs), li, ri, w, none)->Ok_0;
        vstd::seq_lib::to_multiset_contains(out, row);
        vstd::seq_lib::to_multiset_contains(other, row);
    }
}

} // verus!
