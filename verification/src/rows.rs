//! Streams of rows in the model.
//!
//! A stream that has run to its end is a sequence of rows, or the failure
//! that ended it. Two combinators describe every operator: `select` keeps
//! the rows that meet a condition, `expand` replaces each row by the rows
//! that a step makes of it and stops at the first step that fails.

use vstd::prelude::*;

use crate::error::EvalError;
use crate::sorted::strictly_sorted;
use crate::tuple::has_width;
use crate::value::{Row, Tuple};

verus! {

/// What a stream yields: its rows in order, or its failure.
pub type Outcome = Result<Seq<Row>, EvalError>;

/// The outcome of an executable stream in the model.
pub open spec fn rows_result(r: Result<Vec<Tuple>, EvalError>) -> Outcome {
    match r {
        Ok(rows) => Ok(rows.deep_view()),
        Err(e) => Err(e),
    }
}

/// The rows of `rows` that meet `keep`, in their order.
pub open spec fn select(rows: Seq<Row>, keep: spec_fn(Row) -> bool) -> Seq<Row>
    decreases rows.len(),
{
    if rows.len() == 0 {
        rows
    } else if keep(rows.last()) {
        select(rows.drop_last(), keep).push(rows.last())
    } else {
        select(rows.drop_last(), keep)
    }
}

/// The rows that `step` makes of each row of `rows`, one row's after the
/// other's. The first failing step is the failure of the whole.
pub open spec fn expand(rows: Seq<Row>, step: spec_fn(Row) -> Outcome) -> Outcome
    decreases rows.len(),
{
    if rows.len() == 0 {
        Ok(Seq::empty())
    } else {
        match expand(rows.drop_last(), step) {
            Ok(acc) => match step(rows.last()) {
                Ok(out) => Ok(acc + out),
                Err(e) => Err(e),
            },
            Err(e) => Err(e),
        }
    }
}

/// `expand` applied to an outcome: a failed input stays failed.
pub open spec fn then_expand(input: Outcome, step: spec_fn(Row) -> Outcome) -> Outcome {
    match input {
        Ok(rows) => expand(rows, step),
        Err(e) => Err(e),
    }
}

/// One more row in a selection.
pub proof fn lemma_select_step(rows: Seq<Row>, keep: spec_fn(Row) -> bool, i: int)
    requires
        0 <= i < rows.len(),
    ensures
        select(rows.take(i + 1), keep) == if keep(rows[i]) {
            select(rows.take(i), keep).push(rows[i])
        } else {
            select(rows.take(i), keep)
        },
{
    assert(rows.take(i + 1).drop_last() =~= rows.take(i));
}

/// One more row in an expansion.
pub proof fn lemma_expand_step(rows: Seq<Row>, step: spec_fn(Row) -> Outcome, i: int)
    requires
        0 <= i < rows.len(),
    ensures
        expand(rows.take(i + 1), step) == match expand(rows.take(i), step) {
            Ok(acc) => match step(rows[i]) {
                Ok(out) => Ok::<Seq<Row>, EvalError>(acc + out),
                Err(e) => Err(e),
            },
            Err(e) => Err(e),
        },
{
    assert(rows.take(i + 1).drop_last() =~= rows.take(i));
}

/// An expansion that has failed on a prefix of its input has failed.
pub proof fn lemma_expand_failed(rows: Seq<Row>, step: spec_fn(Row) -> Outcome, i: int)
    requires
        0 <= i <= rows.len(),
        expand(rows.take(i), step) is Err,
    ensures
        expand(rows, step) == expand(rows.take(i), step),
    decreases rows.len() - i,
{
    if i < rows.len() {
        lemma_expand_step(rows, step, i);
        lemma_expand_failed(rows, step, i + 1);
    } else {
        assert(rows.take(i) =~= rows);
    }
}

/// A row is selected exactly when it is there and meets the condition.
pub proof fn lemma_select_contains(rows: Seq<Row>, keep: spec_fn(Row) -> bool, r: Row)
    ensures
        select(rows, keep).contains(r) <==> rows.contains(r) && keep(r),
    decreases rows.len(),
{
    if rows.len() > 0 {
        let init = rows.drop_last();
        lemma_select_contains(init, keep, r);
        let s = select(init, keep);
        if rows.contains(r) && keep(r) {
            let k = choose|k: int| 0 <= k < rows.len() && rows[k] == r;
            if k < rows.len() - 1 {
                assert(init[k] == r);
                assert(s.contains(r));
                let j = choose|j: int| 0 <= j < s.len() && s[j] == r;
                assert(select(rows, keep)[j] == r);
            } else {
                assert(select(rows, keep).last() == r);
            }
        }
        if select(rows, keep).contains(r) {
            let j = choose|j: int| 0 <= j < select(rows, keep).len() && select(rows, keep)[j] == r;
            if j < s.len() {
                assert(s[j] == r);
                assert(s.contains(r));
                let k = choose|k: int| 0 <= k < init.len() && init[k] == r;
                assert(rows[k] == r);
            } else {
                assert(rows[rows.len() - 1] == r);
            }
        }
    }
}

/// Every selected row is a row of the input, and the selected rows keep
/// the order of the input: each stands at an index of the input, and the
/// indices increase.
pub proof fn lemma_select_sorted(rows: Seq<Row>, keep: spec_fn(Row) -> bool)
    requires
        strictly_sorted(rows),
    ensures
        strictly_sorted(select(rows, keep)),
    decreases rows.len(),
{
    if rows.len() > 0 {
        let init = rows.drop_last();
        assert forall|i: int, j: int| 0 <= i < j < init.len() implies crate::value::row_lt(
            #[trigger] init[i],
            #[trigger] init[j],
        ) by {
            assert(init[i] == rows[i] && init[j] == rows[j]);
        }
        lemma_select_sorted(init, keep);
        let s = select(init, keep);
        if keep(rows.last()) {
            let out = select(rows, keep);
            assert forall|i: int, j: int| 0 <= i < j < out.len() implies crate::value::row_lt(
                #[trigger] out[i],
                #[trigger] out[j],
            ) by {
                if j < s.len() {
                    assert(crate::value::row_lt(s[i], s[j]));
                } else {
                    lemma_select_contains(init, keep, s[i]);
                    let k = choose|k: int| 0 <= k < init.len() && init[k] == s[i];
                    assert(crate::value::row_lt(rows[k], rows[rows.len() - 1]));
                }
            }
        }
    }
}

/// Selection keeps the width of the rows.
pub proof fn lemma_select_width(rows: Seq<Row>, keep: spec_fn(Row) -> bool, w: int)
    requires
        has_width(rows, w),
    ensures
        has_width(select(rows, keep), w),
    decreases rows.len(),
{
    if rows.len() > 0 {
        let init = rows.drop_last();
        assert forall|i: int| 0 <= i < init.len() implies (#[trigger] init[i]).len() == w by {
            assert(init[i] == rows[i]);
        }
        lemma_select_width(init, keep, w);
        let s = select(init, keep);
        let out = select(rows, keep);
        assert forall|i: int| 0 <= i < out.len() implies (#[trigger] out[i]).len() == w by {
            if i < s.len() {
                assert(out[i] == s[i]);
            } else {
                assert(out[i] == rows[rows.len() - 1]);
            }
        }
    }
}

/// Where every step yields rows of width `w`, so does the expansion.
pub proof fn lemma_expand_width(rows: Seq<Row>, step: spec_fn(Row) -> Outcome, w: int)
    requires
        forall|i: int|
            0 <= i < rows.len() ==> (step(#[trigger] rows[i]) matches Ok(out) ==> has_width(out, w)),
    ensures
        expand(rows, step) matches Ok(out) ==> has_width(out, w),
    decreases rows.len(),
{
    if rows.len() > 0 {
        let init = rows.drop_last();
        assert forall|i: int| 0 <= i < init.len() implies (step(#[trigger] init[i]) matches Ok(
            out,
        ) ==> has_width(out, w)) by {
            assert(init[i] == rows[i]);
        }
        lemma_expand_width(init, step, w);
        assert(rows.last() == rows[rows.len() - 1]);
    }
}

/// Two conditions that agree on every row of the input select alike.
pub proof fn lemma_select_agree(
    rows: Seq<Row>,
    f: spec_fn(Row) -> bool,
    g: spec_fn(Row) -> bool,
)
    requires
        forall|i: int| 0 <= i < rows.len() ==> f(#[trigger] rows[i]) == g(rows[i]),
    ensures
        select(rows, f) == select(rows, g),
    decreases rows.len(),
{
    if rows.len() > 0 {
        let init = rows.drop_last();
        assert forall|i: int| 0 <= i < init.len() implies f(#[trigger] init[i]) == g(init[i]) by {
            assert(init[i] == rows[i]);
        }
        lemma_select_agree(init, f, g);
        assert(rows.last() == rows[rows.len() - 1]);
    }
}

/// Selecting from a concatenation.
pub proof fn lemma_select_concat(a: Seq<Row>, b: Seq<Row>, keep: spec_fn(Row) -> bool)
    ensures
        select(a + b, keep) == select(a, keep) + select(b, keep),
    decreases b.len(),
{
    if b.len() == 0 {
        assert(a + b =~= a);
        assert(select(a, keep) + select(b, keep) =~= select(a, keep));
    } else {
        assert((a + b).drop_last() =~= a + b.drop_last());
        assert((a + b).last() == b.last());
        lemma_select_concat(a, b.drop_last(), keep);
        let x = select(a, keep);
        let y = select(b.drop_last(), keep);
        if keep(b.last()) {
            assert((x + y).push(b.last()) =~= x + y.push(b.last()));
        }
    }
}

/// Nothing is selected where no row meets the condition.
pub proof fn lemma_select_none(rows: Seq<Row>, keep: spec_fn(Row) -> bool)
    requires
        forall|i: int| 0 <= i < rows.len() ==> !keep(#[trigger] rows[i]),
    ensures
        select(rows, keep) == Seq::<Row>::empty(),
    decreases rows.len(),
{
    if rows.len() > 0 {
        let init = rows.drop_last();
        assert forall|i: int| 0 <= i < init.len() implies !keep(#[trigger] init[i]) by {
            assert(init[i] == rows[i]);
        }
        lemma_select_none(init, keep);
        assert(rows.last() == rows[rows.len() - 1]);
    } else {
        assert(rows =~= Seq::<Row>::empty());
    }
}

/// Everything is selected where every row meets the condition.
pub proof fn lemma_select_all(rows: Seq<Row>, keep: spec_fn(Row) -> bool)
    requires
        forall|i: int| 0 <= i < rows.len() ==> keep(#[trigger] rows[i]),
    ensures
        select(rows, keep) == rows,
    decreases rows.len(),
{
    if rows.len() > 0 {
        let init = rows.drop_last();
        assert forall|i: int| 0 <= i < init.len() implies keep(#[trigger] init[i]) by {
            assert(init[i] == rows[i]);
        }
        lemma_select_all(init, keep);
        assert(rows.last() == rows[rows.len() - 1]);
        assert(init.push(rows.last()) =~= rows);
    }
}

/// Expanding a concatenation.
pub proof fn lemma_expand_concat(a: Seq<Row>, b: Seq<Row>, step: spec_fn(Row) -> Outcome)
    ensures
        expand(a + b, step) == match expand(a, step) {
            Ok(x) => match expand(b, step) {
                Ok(y) => Ok::<Seq<Row>, EvalError>(x + y),
                Err(e) => Err(e),
            },
            Err(e) => Err(e),
        },
    decreases b.len(),
{
    if b.len() == 0 {
        assert(a + b =~= a);
        if expand(a, step) is Ok {
            assert(expand(a, step)->Ok_0 + Seq::<Row>::empty() =~= expand(a, step)->Ok_0);
        }
    } else {
        assert((a + b).drop_last() =~= a + b.drop_last());
        assert((a + b).last() == b.last());
        lemma_expand_concat(a, b.drop_last(), step);
        if expand(a, step) is Ok && expand(b.drop_last(), step) is Ok && step(b.last()) is Ok {
            let x = expand(a, step)->Ok_0;
            let y = expand(b.drop_last(), step)->Ok_0;
            let z = step(b.last())->Ok_0;
            assert((x + y) + z =~= x + (y + z));
        }
    }
}

} // verus!
