//! What a plan evaluates to.
//!
//! `Plan::rows` gives, for a plan and the sources it reads, the rows that
//! the stream of the plan yields in order, or the failure that ends it.
//! Every operator is stated by `select` and `expand` over the rows of its
//! inputs; a join is stated strategy by strategy, since the strategy decides
//! the order of its output.

use vstd::prelude::*;

use crate::bounds::{all_are, lower_bounds, upper_bounds};
use crate::bytecode::{code_holds, code_value, Code};
use crate::error::EvalError;
use crate::expr::Term;
use crate::plan::{Codes, Plan};
use crate::rows::{expand, select, then_expand, Outcome};
use crate::sorted::gathered;
use crate::store::{bounded_range, first_of, with_prefix, within, EpochStore, SessionTx};
use crate::symbol::{resolve, Name, SourceSpan};
use crate::tuple::{eliminate_indices, eliminate_row, has_width, in_range, project};
use crate::validity::visible_at;
use crate::value::{Row, Value};

verus! {

/// Whether every predicate of `codes` from position `k` on holds on a row.
/// Predicates are tried in order; the first that does not hold, or fails,
/// decides.
pub open spec fn passes_from(codes: Codes, row: Row, k: int) -> Result<bool, EvalError>
    decreases codes.len() - k,
{
    if k < 0 || k >= codes.len() {
        Ok(true)
    } else {
        match code_holds(codes[k].0, row, codes[k].1) {
            Ok(true) => passes_from(codes, row, k + 1),
            Ok(false) => Ok(false),
            Err(e) => Err(e),
        }
    }
}

/// Whether every predicate of `codes` holds on a row.
pub open spec fn passes(codes: Codes, row: Row) -> Result<bool, EvalError> {
    passes_from(codes, row, 0)
}

/// The step of a scan: a row that passes stays as it is.
pub open spec fn pass_step(codes: Codes) -> spec_fn(Row) -> Outcome {
    |row: Row|
        match passes(codes, row) {
            Ok(true) => Ok(seq![row]),
            Ok(false) => Ok(Seq::empty()),
            Err(e) => Err(e),
        }
}

/// The step of a filter: a row that passes stays, without the eliminated
/// columns.
pub open spec fn filter_step(codes: Codes, elim: Set<usize>) -> spec_fn(Row) -> Outcome {
    |row: Row|
        match passes(codes, row) {
            Ok(true) => Ok(seq![eliminate_row(row, elim)]),
            Ok(false) => Ok(Seq::empty()),
            Err(e) => Err(e),
        }
}

/// The rows of a scan: the rows of its source, filtered where the scan has
/// filters.
pub open spec fn scan_rows(filters: Seq<Term>, codes: Codes, source: Seq<Row>) -> Outcome {
    if filters.len() == 0 {
        Ok(source)
    } else {
        expand(source, pass_step(codes))
    }
}

/// The rows of a literal relation: its data without the eliminated columns.
pub open spec fn fixed_rows(bindings: Seq<Name>, data: Seq<Row>, to_eliminate: Set<Name>) -> Seq<
    Row,
> {
    Seq::new(
        data.len(),
        |i: int| eliminate_row(data[i], eliminate_indices(bindings, to_eliminate)),
    )
}

/// Every index of `idx` is a column of every row of `rows`.
pub open spec fn fits(rows: Seq<Row>, idx: Seq<usize>) -> bool {
    forall|i: int| 0 <= i < rows.len() ==> in_range(idx, (#[trigger] rows[i]).len() as int)
}

/// `row` extended by each of `vs` in turn, without the eliminated columns.
pub open spec fn spread(row: Row, vs: Seq<Value>, elim: Set<usize>) -> Seq<Row> {
    Seq::new(vs.len(), |i: int| eliminate_row(row.push(vs[i]), elim))
}

/// The step of a unification: the row extended by the value of the
/// expression, or by each element of that value where it must be a list.
pub open spec fn unify_step(code: Code, is_multi: bool, span: SourceSpan, elim: Set<usize>)
    -> spec_fn(Row) -> Outcome {
    |row: Row|
        match code_value(code, row) {
            Ok(v) => if is_multi {
                match v {
                    Value::List(vs) => Ok(spread(row, vs, elim)),
                    _ => Err(EvalError::BadSpreadUnification(span)),
                }
            } else {
                Ok(seq![eliminate_row(row.push(v), elim)])
            },
            Err(e) => Err(e),
        }
}

/// The step of a reorder: the columns `indices` of the row.
pub open spec fn reorder_step(indices: Seq<usize>) -> spec_fn(Row) -> Outcome {
    |row: Row| Ok(seq![project(row, indices)])
}

/// Every name of `wanted` is among `names`.
pub open spec fn all_resolve(names: Seq<Name>, wanted: Seq<Name>) -> bool {
    forall|k: int| 0 <= k < wanted.len() ==> resolve(names, #[trigger] wanted[k]) is Some
}

/// The column of each name of `wanted` among `names`.
pub open spec fn positions(names: Seq<Name>, wanted: Seq<Name>) -> Seq<usize> {
    Seq::new(
        wanted.len(),
        |k: int|
            match resolve(names, wanted[k]) {
                Some(i) => i as usize,
                None => 0usize,
            },
    )
}

/// Some row of `right` has the values `key` in the columns `ri`.
pub open spec fn has_partner(right: Seq<Row>, ri: Seq<usize>, key: Row) -> bool {
    exists|j: int| 0 <= j < right.len() && project(#[trigger] right[j], ri) == key
}

/// The step of an anti-join: a left row without a partner stays, without
/// the eliminated columns.
pub open spec fn neg_step(right: Seq<Row>, li: Seq<usize>, ri: Seq<usize>, elim: Set<usize>)
    -> spec_fn(Row) -> Outcome {
    |l: Row|
        if has_partner(right, ri, project(l, li)) {
            Ok(Seq::empty())
        } else {
            Ok(seq![eliminate_row(l, elim)])
        }
}

/// The condition "has in the columns `ri` what `l` has in the columns `li`".
pub open spec fn matching(li: Seq<usize>, ri: Seq<usize>, l: Row) -> spec_fn(Row) -> bool {
    |r: Row| project(r, ri) == project(l, li)
}

/// `l` followed by each of `rs` in turn, without the eliminated columns.
pub open spec fn glue(l: Row, rs: Seq<Row>, elim: Set<usize>) -> Seq<Row> {
    Seq::new(rs.len(), |i: int| eliminate_row(l + rs[i], elim))
}

/// The step of a join with a literal relation: the left row with every
/// matching right row, in the order of the right rows.
pub open spec fn join_step(right: Seq<Row>, li: Seq<usize>, ri: Seq<usize>, elim: Set<usize>)
    -> spec_fn(Row) -> Outcome {
    |l: Row| Ok(glue(l, select(right, matching(li, ri, l)), elim))
}

/// The indices form a prefix: they are the numbers below their count, each
/// once, in some order.
pub open spec fn is_prefix(idx: Seq<usize>) -> bool {
    idx.no_duplicates() && forall|k: int| 0 <= k < idx.len() ==> (#[trigger] idx[k]) < idx.len()
}

/// Different numbers below `w` are at most `w`.
pub proof fn lemma_distinct_bounded(idx: Seq<usize>, w: int)
    requires
        idx.no_duplicates(),
        in_range(idx, w),
        0 <= w,
    ensures
        idx.len() <= w,
{
    let v = Seq::new(idx.len(), |a: int| idx[a] as int);
    assert(v.no_duplicates()) by {
        assert forall|a: int, b: int| 0 <= a < v.len() && 0 <= b < v.len() && a != b implies v[a]
            != v[b] by {
            assert(idx[a] != idx[b]);
        }
    }
    v.unique_seq_to_set();
    vstd::set_lib::lemma_int_range(0, w);
    let range = vstd::set_lib::set_int_range(0, w);
    assert(v.to_set().subset_of(range)) by {
        assert forall|x: int| v.to_set().contains(x) implies range.contains(x) by {
            let a = choose|a: int| 0 <= a < v.len() && v[a] == x;
            assert(idx[a] < w);
        }
    }
    vstd::set_lib::lemma_len_subset(v.to_set(), range);
}

/// Every number below the count of a prefix stands in it.
pub proof fn lemma_prefix_onto(idx: Seq<usize>)
    requires
        is_prefix(idx),
    ensures
        forall|j: int|
            0 <= j < idx.len() ==> 0 <= #[trigger] slot_of(idx, j) < idx.len() && idx[slot_of(
                idx,
                j,
            )] == j,
        forall|a: int| 0 <= a < idx.len() ==> slot_of(idx, (#[trigger] idx[a]) as int) == a,
{
    let n = idx.len() as int;
    let v = Seq::new(idx.len(), |a: int| idx[a] as int);
    assert(v.no_duplicates()) by {
        assert forall|a: int, b: int| 0 <= a < v.len() && 0 <= b < v.len() && a != b implies v[a]
            != v[b] by {
            assert(idx[a] != idx[b]);
        }
    }
    v.unique_seq_to_set();
    vstd::seq_lib::seq_to_set_is_finite(v);
    vstd::set_lib::lemma_int_range(0, n);
    let range = vstd::set_lib::set_int_range(0, n);
    assert(v.to_set().subset_of(range)) by {
        assert forall|x: int| v.to_set().contains(x) implies range.contains(x) by {
            let a = choose|a: int| 0 <= a < v.len() && v[a] == x;
            assert(idx[a] < n);
        }
    }
    vstd::set_lib::lemma_subset_equality(v.to_set(), range);
    assert forall|j: int| 0 <= j < idx.len() implies 0 <= #[trigger] slot_of(idx, j) < idx.len()
        && idx[slot_of(idx, j)] == j by {
        assert(range.contains(j));
        assert(v.to_set().contains(j));
        let a = choose|a: int| 0 <= a < v.len() && v[a] == j;
        assert(0 <= a < idx.len() && idx[a] == j);
    }
    assert forall|a: int| 0 <= a < idx.len() implies slot_of(idx, (#[trigger] idx[a]) as int)
        == a by {
        let j = idx[a] as int;
        let c = slot_of(idx, j);
        assert(0 <= c < idx.len() && idx[c] == j);
        if c != a {
            assert(idx[c] != idx[a]);
        }
    }
}

/// A row that matches a left row in the join columns begins with the
/// prefix that the left row makes.
pub proof fn lemma_partner_has_prefix(r: Row, l: Row, li: Seq<usize>, ri: Seq<usize>)
    requires
        is_prefix(ri),
        li.len() == ri.len(),
        in_range(ri, r.len() as int),
        project(r, ri) == project(l, li),
    ensures
        crate::tuple::starts_with(r, project(l, prefix_columns(li, ri))),
{
    lemma_prefix_onto(ri);
    let p = project(l, prefix_columns(li, ri));
    assert(p.len() == ri.len());
    assert forall|j: int| 0 <= j < p.len() implies r[j] == p[j] by {
        let a = slot_of(ri, j);
        assert(0 <= a < ri.len() && ri[a] == j);
        assert(project(r, ri)[a] == r[ri[a] as int]);
        assert(project(l, li)[a] == l[li[a] as int]);
        assert(prefix_columns(li, ri)[j] == li[a]);
        assert(p[j] == l[prefix_columns(li, ri)[j] as int]);
    }
    if ri.len() > 0 {
        let a = slot_of(ri, ri.len() - 1);
        assert(ri[a] < r.len());
    }
}

/// A row that begins with the prefix that a left row makes matches the
/// left row in the join columns.
pub proof fn lemma_prefix_is_partner(r: Row, l: Row, li: Seq<usize>, ri: Seq<usize>)
    requires
        is_prefix(ri),
        li.len() == ri.len(),
        crate::tuple::starts_with(r, project(l, prefix_columns(li, ri))),
    ensures
        project(r, ri) == project(l, li),
{
    lemma_prefix_onto(ri);
    let p = project(l, prefix_columns(li, ri));
    assert forall|a: int| 0 <= a < ri.len() implies project(r, ri)[a] == project(l, li)[a] by {
        let j = ri[a] as int;
        assert(r[j] == p[j]);
        assert(slot_of(ri, j) == a);
    }
    assert(project(r, ri) =~= project(l, li));
}

/// A place where `j` stands in `idx`.
pub open spec fn slot_of(idx: Seq<usize>, j: int) -> int {
    choose|a: int| 0 <= a < idx.len() && idx[a] == j
}

/// The left columns in the order of the right columns that they are
/// equated with: the `j`-th is the partner of right column `j`.
pub open spec fn prefix_columns(li: Seq<usize>, ri: Seq<usize>) -> Seq<usize> {
    Seq::new(ri.len(), |j: int| li[slot_of(ri, j)])
}

/// The columns below `w` that are not in `ri`, in increasing order.
pub open spec fn others(ri: Seq<usize>, w: int) -> Seq<usize>
    decreases w,
{
    if w <= 0 {
        Seq::empty()
    } else if ri.contains((w - 1) as usize) {
        others(ri, w - 1)
    } else {
        others(ri, w - 1).push((w - 1) as usize)
    }
}

/// The order in which a materialized join stores the columns of a right
/// row: the join columns first, then the others.
pub open spec fn store_order(ri: Seq<usize>, w: int) -> Seq<usize> {
    ri + others(ri, w)
}

/// For each column of a row, its place in the stored order.
pub open spec fn restore_order(stored: Seq<usize>, w: int) -> Seq<usize> {
    Seq::new(w as nat, |c: int| slot_of(stored, c) as usize)
}

/// Each of `rs` with its columns in the order `order`.
pub open spec fn project_all(rs: Seq<Row>, order: Seq<usize>) -> Seq<Row> {
    Seq::new(rs.len(), |i: int| project(rs[i], order))
}

/// `l` followed by each of `ms`, with the columns of the latter brought
/// back to the order of the row, without the eliminated columns.
pub open spec fn glue_restored(l: Row, ms: Seq<Row>, restore: Seq<usize>, elim: Set<usize>) -> Seq<
    Row,
> {
    Seq::new(ms.len(), |i: int| eliminate_row(l + project(ms[i], restore), elim))
}

/// The step of a materialized join: the left row with every stored row
/// that begins with its key, in the order of the store.
pub open spec fn mat_step(mat: Seq<Row>, li: Seq<usize>, restore: Seq<usize>, elim: Set<usize>)
    -> spec_fn(Row) -> Outcome {
    |l: Row| Ok(glue_restored(l, select(mat, with_prefix(project(l, li))), restore, elim))
}

/// The bounds that a prefix scan uses: none where there are no filters or
/// where the filters bound nothing.
pub open spec fn chosen_bounds(filters: Seq<Term>, bindings: Seq<Name>, k: int) -> Option<
    (Row, Row),
> {
    if filters.len() == 0 || k < 0 || k > bindings.len() {
        None
    } else {
        let other = bindings.subrange(k, bindings.len() as int);
        let lo = lower_bounds(filters, other);
        let hi = upper_bounds(filters, other);
        if all_are(lo, Value::Null) && all_are(hi, Value::Bot) {
            None
        } else {
            Some((lo, hi))
        }
    }
}

/// The rows of an in-memory store that a prefix join looks at for one
/// prefix.
pub open spec fn temp_candidates(source: Seq<Row>, prefix: Row, bounds: Option<(Row, Row)>) -> Seq<
    Row,
> {
    match bounds {
        Some((lo, hi)) => select(source, within(prefix + lo, prefix + hi, true)),
        None => select(source, with_prefix(prefix)),
    }
}

/// The rows of a stored relation that a prefix join looks at for one
/// prefix.
pub open spec fn stored_candidates(source: Seq<Row>, prefix: Row, bounds: Option<(Row, Row)>)
    -> Seq<Row> {
    match bounds {
        Some((lo, hi)) => select(source, bounded_range(prefix, lo, hi)),
        None => select(source, with_prefix(prefix)),
    }
}

/// The rows among `candidates` that are visible at `valid_at`.
pub open spec fn visible(candidates: Seq<Row>, key_len: int, valid_at: int) -> Seq<Row> {
    select(candidates, visible_at(candidates, key_len, valid_at))
}

/// What a prefix join makes of a left row and the rows found for it.
pub open spec fn found_step(l: Row, found: Outcome, elim: Set<usize>) -> Outcome {
    match found {
        Ok(fs) => Ok(glue(l, fs, elim)),
        Err(e) => Err(e),
    }
}

/// The kind of source that a prefix join scans.
pub enum ScanKind {
    /// An in-memory store.
    Temp,
    /// A stored relation.
    Stored,
    /// A stored relation as it was at `valid_at`.
    AsOf { key_len: int, valid_at: int },
}

/// The rows of the source that a prefix join looks at for one prefix.
pub open spec fn candidates(
    kind: ScanKind,
    source: Seq<Row>,
    prefix: Row,
    bounds: Option<(Row, Row)>,
) -> Seq<Row> {
    match kind {
        ScanKind::Temp => temp_candidates(source, prefix, bounds),
        ScanKind::Stored => stored_candidates(source, prefix, bounds),
        ScanKind::AsOf { key_len, valid_at } => visible(
            stored_candidates(source, prefix, bounds),
            key_len,
            valid_at,
        ),
    }
}

/// The rows that a prefix join finds for one prefix: the candidates that
/// pass. Over an in-memory store the predicates are applied only where the
/// scan has filters, over a stored relation always.
pub open spec fn found_rows(
    kind: ScanKind,
    source: Seq<Row>,
    filters: Seq<Term>,
    codes: Codes,
    bounds: Option<(Row, Row)>,
    prefix: Row,
) -> Outcome {
    match kind {
        ScanKind::Temp => scan_rows(filters, codes, candidates(kind, source, prefix, bounds)),
        _ => expand(candidates(kind, source, prefix, bounds), pass_step(codes)),
    }
}

/// The step of a prefix join: the left row with every row found under its
/// prefix, in the order of the source.
pub open spec fn prefix_step(
    kind: ScanKind,
    source: Seq<Row>,
    filters: Seq<Term>,
    codes: Codes,
    bounds: Option<(Row, Row)>,
    columns: Seq<usize>,
    elim: Set<usize>,
) -> spec_fn(Row) -> Outcome {
    |l: Row|
        found_step(l, found_rows(kind, source, filters, codes, bounds, project(l, columns)), elim)
}

/// `n` times `Bot`.
pub open spec fn bots(n: int) -> Row {
    Seq::new(n as nat, |i: int| Value::Bot)
}

/// Every value column of the right side is eliminated.
pub open spec fn drops_values(elim: Set<usize>, left_width: int, key_len: int, val_len: int)
    -> bool {
    forall|i: int|
        0 <= i < val_len ==> #[trigger] crate::tuple::eliminated(elim, left_width + key_len + i)
}

/// The step of a point lookup that only asks whether the key is there: the
/// left row with the key and a placeholder for each value column.
pub open spec fn exists_step(
    source: Seq<Row>,
    codes: Codes,
    columns: Seq<usize>,
    val_len: int,
    elim: Set<usize>,
) -> spec_fn(Row) -> Outcome {
    |l: Row|
        {
            let key = project(l, columns);
            match passes(codes, key) {
                Ok(true) => if select(source, with_prefix(key)).len() > 0 {
                    Ok(seq![eliminate_row(l + key + bots(val_len), elim)])
                } else {
                    Ok(Seq::empty())
                },
                Ok(false) => Ok(Seq::empty()),
                Err(e) => Err(e),
            }
        }
}

/// The step of a point lookup that reads the row under the key: the left
/// row with that row, where it matches in every join column and passes.
pub open spec fn get_step(
    source: Seq<Row>,
    key_len: int,
    codes: Codes,
    columns: Seq<usize>,
    elim: Set<usize>,
) -> spec_fn(Row) -> Outcome {
    |l: Row|
        {
            let prefix = project(l, columns);
            match first_of(select(source, with_prefix(prefix.take(key_len)))) {
                Some(found) => if crate::tuple::starts_with(found, prefix) {
                    found_step(l, pass_step(codes)(found), elim)
                } else {
                    Ok(Seq::empty())
                },
                None => Ok(Seq::empty()),
            }
        }
}

/// The step of a join with a stored relation on a prefix of its columns:
/// a point lookup where the prefix makes a whole key, else a prefix scan.
pub open spec fn stored_join_step(
    source: Seq<Row>,
    key_len: int,
    val_len: int,
    filters: Seq<Term>,
    codes: Codes,
    bindings: Seq<Name>,
    li: Seq<usize>,
    ri: Seq<usize>,
    left_width: int,
    elim: Set<usize>,
) -> spec_fn(Row) -> Outcome {
    if ri.len() >= key_len {
        if filters.len() == 0 && ri.len() == key_len && drops_values(
            elim,
            left_width,
            key_len,
            val_len,
        ) {
            exists_step(source, codes, prefix_columns(li, ri), val_len, elim)
        } else {
            get_step(source, key_len, codes, prefix_columns(li, ri), elim)
        }
    } else {
        prefix_step(
            ScanKind::Stored,
            source,
            filters,
            codes,
            chosen_bounds(filters, bindings, ri.len() as int),
            prefix_columns(li, ri),
            elim,
        )
    }
}

/// A materialized join: nothing where the left side is empty; else the
/// failure of the right side, or each left row with the stored right rows
/// that begin with its key.
pub open spec fn materialized(
    left: Outcome,
    right: Outcome,
    li: Seq<usize>,
    ri: Seq<usize>,
    right_width: int,
    elim: Set<usize>,
) -> Outcome {
    match left {
        Ok(ls) => if ls.len() == 0 {
            Ok(Seq::empty())
        } else {
            match right {
                Ok(rs) => expand(
                    ls,
                    mat_step(
                        gathered(project_all(rs, store_order(ri, right_width))),
                        li,
                        restore_order(store_order(ri, right_width), right_width),
                        elim,
                    ),
                ),
                Err(e) => Err(e),
            }
        },
        Err(e) => Err(e),
    }
}

/// The rows of the store `key`, all or only those of the current epoch.
pub open spec fn temp_source(stores: Map<u64, EpochStore>, key: u64, delta_rule: Option<u64>)
    -> Seq<Row> {
    stores[key].scanned(delta_rule == Some(key))
}

/// What a prefix join over the scan `right` makes of the left rows: the
/// strategy that the kind of the scan calls for.
pub open spec fn scan_joined(
    right: Plan,
    ls: Outcome,
    li: Seq<usize>,
    ri: Seq<usize>,
    left_width: int,
    elim: Set<usize>,
    tx: &SessionTx,
    delta_rule: Option<u64>,
    stores: Map<u64, EpochStore>,
) -> Outcome {
    match right {
        Plan::TempStore { bindings, storage_key, filters, codes, .. } => then_expand(
            ls,
            prefix_step(
                ScanKind::Temp,
                temp_source(stores, storage_key, delta_rule),
                filters,
                codes,
                chosen_bounds(filters, bindings, ri.len() as int),
                prefix_columns(li, ri),
                elim,
            ),
        ),
        Plan::Stored { bindings, storage, filters, codes, .. } => then_expand(
            ls,
            stored_join_step(
                tx.rows_of(storage.id),
                storage.key_len,
                storage.val_len,
                filters,
                codes,
                bindings,
                li,
                ri,
                left_width,
                elim,
            ),
        ),
        Plan::StoredWithValidity { bindings, storage, filters, codes, valid_at, .. } => {
            then_expand(
                ls,
                prefix_step(
                    ScanKind::AsOf { key_len: storage.key_len, valid_at },
                    tx.rows_of(storage.id),
                    filters,
                    codes,
                    chosen_bounds(filters, bindings, ri.len() as int),
                    prefix_columns(li, ri),
                    elim,
                ),
            )
        },
        _ => ls,
    }
}

/// What a join makes of the rows of its sides. The strategy goes by the
/// right side: a literal relation is joined row by row; a scan whose join
/// columns form a prefix is joined by prefix; everything else is
/// materialized.
pub open spec fn joined(
    right: Plan,
    ls: Outcome,
    rs: Outcome,
    li: Seq<usize>,
    ri: Seq<usize>,
    left_width: int,
    elim: Set<usize>,
    tx: &SessionTx,
    delta_rule: Option<u64>,
    stores: Map<u64, EpochStore>,
) -> Outcome {
    if right is Fixed {
        then_expand(ls, join_step(rs->Ok_0, li, ri, elim))
    } else if right.is_scan() && is_prefix(ri) {
        scan_joined(right, ls, li, ri, left_width, elim, tx, delta_rule, stores)
    } else {
        materialized(ls, rs, li, ri, right.width(), elim)
    }
}

impl Plan {
    /// The rows that the right side of an anti-join is searched in: all
    /// rows of its source, whatever filters the scan has.
    pub open spec fn source_rows(self, tx: &SessionTx, stores: Map<u64, EpochStore>) -> Seq<Row> {
        match self {
            Plan::TempStore { storage_key, .. } => stores[storage_key].all_rows(),
            Plan::Stored { storage, .. } => tx.rows_of(storage.id),
            _ => Seq::empty(),
        }
    }

    /// The rows that the plan yields, in order, or the failure that ends
    /// its stream.
    pub open spec fn rows(self, tx: &SessionTx, delta_rule: Option<u64>, stores: Map<
        u64,
        EpochStore,
    >) -> Outcome
        decreases self,
    {
        match self {
            Plan::Fixed { bindings, data, to_eliminate, span } => Ok(
                fixed_rows(bindings, data, to_eliminate),
            ),
            Plan::TempStore { bindings, storage_key, filters, codes, span } => scan_rows(
                filters,
                codes,
                temp_source(stores, storage_key, delta_rule),
            ),
            Plan::Stored { bindings, storage, filters, codes, span } => scan_rows(
                filters,
                codes,
                tx.rows_of(storage.id),
            ),
            Plan::StoredWithValidity { bindings, storage, filters, codes, valid_at, span } => {
                scan_rows(
                    filters,
                    codes,
                    visible(tx.rows_of(storage.id), storage.key_len, valid_at),
                )
            },
            Plan::Reorder { relation, new_order } => then_expand(
                relation.rows(tx, delta_rule, stores),
                reorder_step(positions(relation.bindings_after(), new_order)),
            ),
            Plan::Filter { parent, filters, codes, to_eliminate, span } => then_expand(
                parent.rows(tx, delta_rule, stores),
                filter_step(codes, eliminate_indices(parent.bindings_after(), to_eliminate)),
            ),
            Plan::Unification { parent, binding, expr, code, is_multi, to_eliminate, span } => {
                then_expand(
                    parent.rows(tx, delta_rule, stores),
                    unify_step(
                        code,
                        is_multi,
                        span,
                        eliminate_indices(parent.bindings_after().push(binding), to_eliminate),
                    ),
                )
            },
            Plan::NegJoin { left, right, left_keys, right_keys, to_eliminate, span } => {
                then_expand(
                    left.rows(tx, delta_rule, stores),
                    neg_step(
                        right.source_rows(tx, stores),
                        positions(left.bindings_after(), left_keys),
                        positions(right.bindings_after(), right_keys),
                        eliminate_indices(left.bindings_after(), to_eliminate),
                    ),
                )
            },
            Plan::Join { left, right, left_keys, right_keys, to_eliminate, span } => {
                let li = positions(left.bindings_after(), left_keys);
                let ri = positions(right.bindings_after(), right_keys);
                let elim = eliminate_indices(self.bindings_before(), to_eliminate);
                joined(
                    *right,
                    left.rows(tx, delta_rule, stores),
                    right.rows(tx, delta_rule, stores),
                    li,
                    ri,
                    left.width(),
                    elim,
                    tx,
                    delta_rule,
                    stores,
                )
            },
        }
    }

    /// The rows of each key of a stored relation are one: no two rows
    /// agree on all key columns.
    pub open spec fn keys_unique(rows: Seq<Row>, key_len: int) -> bool {
        forall|i: int, j: int|
            0 <= i < j < rows.len() ==> !crate::tuple::starts_with(
                #[trigger] rows[j],
                (#[trigger] rows[i]).take(key_len),
            )
    }

    /// The plan fits its sources and itself: every source is there and in
    /// order, its rows have as many columns as the scan has bindings, a
    /// stored relation has one row under each key, a relation scanned in
    /// time has a validity in the last key column of each row, every name
    /// that an
    /// operator looks up among the bindings of an input is among them, and
    /// no operator has more bindings than a machine can count.
    pub open spec fn wf(self, tx: &SessionTx, stores: Map<u64, EpochStore>) -> bool
        decreases self,
    {
        &&& self.bindings_before().len() <= usize::MAX
        &&& match self {
            Plan::Fixed { bindings, data, .. } => has_width(data, bindings.len() as int),
            Plan::TempStore { bindings, storage_key, .. } => {
                &&& stores.contains_key(storage_key)
                &&& stores[storage_key].wf()
                &&& has_width(stores[storage_key].all_rows(), bindings.len() as int)
                &&& has_width(stores[storage_key].delta_rows(), bindings.len() as int)
            },
            Plan::Stored { bindings, storage, .. } => {
                &&& tx.wf()
                &&& 0 <= storage.key_len
                &&& 0 <= storage.val_len
                &&& bindings.len() == storage.key_len + storage.val_len
                &&& has_width(tx.rows_of(storage.id), bindings.len() as int)
                &&& Plan::keys_unique(tx.rows_of(storage.id), storage.key_len)
            },
            Plan::StoredWithValidity { bindings, storage, .. } => {
                &&& tx.wf()
                &&& 1 <= storage.key_len
                &&& 0 <= storage.val_len
                &&& bindings.len() == storage.key_len + storage.val_len
                &&& has_width(tx.rows_of(storage.id), bindings.len() as int)
                &&& crate::validity::timed(tx.rows_of(storage.id), storage.key_len)
                &&& Plan::keys_unique(tx.rows_of(storage.id), storage.key_len)
            },
            Plan::Reorder { relation, new_order } => {
                &&& relation.wf(tx, stores)
                &&& all_resolve(relation.bindings_after(), new_order)
            },
            Plan::Filter { parent, .. } => parent.wf(tx, stores),
            Plan::Unification { parent, .. } => parent.wf(tx, stores),
            Plan::NegJoin { left, right, left_keys, right_keys, .. } => {
                &&& left.wf(tx, stores)
                &&& right.wf(tx, stores)
                &&& (*right is TempStore || *right is Stored)
                &&& left_keys.len() == right_keys.len()
                &&& all_resolve(left.bindings_after(), left_keys)
                &&& all_resolve(right.bindings_after(), right_keys)
            },
            Plan::Join { left, right, left_keys, right_keys, .. } => {
                &&& left.wf(tx, stores)
                &&& right.wf(tx, stores)
                &&& !(*right is Reorder)
                &&& !(*right is NegJoin)
                &&& left_keys.len() == right_keys.len()
                &&& all_resolve(left.bindings_after(), left_keys)
                &&& all_resolve(right.bindings_after(), right_keys)
                &&& positions(right.bindings_after(), right_keys).no_duplicates()
            },
        }
    }
}

} // verus!
