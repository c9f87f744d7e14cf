//! The sources that a query reads: in-memory epoch stores and a snapshot of
//! the stored relations.
//!
//! Both hold their rows in strictly increasing order. Every scan yields
//! rows in that order.

use std::collections::BTreeMap;
use vstd::prelude::*;

use crate::rows::{lemma_select_concat, lemma_select_none, lemma_select_step, select};
use crate::sorted::{
    clone_rows, inserted, is_lower_bound, lemma_prefix_run, lower_bound, strictly_sorted, TupleSet,
};
use crate::tuple::{concat_tuples, lemma_rows_view, starts_with, tuple_starts_with};
use crate::value::{
    clone_tuple, compare_tuples, lemma_compare_rows_flip, lemma_compare_rows_trans, row_le, row_lt,
    Comparison, DataValue, Row, Tuple, Value,
};

verus! {

broadcast use {
    vstd::std_specs::btree::group_btree_axioms,
    vstd::laws_cmp::group_laws_cmp,
    vstd::std_specs::vec::group_vec_axioms,
};

/// The condition "begins with `p`".
pub open spec fn with_prefix(p: Row) -> spec_fn(Row) -> bool {
    |r: Row| starts_with(r, p)
}

/// The condition "not less than `lower` and not greater than `upper`", or
/// "less than `upper`" where the upper end is not included.
pub open spec fn within(lower: Row, upper: Row, upper_inclusive: bool) -> spec_fn(Row) -> bool {
    |r: Row|
        row_le(lower, r) && if upper_inclusive {
            row_le(r, upper)
        } else {
            row_lt(r, upper)
        }
}

/// Where no row from the place `i` on meets a condition, the rows that meet
/// it are those among the rows before `i`.
pub proof fn lemma_select_head(rows: Seq<Row>, keep: spec_fn(Row) -> bool, i: int)
    requires
        0 <= i <= rows.len(),
        forall|j: int| i <= j < rows.len() ==> !keep(#[trigger] rows[j]),
    ensures
        select(rows, keep) == select(rows.take(i), keep),
{
    let head = rows.take(i);
    let rest = rows.skip(i);
    assert(head + rest =~= rows);
    lemma_select_concat(head, rest, keep);
    assert forall|j: int| 0 <= j < rest.len() implies !keep(#[trigger] rest[j]) by {
        assert(rest[j] == rows[i + j]);
    }
    lemma_select_none(rest, keep);
    assert(select(head, keep) + Seq::<Row>::empty() =~= select(head, keep));
}

/// Where no row before the place `i` meets a condition, none of them is
/// selected.
pub proof fn lemma_select_skipped(rows: Seq<Row>, keep: spec_fn(Row) -> bool, i: int)
    requires
        0 <= i <= rows.len(),
        forall|j: int| 0 <= j < i ==> !keep(#[trigger] rows[j]),
    ensures
        select(rows.take(i), keep) == Seq::<Row>::empty(),
{
    let head = rows.take(i);
    assert forall|j: int| 0 <= j < head.len() implies !keep(#[trigger] head[j]) by {
        assert(head[j] == rows[j]);
    }
    lemma_select_none(head, keep);
}

/// The rows of the sorted `rows` that begin with `prefix`, in order: a
/// seek to the place of the prefix, and a walk from there to the first row
/// that does not begin with it.
pub fn scan_with_prefix(rows: &Vec<Tuple>, prefix: &Tuple) -> (r: Vec<Tuple>)
    requires
        strictly_sorted(rows.deep_view()),
    ensures
        r.deep_view() == select(rows.deep_view(), with_prefix(prefix.deep_view())),
{
    let ghost all = rows.deep_view();
    let ghost p = prefix.deep_view();
    let ghost keep = with_prefix(p);
    let start = lower_bound(rows, prefix);
    let mut out: Vec<Tuple> = Vec::new();
    let mut i: usize = start;
    proof {
        lemma_rows_view(rows);
        lemma_prefix_run(all, p, start as int);
        lemma_select_skipped(all, keep, start as int);
        assert(out.deep_view() =~= Seq::<Row>::empty());
    }
    while i < rows.len() && tuple_starts_with(&rows[i], prefix)
        invariant
            start <= i <= rows@.len(),
            all == rows.deep_view(),
            p == prefix.deep_view(),
            keep == with_prefix(p),
            is_lower_bound(all, p, start as int),
            out.deep_view() == select(all.take(i as int), keep),
        decreases rows@.len() - i,
    {
        proof {
            lemma_rows_view(rows);
            lemma_select_step(all, keep, i as int);
        }
        let ghost before = out.deep_view();
        let t = clone_tuple(&rows[i]);
        out.push(t);
        assert(out.deep_view() =~= before.push(t.deep_view()));
        i = i + 1;
    }
    proof {
        lemma_rows_view(rows);
        lemma_prefix_run(all, p, start as int);
        assert forall|j: int| i <= j < all.len() implies !keep(#[trigger] all[j]) by {
            assert(!starts_with(all[i as int], p));
        }
        lemma_select_head(all, keep, i as int);
    }
    out
}

/// The rows of the sorted `rows` between `lower` and `upper`, in order: a
/// seek to the place of `lower`, and a walk from there to the first row
/// beyond `upper`.
pub fn scan_within(rows: &Vec<Tuple>, lower: &Tuple, upper: &Tuple, upper_inclusive: bool) -> (r:
    Vec<Tuple>)
    requires
        strictly_sorted(rows.deep_view()),
    ensures
        r.deep_view() == select(
            rows.deep_view(),
            within(lower.deep_view(), upper.deep_view(), upper_inclusive),
        ),
{
    let ghost all = rows.deep_view();
    let ghost lo = lower.deep_view();
    let ghost hi = upper.deep_view();
    let ghost keep = within(lo, hi, upper_inclusive);
    let start = lower_bound(rows, lower);
    let mut out: Vec<Tuple> = Vec::new();
    let mut i: usize = start;
    proof {
        lemma_rows_view(rows);
        assert forall|j: int| 0 <= j < start implies !keep(#[trigger] all[j]) by {
            lemma_compare_rows_flip(all[j], lo);
        }
        lemma_select_skipped(all, keep, start as int);
        assert(out.deep_view() =~= Seq::<Row>::empty());
    }
    while i < rows.len() && reaches(&rows[i], upper, upper_inclusive)
        invariant
            start <= i <= rows@.len(),
            all == rows.deep_view(),
            lo == lower.deep_view(),
            hi == upper.deep_view(),
            keep == within(lo, hi, upper_inclusive),
            is_lower_bound(all, lo, start as int),
            out.deep_view() == select(all.take(i as int), keep),
        decreases rows@.len() - i,
    {
        proof {
            lemma_rows_view(rows);
            lemma_select_step(all, keep, i as int);
        }
        let ghost before = out.deep_view();
        let t = clone_tuple(&rows[i]);
        out.push(t);
        assert(out.deep_view() =~= before.push(t.deep_view()));
        i = i + 1;
    }
    proof {
        lemma_rows_view(rows);
        assert forall|j: int| i <= j < all.len() implies !keep(#[trigger] all[j]) by {
            if j > i {
                assert(row_lt(all[i as int], all[j]));
                if keep(all[j]) {
                    lemma_compare_rows_trans(all[i as int], all[j], hi);
                }
            }
        }
        lemma_select_head(all, keep, i as int);
    }
    out
}

/// Whether a row is not beyond `upper`: not greater than it, or less than
/// it where the upper end is not included.
fn reaches(row: &Tuple, upper: &Tuple, upper_inclusive: bool) -> (r: bool)
    ensures
        r == if upper_inclusive {
            row_le(row.deep_view(), upper.deep_view())
        } else {
            row_lt(row.deep_view(), upper.deep_view())
        },
{
    let c = compare_tuples(row, upper);
    if upper_inclusive {
        c != Comparison::Greater
    } else {
        c == Comparison::Less
    }
}

/// An in-memory relation of derived rows: all rows put so far, and those
/// put in the current epoch.
#[derive(Debug)]
pub struct EpochStore {
    pub total: TupleSet,
    pub delta: TupleSet,
}

impl EpochStore {
    /// Both parts are in strictly increasing order.
    pub open spec fn wf(&self) -> bool {
        self.total.wf() && self.delta.wf()
    }

    /// All rows ever put, in order.
    pub open spec fn all_rows(&self) -> Seq<Row> {
        self.total@
    }

    /// The rows put in the current epoch, in order.
    pub open spec fn delta_rows(&self) -> Seq<Row> {
        self.delta@
    }

    /// The rows that a scan reads: those of the current epoch for a delta
    /// scan, all rows otherwise.
    pub open spec fn scanned(&self, delta: bool) -> Seq<Row> {
        if delta {
            self.delta_rows()
        } else {
            self.all_rows()
        }
    }

    /// A store without rows.
    pub fn new() -> (r: EpochStore)
        ensures
            r.wf(),
            r.all_rows() == Seq::<Row>::empty(),
            r.delta_rows() == Seq::<Row>::empty(),
    {
        EpochStore { total: TupleSet::new(), delta: TupleSet::new() }
    }

    /// Puts a row into the store. A row that the store did not hold
    /// belongs to the current epoch; a row that it held changes nothing.
    /// Returns whether the store did not hold the row before.
    pub fn put(&mut self, tuple: Tuple) -> (r: bool)
        requires
            old(self).wf(),
        ensures
            final(self).wf(),
            r == !old(self).all_rows().contains(tuple.deep_view()),
            final(self).all_rows() == inserted(old(self).all_rows(), tuple.deep_view()),
            final(self).delta_rows() == if r {
                inserted(old(self).delta_rows(), tuple.deep_view())
            } else {
                old(self).delta_rows()
            },
    {
        let copy = clone_tuple(&tuple);
        let fresh = self.total.insert(tuple);
        if fresh {
            let _ = self.delta.insert(copy);
        }
        fresh
    }

    /// Begins a new epoch: no row belongs to it yet.
    pub fn end_epoch(&mut self)
        requires
            old(self).wf(),
        ensures
            final(self).wf(),
            final(self).all_rows() == old(self).all_rows(),
            final(self).delta_rows() == Seq::<Row>::empty(),
    {
        self.delta = TupleSet::new();
    }

    /// All rows ever put.
    pub fn all_iter(&self) -> (r: Vec<Tuple>)
        ensures
            r.deep_view() == self.all_rows(),
    {
        clone_rows(&self.total.rows)
    }

    /// The rows put in the current epoch.
    pub fn delta_all_iter(&self) -> (r: Vec<Tuple>)
        ensures
            r.deep_view() == self.delta_rows(),
    {
        clone_rows(&self.delta.rows)
    }

    /// The rows that begin with `prefix`.
    pub fn prefix_iter(&self, prefix: &Tuple) -> (r: Vec<Tuple>)
        requires
            self.wf(),
        ensures
            r.deep_view() == select(self.all_rows(), with_prefix(prefix.deep_view())),
    {
        scan_with_prefix(&self.total.rows, prefix)
    }

    /// The rows of the current epoch that begin with `prefix`.
    pub fn delta_prefix_iter(&self, prefix: &Tuple) -> (r: Vec<Tuple>)
        requires
            self.wf(),
        ensures
            r.deep_view() == select(self.delta_rows(), with_prefix(prefix.deep_view())),
    {
        scan_with_prefix(&self.delta.rows, prefix)
    }

    /// The rows between `lower` and `upper`.
    pub fn range_iter(&self, lower: &Tuple, upper: &Tuple, upper_inclusive: bool) -> (r: Vec<
        Tuple,
    >)
        requires
            self.wf(),
        ensures
            r.deep_view() == select(
                self.all_rows(),
                within(lower.deep_view(), upper.deep_view(), upper_inclusive),
            ),
    {
        scan_within(&self.total.rows, lower, upper, upper_inclusive)
    }

    /// The rows of the current epoch between `lower` and `upper`.
    pub fn delta_range_iter(&self, lower: &Tuple, upper: &Tuple, upper_inclusive: bool) -> (r:
        Vec<Tuple>)
        requires
            self.wf(),
        ensures
            r.deep_view() == select(
                self.delta_rows(),
                within(lower.deep_view(), upper.deep_view(), upper_inclusive),
            ),
    {
        scan_within(&self.delta.rows, lower, upper, upper_inclusive)
    }
}

/// The kind of values that a column holds.
#[derive(Clone, Copy, Debug, PartialEq, Eq, Structural)]
pub enum ColType {
    Any,
    Bool,
    Int,
    String,
    List,
    Validity,
}

/// The typing of a column: its kind, and whether it may hold `Null`.
#[derive(Clone, Copy, Debug, PartialEq, Eq, Structural)]
pub struct NullableColType {
    pub coltype: ColType,
    pub nullable: bool,
}

/// A column of a stored relation.
#[derive(Debug)]
pub struct ColumnDef {
    pub name: String,
    pub typing: NullableColType,
}

/// The key columns and the value columns of a stored relation.
#[derive(Debug)]
pub struct StoredRelationMetadata {
    pub keys: Vec<ColumnDef>,
    pub non_keys: Vec<ColumnDef>,
}

/// A reference to a stored relation.
#[derive(Debug)]
pub struct RelationHandle {
    pub name: String,
    pub id: u64,
    pub metadata: StoredRelationMetadata,
}

/// A snapshot of the stored relations, each under its identifier.
#[derive(Debug)]
pub struct SessionTx {
    pub relations: BTreeMap<u64, TupleSet>,
}

impl SessionTx {
    /// Every relation is in strictly increasing order.
    pub open spec fn wf(&self) -> bool {
        forall|id: u64| #[trigger]
            self.relations@.contains_key(id) ==> self.relations@[id].wf()
    }

    /// The rows of the relation `id`, in order; none where the snapshot
    /// has no such relation.
    pub open spec fn rows_of(&self, id: u64) -> Seq<Row> {
        if self.relations@.contains_key(id) {
            self.relations@[id]@
        } else {
            Seq::empty()
        }
    }

    /// A snapshot without relations.
    pub fn new() -> (r: SessionTx)
        ensures
            r.wf(),
            forall|id: u64| r.rows_of(id) == Seq::<Row>::empty(),
    {
        SessionTx { relations: BTreeMap::new() }
    }

    /// Puts a row into the relation `id`.
    pub fn put(&mut self, id: u64, tuple: Tuple)
        requires
            old(self).wf(),
        ensures
            final(self).wf(),
            final(self).rows_of(id) == inserted(old(self).rows_of(id), tuple.deep_view()),
            forall|other: u64| other != id ==> final(self).rows_of(other) == old(self).rows_of(other),
    {
        let ghost row = tuple.deep_view();
        let ghost before = self.rows_of(id);
        let mut set = match self.relations.remove(&id) {
            Some(s) => s,
            None => TupleSet::new(),
        };
        assert(set@ == before);
        let _ = set.insert(tuple);
        let _ = self.relations.insert(id, set);
        assert(forall|other: u64| other != id ==> self.rows_of(other) == old(self).rows_of(other));
    }

    /// The rows of the relation `id`.
    pub fn scan(&self, id: u64) -> (r: Vec<Tuple>)
        ensures
            r.deep_view() == self.rows_of(id),
    {
        match self.relations.get(&id) {
            Some(set) => clone_rows(&set.rows),
            None => {
                let out: Vec<Tuple> = Vec::new();
                assert(out.deep_view() =~= Seq::<Row>::empty());
                out
            },
        }
    }
}

/// The bounds of a bounded prefix scan as rows: the prefix followed by the
/// lower bounds, and the prefix followed by the upper bounds and `Bot`.
pub open spec fn bounded_range(prefix: Row, lower: Row, upper: Row) -> spec_fn(Row) -> bool {
    within(prefix + lower, (prefix + upper).push(Value::Bot), false)
}

/// The first row of `rows`, if there is one.
pub open spec fn first_of(rows: Seq<Row>) -> Option<Row> {
    if rows.len() > 0 {
        Some(rows[0])
    } else {
        None
    }
}

impl RelationHandle {
    /// The number of key columns.
    pub open spec fn key_len(&self) -> int {
        self.metadata.keys@.len() as int
    }

    /// The number of value columns.
    pub open spec fn val_len(&self) -> int {
        self.metadata.non_keys@.len() as int
    }

    /// The number of columns.
    pub open spec fn arity(&self) -> int {
        self.key_len() + self.val_len()
    }

    /// All rows of the relation.
    pub fn scan_all(&self, tx: &SessionTx) -> (r: Vec<Tuple>)
        ensures
            r.deep_view() == tx.rows_of(self.id),
    {
        tx.scan(self.id)
    }

    /// The rows that begin with `prefix`.
    pub fn scan_prefix(&self, tx: &SessionTx, prefix: &Tuple) -> (r: Vec<Tuple>)
        requires
            strictly_sorted(tx.rows_of(self.id)),
        ensures
            r.deep_view() == select(tx.rows_of(self.id), with_prefix(prefix.deep_view())),
    {
        match tx.relations.get(&self.id) {
            Some(set) => scan_with_prefix(&set.rows, prefix),
            None => {
                let out: Vec<Tuple> = Vec::new();
                assert(out.deep_view() =~= Seq::<Row>::empty());
                out
            },
        }
    }

    /// The rows that begin with `prefix` and whose remaining columns lie
    /// between `lower` and `upper`.
    pub fn scan_bounded_prefix(
        &self,
        tx: &SessionTx,
        prefix: &Tuple,
        lower: &Tuple,
        upper: &Tuple,
    ) -> (r: Vec<Tuple>)
        requires
            strictly_sorted(tx.rows_of(self.id)),
        ensures
            r.deep_view() == select(
                tx.rows_of(self.id),
                bounded_range(prefix.deep_view(), lower.deep_view(), upper.deep_view()),
            ),
    {
        let lower_t = concat_tuples(prefix, lower);
        let mut upper_t = concat_tuples(prefix, upper);
        let ghost before = upper_t.deep_view();
        upper_t.push(DataValue::Bot);
        assert(upper_t.deep_view() =~= before.push(Value::Bot));
        match tx.relations.get(&self.id) {
            Some(set) => scan_within(&set.rows, &lower_t, &upper_t, false),
            None => {
                let out: Vec<Tuple> = Vec::new();
                assert(out.deep_view() =~= Seq::<Row>::empty());
                out
            },
        }
    }

    /// The row under the key `key`: the first row that begins with it.
    pub fn get(&self, tx: &SessionTx, key: &Tuple) -> (r: Option<Tuple>)
        requires
            strictly_sorted(tx.rows_of(self.id)),
        ensures
            r.deep_view() == first_of(
                select(tx.rows_of(self.id), with_prefix(key.deep_view())),
            ),
    {
        let mut found = self.scan_prefix(tx, key);
        proof {
            lemma_rows_view(&found);
        }
        if found.len() > 0 {
            Some(found.swap_remove(0))
        } else {
            None
        }
    }

    /// Whether there is a row under the key `key`.
    pub fn key_exists(&self, tx: &SessionTx, key: &Tuple) -> (r: bool)
        requires
            strictly_sorted(tx.rows_of(self.id)),
        ensures
            r == (select(tx.rows_of(self.id), with_prefix(key.deep_view())).len() > 0),
    {
        let found = self.scan_prefix(tx, key);
        proof {
            lemma_rows_view(&found);
        }
        found.len() > 0
    }
}

} // verus!
