//! The skip scan: a scan in time that looks at one record of each group
//! of keys, or two, and skips the rest.
//!
//! The records of a group stand together, the latest first. The scan
//! looks at the first record of a group; where that is not yet in force, it
//! seeks the first record of the group that is; a record in force decides
//! the group, and the scan seeks the next group. What it yields is what is
//! visible: see [`skip_scan`].

use vstd::prelude::*;

use crate::plan::Plan;
use crate::ra::ValidityTs;
use crate::rows::{lemma_select_contains, lemma_select_sorted, lemma_select_step, select};
use crate::scan::push_row;
use crate::sorted::{lemma_prefix_convex, lemma_prefix_le, strictly_sorted};
use crate::store::{bounded_range, with_prefix, RelationHandle, SessionTx};
use crate::tuple::{lemma_rows_view, starts_with, take_tuple};
use crate::validity::{
    check_key_for_validity, in_force, same_group, shown, takes_precedence, timed, validity_of,
    visible_at, with_last,
};
use crate::value::{
    clone_tuple, compare_rows_from, compare_tuples, compare_values, lemma_compare_equal,
    lemma_compare_rows_equal, lemma_compare_rows_flip, lemma_compare_rows_trans, lemma_tuple_view,
    row_le, row_lt, Comparison, Row, Tuple, Value,
};

verus! {

broadcast use vstd::std_specs::vec::group_vec_axioms;

/// From where the scan seeks after the record with the key `key`.
pub open spec fn seek_after(key: Row, valid_at: int) -> Row {
    let v = validity_of(key, key.len() as int)->Some_0;
    if v.0 > valid_at {
        with_last(key, Value::Validity { timestamp: valid_at, is_assert: true })
    } else {
        with_last(key, Value::Bot)
    }
}

/// Two rows that agree before a column compare from the start as they
/// compare from that column on.
pub proof fn lemma_compare_from(a: Row, b: Row, m: int, i: int)
    requires
        0 <= i <= m,
        m <= a.len(),
        m <= b.len(),
        forall|k: int| 0 <= k < m ==> a[k] == b[k],
    ensures
        compare_rows_from(a, b, i) == compare_rows_from(a, b, m),
    decreases m - i,
{
    if i < m {
        lemma_compare_equal(a[i], b[i]);
        lemma_compare_from(a, b, m, i + 1);
    }
}

/// The first columns of a row that is not greater than another are not
/// greater than the first columns of the other.
pub proof fn lemma_take_le(a: Row, b: Row, m: int, i: int)
    requires
        0 <= i <= m,
        m <= a.len(),
        m <= b.len(),
        compare_rows_from(a, b, i) != Comparison::Greater,
    ensures
        compare_rows_from(a.take(m), b.take(m), i) != Comparison::Greater,
    decreases m - i,
{
    if i < m {
        assert(a.take(m)[i] == a[i]);
        assert(b.take(m)[i] == b[i]);
        if compare_values(a[i], b[i]) == Comparison::Equal {
            lemma_take_le(a, b, m, i + 1);
        }
    }
}

/// Of two rows in order that agree before a column, the first is not
/// greater in that column.
pub proof fn lemma_next_column(a: Row, b: Row, m: int)
    requires
        0 <= m < a.len(),
        m < b.len(),
        forall|k: int| 0 <= k < m ==> a[k] == b[k],
        row_le(a, b),
    ensures
        compare_values(a[m], b[m]) != Comparison::Greater,
{
    lemma_compare_from(a, b, m, 0);
}

/// Of two keys of one length in strict order that agree before their last
/// column, the first is less in the last column.
pub proof fn lemma_last_column(a: Row, b: Row)
    requires
        a.len() == b.len(),
        a.len() >= 1,
        forall|k: int| 0 <= k < a.len() - 1 ==> a[k] == b[k],
        row_lt(a, b),
    ensures
        compare_values(a.last(), b.last()) == Comparison::Less,
{
    let m = a.len() - 1;
    lemma_compare_from(a, b, m, 0);
    assert(compare_rows_from(a, b, m + 1) == Comparison::Equal);
}

/// The validity that takes precedence is the one that is stored first.
pub proof fn lemma_precedence(a: Value, b: Value)
    requires
        a is Validity,
        b is Validity,
    ensures
        compare_values(a, b) != Comparison::Greater <==> takes_precedence(
            (a->timestamp, a->is_assert),
            (b->timestamp, b->is_assert),
        ),
        compare_values(a, b) == Comparison::Equal <==> a == b,
{
    lemma_compare_equal(a, b);
}

/// The key columns of a row.
pub open spec fn key_of(r: Row, key_len: int) -> Row {
    r.take(key_len)
}

/// The keys of a group: the key columns but the last.
pub open spec fn group_of(r: Row, key_len: int) -> Row {
    r.take(key_len - 1)
}

/// Rows are of one group exactly when the keys of their groups are the
/// same.
pub proof fn lemma_same_group(a: Row, b: Row, key_len: int)
    requires
        1 <= key_len <= a.len(),
        key_len <= b.len(),
    ensures
        same_group(a, b, key_len) <==> group_of(a, key_len) == group_of(b, key_len),
        same_group(a, b, key_len) <==> starts_with(b, group_of(a, key_len)),
{
    let g = group_of(a, key_len);
    let h = group_of(b, key_len);
    if same_group(a, b, key_len) {
        assert(g =~= h);
    }
    if g == h {
        assert forall|i: int| 0 <= i < key_len - 1 implies a[i] == b[i] by {
            assert(g[i] == a[i]);
            assert(h[i] == b[i]);
        }
    }
    if starts_with(b, g) {
        assert forall|i: int| 0 <= i < key_len - 1 implies a[i] == b[i] by {
            assert(g[i] == a[i]);
        }
    }
}

/// The rows can be scanned in time: they are in order, each carries a
/// validity in its last key column, and no two agree on all key columns.
pub open spec fn scannable(rows: Seq<Row>, key_len: int) -> bool {
    &&& strictly_sorted(rows)
    &&& timed(rows, key_len)
    &&& Plan::keys_unique(rows, key_len)
}

/// Rows chosen among rows that can be scanned in time can be scanned in
/// time.
pub proof fn lemma_select_scannable(rows: Seq<Row>, keep: spec_fn(Row) -> bool, key_len: int)
    requires
        scannable(rows, key_len),
    ensures
        scannable(select(rows, keep), key_len),
    decreases rows.len(),
{
    let out = select(rows, keep);
    lemma_select_sorted(rows, keep);
    assert forall|i: int| 0 <= i < out.len() implies validity_of(
        #[trigger] out[i],
        key_len,
    ) is Some by {
        lemma_select_contains(rows, keep, out[i]);
        assert(out.contains(out[i]));
    }
    if rows.len() > 0 {
        let init = rows.drop_last();
        assert(scannable(init, key_len)) by {
            assert forall|i: int, j: int| 0 <= i < j < init.len() implies row_lt(
                #[trigger] init[i],
                #[trigger] init[j],
            ) by {
                assert(init[i] == rows[i] && init[j] == rows[j]);
            }
            assert forall|i: int| 0 <= i < init.len() implies validity_of(
                #[trigger] init[i],
                key_len,
            ) is Some by {
                assert(init[i] == rows[i]);
            }
            assert forall|i: int, j: int| 0 <= i < j < init.len() implies !starts_with(
                #[trigger] init[j],
                (#[trigger] init[i]).take(key_len),
            ) by {
                assert(init[i] == rows[i] && init[j] == rows[j]);
            }
        }
        lemma_select_scannable(init, keep, key_len);
        let s = select(init, keep);
        assert forall|i: int, j: int| 0 <= i < j < out.len() implies !starts_with(
            #[trigger] out[j],
            (#[trigger] out[i]).take(key_len),
        ) by {
            if j < s.len() {
                assert(out[i] == s[i] && out[j] == s[j]);
            } else {
                assert(out[i] == s[i]);
                assert(out[j] == rows.last());
                lemma_select_contains(init, keep, s[i]);
                assert(s.contains(s[i]));
                let k = choose|k: int| 0 <= k < init.len() && init[k] == s[i];
                assert(rows[k] == s[i]);
                assert(rows[rows.len() - 1] == rows.last());
            }
        }
    }
}

/// What one step of the scan has found out: the record looked at is
/// visible exactly when it is in force and asserts; the records passed
/// over are not visible; and no record before the one sought next that is
/// of its group is in force.
pub proof fn lemma_skip_step(rows: Seq<Row>, key_len: int, valid_at: int, i: int, j: int)
    requires
        strictly_sorted(rows),
        timed(rows, key_len),
        Plan::keys_unique(rows, key_len),
        0 <= i < j <= rows.len(),
        forall|m: int|
            0 <= m < i && same_group(#[trigger] rows[m], rows[i], key_len) ==> !in_force(
                rows[m],
                key_len,
                valid_at,
            ),
        forall|m: int|
            i < m < j ==> row_lt(
                key_of(#[trigger] rows[m], key_len),
                seek_after(key_of(rows[i], key_len), valid_at),
            ),
        j < rows.len() ==> !row_lt(
            key_of(rows[j], key_len),
            seek_after(key_of(rows[i], key_len), valid_at),
        ),
    ensures
        shown(rows, key_len, valid_at, rows[i]) == (in_force(rows[i], key_len, valid_at)
            && validity_of(rows[i], key_len)->Some_0.1),
        forall|m: int| i < m < j ==> !shown(rows, key_len, valid_at, #[trigger] rows[m]),
        j < rows.len() ==> forall|m: int|
            0 <= m < j && same_group(#[trigger] rows[m], rows[j], key_len) ==> !in_force(
                rows[m],
                key_len,
                valid_at,
            ),
{
    let k = rows[i];
    let key = key_of(k, key_len);
    let g = group_of(k, key_len);
    let v = validity_of(k, key_len)->Some_0;
    let next = seek_after(key, valid_at);
    let forced = in_force(k, key_len, valid_at);
    assert(validity_of(key, key.len() as int) == validity_of(k, key_len));
    assert(key.drop_last() =~= g);
    assert(starts_with(next, g));
    assert(starts_with(key, g));
    assert(next.len() == key_len);
    // the rows passed over are of the group of the row looked at
    assert forall|m: int| i < m < j implies same_group(k, #[trigger] rows[m], key_len)
        && compare_values(rows[m][key_len - 1], next.last()) == Comparison::Less
        && compare_values(k[key_len - 1], rows[m][key_len - 1]) == Comparison::Less by {
        let r = rows[m];
        let rk = key_of(r, key_len);
        assert(validity_of(r, key_len) is Some);
        assert(row_lt(k, r));
        lemma_take_le(k, r, key_len, 0);
        lemma_prefix_le(key, g);
        lemma_compare_rows_trans(g, key, rk);
        lemma_prefix_convex(g, rk, next);
        assert forall|c: int| 0 <= c < key_len - 1 implies k[c] == r[c] by {
            assert(g[c] == k[c]);
            assert(rk[c] == r[c]);
        }
        assert(rk.last() == r[key_len - 1]);
        assert forall|c: int| 0 <= c < rk.len() - 1 implies rk[c] == next[c] by {
            assert(rk[c] == g[c]);
        }
        lemma_last_column(rk, next);
        lemma_next_column(k, r, key_len - 1);
        lemma_compare_equal(k[key_len - 1], r[key_len - 1]);
        if k[key_len - 1] == r[key_len - 1] {
            assert(key =~= rk);
            assert(starts_with(r, key));
        }
    }
    // the row looked at
    assert(shown(rows, key_len, valid_at, k) == (forced && v.1)) by {
        if forced && v.1 {
            assert forall|m: int|
                0 <= m < rows.len() && same_group(#[trigger] rows[m], k, key_len) && in_force(
                    rows[m],
                    key_len,
                    valid_at,
                ) implies takes_precedence(v, validity_of(rows[m], key_len)->Some_0) by {
                let r = rows[m];
                if m > i {
                    assert(row_lt(k, r));
                    lemma_next_column(k, r, key_len - 1);
                    lemma_precedence(k[key_len - 1], r[key_len - 1]);
                }
            }
        }
    }
    // the rows passed over
    assert forall|m: int| i < m < j implies !shown(rows, key_len, valid_at, #[trigger] rows[m]) by {
        let r = rows[m];
        if !forced {
            lemma_precedence(r[key_len - 1], next.last());
        }
        lemma_precedence(k[key_len - 1], r[key_len - 1]);
        lemma_precedence(r[key_len - 1], k[key_len - 1]);
        crate::value::lemma_compare_flip(k[key_len - 1], r[key_len - 1]);
        if forced {
            assert(same_group(k, r, key_len));
            assert(same_group(rows[i], r, key_len));
        }
    }
    // the row sought next
    if j < rows.len() {
        let q = rows[j];
        let qk = key_of(q, key_len);
        assert(validity_of(q, key_len) is Some);
        lemma_compare_rows_flip(qk, next);
        assert forall|m: int|
            0 <= m < j && same_group(#[trigger] rows[m], q, key_len) implies !in_force(
            rows[m],
            key_len,
            valid_at,
        ) by {
            let r = rows[m];
            assert(validity_of(r, key_len) is Some);
            lemma_same_group(r, q, key_len);
            lemma_same_group(k, q, key_len);
            lemma_same_group(k, r, key_len);
            lemma_same_group(r, k, key_len);
            if same_group(k, q, key_len) {
                // the row sought is of the group: the scan sought within it
                assert forall|c: int| 0 <= c < qk.len() - 1 implies next[c] == qk[c] by {
                    assert(next[c] == g[c]);
                    assert(qk[c] == q[c]);
                }
                if row_lt(next, qk) {
                    lemma_last_column(next, qk);
                } else {
                    lemma_compare_rows_equal(next, qk);
                }
                lemma_extreme(qk.last());
                if m == i {
                } else if m > i {
                    lemma_precedence(r[key_len - 1], next.last());
                }
            } else {
                // the row sought begins a group: no row before it is of that group
                let h = group_of(q, key_len);
                assert(row_lt(r, q));
                lemma_take_le(r, q, key_len, 0);
                if m <= i {
                    if m < i {
                        assert(row_lt(r, k));
                    }
                    lemma_compare_rows_equal(r, k);
                    lemma_take_le(r, k, key_len - 1, 0);
                    assert(row_lt(k, q));
                    lemma_take_le(k, q, key_len - 1, 0);
                    assert(r.take(key_len - 1) == q.take(key_len - 1));
                    lemma_compare_rows_flip(k.take(key_len - 1), r.take(key_len - 1));
                    lemma_compare_rows_equal(k.take(key_len - 1), r.take(key_len - 1));
                    lemma_compare_rows_equal(r.take(key_len - 1), k.take(key_len - 1));
                }
            }
        }
    }
}

/// No validity is `Bot`, and every validity is less than `Bot`.
pub proof fn lemma_extreme(v: Value)
    requires
        v is Validity,
    ensures
        compare_values(v, Value::Bot) == Comparison::Less,
        compare_values(Value::Bot, v) == Comparison::Greater,
{
}

/// The rows among `cands` that are visible at `valid_at`, found by
/// skipping: of each group of keys the scan looks at the first record,
/// seeks the first record in force where that is not, and skips the rest of
/// the group once a record in force has decided it.
pub fn skip_scan(cands: &Vec<Tuple>, key_len: usize, valid_at: i64) -> (r: Vec<Tuple>)
    requires
        scannable(cands.deep_view(), key_len as int),
    ensures
        r.deep_view() == select(
            cands.deep_view(),
            visible_at(cands.deep_view(), key_len as int, valid_at as int),
        ),
{
    let ghost rows = cands.deep_view();
    let ghost keep = visible_at(rows, key_len as int, valid_at as int);
    let mut out: Vec<Tuple> = Vec::new();
    let mut i: usize = 0;
    assert(rows.take(0) =~= Seq::<Row>::empty());
    assert(out.deep_view() =~= Seq::<Row>::empty());
    assert forall|m: int| 0 <= m < cands@.len() implies key_len <= (#[trigger] cands@[m])@.len() by {
        lemma_rows_view(cands);
        lemma_tuple_view(&cands@[m]);
        assert(validity_of(rows[m], key_len as int) is Some);
    }
    while i < cands.len()
        invariant
            0 <= i <= cands@.len(),
            rows == cands.deep_view(),
            forall|m: int| 0 <= m < cands@.len() ==> key_len <= (#[trigger] cands@[m])@.len(),
            keep == visible_at(rows, key_len as int, valid_at as int),
            strictly_sorted(rows),
            timed(rows, key_len as int),
            Plan::keys_unique(rows, key_len as int),
            out.deep_view() == select(rows.take(i as int), keep),
            i < cands@.len() ==> forall|m: int|
                0 <= m < i && same_group(#[trigger] rows[m], rows[i as int], key_len as int)
                    ==> !in_force(rows[m], key_len as int, valid_at as int),
        decreases cands@.len() - i,
    {
        proof {
            lemma_rows_view(cands);
            lemma_tuple_view(&cands@[i as int]);
            assert(validity_of(rows[i as int], key_len as int) is Some);
        }
        let key = take_tuple(&cands[i], key_len);
        proof {
            lemma_tuple_view(&key);
            assert(validity_of(key.deep_view(), key@.len() as int) == validity_of(
                rows[i as int],
                key_len as int,
            ));
        }
        let (emit, next) = check_key_for_validity(&key, valid_at);
        let mut j: usize = i + 1;
        while j < cands.len() && seeks_before(&cands[j], key_len, &next)
            invariant
                i < j <= cands@.len(),
                rows == cands.deep_view(),
                forall|m: int| 0 <= m < cands@.len() ==> key_len <= (#[trigger] cands@[m])@.len(),
                forall|m: int|
                    i < m < j ==> row_lt(key_of(#[trigger] rows[m], key_len as int), next.deep_view()),
            decreases cands@.len() - j,
        {
            proof {
                lemma_rows_view(cands);
            }
            j = j + 1;
        }
        proof {
            lemma_rows_view(cands);
            lemma_skip_step(rows, key_len as int, valid_at as int, i as int, j as int);
            lemma_skipped(rows, keep, i as int, j as int);
        }
        if emit.is_some() {
            push_row(&mut out, clone_tuple(&cands[i]));
        }
        i = j;
    }
    assert(rows.take(i as int) =~= rows);
    out
}

/// Whether the key of a row comes before the place that the scan seeks.
fn seeks_before(row: &Tuple, key_len: usize, next: &Tuple) -> (r: bool)
    requires
        key_len <= row@.len(),
    ensures
        r == row_lt(key_of(row.deep_view(), key_len as int), next.deep_view()),
{
    let key = take_tuple(row, key_len);
    compare_tuples(&key, next) == Comparison::Less
}

/// What is selected up to a row, where the rows after another up to it are
/// not selected.
pub proof fn lemma_skipped(rows: Seq<Row>, keep: spec_fn(Row) -> bool, i: int, j: int)
    requires
        0 <= i < j <= rows.len(),
        forall|m: int| i < m < j ==> !keep(#[trigger] rows[m]),
    ensures
        select(rows.take(j), keep) == if keep(rows[i]) {
            select(rows.take(i), keep).push(rows[i])
        } else {
            select(rows.take(i), keep)
        },
    decreases j - i,
{
    if j == i + 1 {
        lemma_select_step(rows, keep, i);
    } else {
        lemma_skipped(rows, keep, i, j - 1);
        lemma_select_step(rows, keep, j - 1);
    }
}

impl RelationHandle {
    /// The rows of the relation that are visible at `valid_at`.
    pub fn skip_scan_all(&self, tx: &SessionTx, valid_at: ValidityTs) -> (r: Vec<Tuple>)
        requires
            scannable(tx.rows_of(self.id), self.key_len()),
        ensures
            r.deep_view() == select(
                tx.rows_of(self.id),
                visible_at(tx.rows_of(self.id), self.key_len(), valid_at.0 as int),
            ),
    {
        let all = self.scan_all(tx);
        skip_scan(&all, self.metadata.keys.len(), valid_at.0)
    }

    /// The rows that begin with `prefix` and are visible among them at
    /// `valid_at`.
    pub fn skip_scan_prefix(&self, tx: &SessionTx, prefix: &Tuple, valid_at: ValidityTs) -> (r: Vec<
        Tuple,
    >)
        requires
            scannable(tx.rows_of(self.id), self.key_len()),
        ensures
            ({
                let under = select(tx.rows_of(self.id), with_prefix(prefix.deep_view()));
                r.deep_view() == select(
                    under,
                    visible_at(under, self.key_len(), valid_at.0 as int),
                )
            }),
    {
        let under = self.scan_prefix(tx, prefix);
        proof {
            lemma_select_scannable(
                tx.rows_of(self.id),
                with_prefix(prefix.deep_view()),
                self.key_len(),
            );
        }
        skip_scan(&under, self.metadata.keys.len(), valid_at.0)
    }

    /// The rows that begin with `prefix`, whose remaining columns lie
    /// between `lower` and `upper`, and that are visible among them at
    /// `valid_at`.
    pub fn skip_scan_bounded_prefix(
        &self,
        tx: &SessionTx,
        prefix: &Tuple,
        lower: &Tuple,
        upper: &Tuple,
        valid_at: ValidityTs,
    ) -> (r: Vec<Tuple>)
        requires
            scannable(tx.rows_of(self.id), self.key_len()),
        ensures
            ({
                let under = select(
                    tx.rows_of(self.id),
                    bounded_range(prefix.deep_view(), lower.deep_view(), upper.deep_view()),
                );
                r.deep_view() == select(
                    under,
                    visible_at(under, self.key_len(), valid_at.0 as int),
                )
            }),
    {
        let under = self.scan_bounded_prefix(tx, prefix, lower, upper);
        proof {
            lemma_select_scannable(
                tx.rows_of(self.id),
                bounded_range(prefix.deep_view(), lower.deep_view(), upper.deep_view()),
                self.key_len(),
            );
        }
        skip_scan(&under, self.metadata.keys.len(), valid_at.0)
    }
}

} // verus!
