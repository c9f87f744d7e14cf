//! Time travel: which rows of a relation are visible at a point in time.
//!
//! The last key column of a time-travel relation is a validity: the time
//! from which the row holds, and whether the row asserts or retracts. The
//! rows that share the other key columns form a group; at a time `t` the
//! group shows the row in force at `t` with the latest time, an assertion
//! winning over a retraction of the same time, and shows nothing if that
//! row is a retraction.

use vstd::prelude::*;

use crate::value::{clone_tuple, lemma_tuple_view, DataValue, Row, Tuple, Validity, Value};

verus! {

broadcast use vstd::std_specs::vec::group_vec_axioms;

/// The validity that a row carries in its last key column.
pub open spec fn validity_of(row: Row, key_len: int) -> Option<(int, bool)> {
    if 1 <= key_len <= row.len() {
        match row[key_len - 1] {
            Value::Validity { timestamp, is_assert } => Some((timestamp, is_assert)),
            _ => None,
        }
    } else {
        None
    }
}

/// The two rows agree on every key column but the validity.
pub open spec fn same_group(a: Row, b: Row, key_len: int) -> bool {
    &&& 1 <= key_len <= a.len()
    &&& key_len <= b.len()
    &&& forall|i: int| 0 <= i < key_len - 1 ==> a[i] == b[i]
}

/// The row holds from a time that is not after `valid_at`.
pub open spec fn in_force(row: Row, key_len: int, valid_at: int) -> bool {
    validity_of(row, key_len) matches Some(v) && v.0 <= valid_at
}

/// The validity `a` takes precedence over `b`: it is later, or of the
/// same time and an assertion, or the same.
pub open spec fn takes_precedence(a: (int, bool), b: (int, bool)) -> bool {
    a.0 > b.0 || (a.0 == b.0 && (a.1 || !b.1))
}

/// The row `r` is what its group shows at `valid_at`: it is in force,
/// asserts, and takes precedence over every row of the group in force.
pub open spec fn shown(rows: Seq<Row>, key_len: int, valid_at: int, r: Row) -> bool {
    &&& in_force(r, key_len, valid_at)
    &&& validity_of(r, key_len)->Some_0.1
    &&& forall|j: int|
        0 <= j < rows.len() && same_group(#[trigger] rows[j], r, key_len) && in_force(
            rows[j],
            key_len,
            valid_at,
        ) ==> takes_precedence(
            validity_of(r, key_len)->Some_0,
            validity_of(rows[j], key_len)->Some_0,
        )
}

/// The condition "is what its group shows at `valid_at`".
pub open spec fn visible_at(rows: Seq<Row>, key_len: int, valid_at: int) -> spec_fn(Row) -> bool {
    |r: Row| shown(rows, key_len, valid_at, r)
}

/// Every row carries a validity in its last key column.
pub open spec fn timed(rows: Seq<Row>, key_len: int) -> bool {
    forall|i: int| 0 <= i < rows.len() ==> validity_of(#[trigger] rows[i], key_len) is Some
}

/// The validity that a row carries in its last key column.
pub fn validity_of_tuple(t: &Tuple, key_len: usize) -> (r: Option<Validity>)
    ensures
        match r {
            Some(v) => validity_of(t.deep_view(), key_len as int) == Some(
                (v.timestamp as int, v.is_assert),
            ),
            None => validity_of(t.deep_view(), key_len as int) is None,
        },
{
    proof {
        lemma_tuple_view(t);
    }
    if 1 <= key_len && key_len <= t.len() {
        match &t[key_len - 1] {
            DataValue::Validity(v) => Some(*v),
            _ => None,
        }
    } else {
        None
    }
}

/// The key `key` with its last column, the validity, replaced by `last`.
pub open spec fn with_last(key: Row, last: Value) -> Row {
    key.drop_last().push(last)
}

/// What a skip scan does with the key that a seek has found: whether it
/// yields the record, and from where it seeks next.
///
/// A record that is not yet in force at `valid_at` is passed over, and
/// the scan seeks the first record of the same keys that is. A record in
/// force ends its group: the scan seeks past every record of the same
/// keys, and yields the record unless it retracts.
pub fn check_key_for_validity(key: &Tuple, valid_at: i64) -> (r: (Option<Tuple>, Tuple))
    requires
        validity_of(key.deep_view(), key@.len() as int) is Some,
    ensures
        ({
            let k = key.deep_view();
            let v = validity_of(k, k.len() as int)->Some_0;
            if v.0 > valid_at {
                &&& r.0 is None
                &&& r.1.deep_view() == with_last(
                    k,
                    Value::Validity { timestamp: valid_at as int, is_assert: true },
                )
            } else {
                &&& r.1.deep_view() == with_last(k, Value::Bot)
                &&& if v.1 {
                    r.0 matches Some(t) && t.deep_view() == k
                } else {
                    r.0 is None
                }
            }
        }),
{
    proof {
        lemma_tuple_view(key);
    }
    let n = key.len();
    let vld = match validity_of_tuple(key, n) {
        Some(v) => v,
        None => vstd::pervasive::unreached(),
    };
    let mut decoded: Tuple = Vec::new();
    let mut i: usize = 0;
    while i < n - 1
        invariant
            0 <= i <= n - 1,
            n == key@.len(),
            n >= 1,
            decoded@.len() == i,
            forall|j: int| 0 <= j < i ==> (#[trigger] decoded@[j]).deep_view() == key@[j].deep_view(),
        decreases n - 1 - i,
    {
        decoded.push(key[i].clone());
        i = i + 1;
    }
    if vld.timestamp > valid_at {
        let last = DataValue::Validity(Validity { timestamp: valid_at, is_assert: true });
        decoded.push(last);
        proof {
            assert(decoded.deep_view() =~= with_last(key.deep_view(), last.deep_view()));
        }
        (None, decoded)
    } else {
        decoded.push(DataValue::Bot);
        proof {
            assert(decoded.deep_view() =~= with_last(key.deep_view(), Value::Bot));
        }
        if vld.is_assert {
            (Some(clone_tuple(key)), decoded)
        } else {
            (None, decoded)
        }
    }
}

} // verus!
