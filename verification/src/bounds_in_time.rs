//! A scan in time within the bounds that its filters give finds what the
//! scan of the whole prefix finds, where the bounds leave the validity
//! free.
//!
//! A scan in time shows of each group of keys one row at most, and which
//! one goes by all rows of the group that it looks at. Bounds that leave
//! the validity free hold whole groups or nothing of them; so the rows
//! looked at within the bounds show what all rows under the prefix show.

use vstd::prelude::*;

use crate::bounds::{lower_bounds, upper_bounds};
use crate::bounds_sound::{
    lemma_narrowed_scan, lemma_row_within_bounds, lemma_select_twice, lemma_within_has_prefix,
    resolved_against,
};
use crate::equivalences::passing;
use crate::expr::Term;
use crate::plan::compile_all;
use crate::rows::{lemma_select_agree, lemma_select_all, lemma_select_contains, select};
use crate::semantics::{chosen_bounds, found_rows, ScanKind};
use crate::store::{bounded_range, with_prefix};
use crate::symbol::Name;
use crate::tuple::has_width;
use crate::validity::{in_force, same_group, shown, takes_precedence, validity_of, visible_at};
use crate::value::{compare_rows_from, compare_values, Comparison, Row, Value};

verus! {

/// The bounds that the filters give for the columns after the first `k`
/// leave the validity, the last of `key_len` key columns, free.
pub open spec fn spares_validity(filters: Seq<Term>, names: Seq<Name>, k: int, key_len: int)
    -> bool {
    chosen_bounds(filters, names, k) matches Some((lo, hi)) ==> lo[key_len - 1 - k] == Value::Null
        && hi[key_len - 1 - k] == Value::Bot
}

/// A lower bound that leaves the validity free, and is not above one row
/// of a group, is below every row of the group.
pub proof fn lemma_group_above(lower: Row, r: Row, q: Row, key_len: int, i: int)
    requires
        1 <= key_len <= lower.len(),
        key_len <= r.len(),
        key_len <= q.len(),
        forall|j: int| 0 <= j < key_len - 1 ==> r[j] == q[j],
        lower[key_len - 1] == Value::Null,
        q[key_len - 1] is Validity,
        0 <= i <= key_len - 1,
        compare_rows_from(lower, r, i) != Comparison::Greater,
    ensures
        compare_rows_from(lower, q, i) == Comparison::Less,
    decreases key_len - i,
{
    if i < key_len - 1 {
        assert(r[i] == q[i]);
        if compare_values(lower[i], r[i]) == Comparison::Equal {
            lemma_group_above(lower, r, q, key_len, i + 1);
        }
    } else {
        assert(compare_values(lower[i], q[i]) == Comparison::Less);
    }
}

/// An upper bound that leaves the validity free, and is above one row of a
/// group, is above every row of the group.
pub proof fn lemma_group_below(upper: Row, r: Row, q: Row, key_len: int, i: int)
    requires
        1 <= key_len <= upper.len(),
        key_len <= r.len(),
        key_len <= q.len(),
        forall|j: int| 0 <= j < key_len - 1 ==> r[j] == q[j],
        upper[key_len - 1] == Value::Bot,
        q[key_len - 1] is Validity,
        0 <= i <= key_len - 1,
        compare_rows_from(r, upper, i) == Comparison::Less,
    ensures
        compare_rows_from(q, upper, i) == Comparison::Less,
    decreases key_len - i,
{
    if i < key_len - 1 {
        assert(r[i] == q[i]);
        if compare_values(r[i], upper[i]) == Comparison::Equal {
            lemma_group_below(upper, r, q, key_len, i + 1);
        }
    } else {
        assert(compare_values(q[i], upper[i]) == Comparison::Less);
    }
}

/// The bounded scan in time of a prefix join finds what the scan in time
/// of the whole prefix finds, where the latter succeeds: with a prefix
/// that ends before the validity, bounds that leave the validity free,
/// filters that are resolved against the bindings of the scan and
/// compiled, bindings that are distinct, and rows as wide as the bindings
/// are many.
pub proof fn lemma_bounded_scan_in_time(
    source: Seq<Row>,
    filters: Seq<Term>,
    names: Seq<Name>,
    prefix: Row,
    key_len: int,
    valid_at: int,
)
    requires
        names.no_duplicates(),
        resolved_against(filters, names),
        has_width(source, names.len() as int),
        prefix.len() < key_len <= names.len(),
        spares_validity(filters, names, prefix.len() as int, key_len),
        found_rows(
            ScanKind::AsOf { key_len, valid_at },
            source,
            filters,
            compile_all(filters),
            None,
            prefix,
        ) is Ok,
    ensures
        found_rows(
            ScanKind::AsOf { key_len, valid_at },
            source,
            filters,
            compile_all(filters),
            chosen_bounds(filters, names, prefix.len() as int),
            prefix,
        ) == found_rows(
            ScanKind::AsOf { key_len, valid_at },
            source,
            filters,
            compile_all(filters),
            None,
            prefix,
        ),
{
    let codes = compile_all(filters);
    let k = prefix.len() as int;
    let bounds = chosen_bounds(filters, names, k);
    if bounds is Some {
        let other = names.subrange(k, names.len() as int);
        let lo = lower_bounds(filters, other);
        let hi = upper_bounds(filters, other);
        assert(bounds == Some((lo, hi)));
        let lower = prefix + lo;
        let upper = (prefix + hi).push(Value::Bot);
        let under = with_prefix(prefix);
        let range = bounded_range(prefix, lo, hi);
        let wide = select(source, under);
        let narrow = select(source, range);
        let seen_wide = visible_at(wide, key_len, valid_at);
        let seen_narrow = visible_at(narrow, key_len, valid_at);
        let shown_wide = select(wide, seen_wide);
        let all = |r: Row| true;
        // the rows within the bounds are the rows under the prefix that are within them
        assert forall|i: int| 0 <= i < source.len() implies (under(#[trigger] source[i]) && range(
            source[i],
        )) == range(source[i]) by {
            if range(source[i]) {
                lemma_within_has_prefix(prefix, lo, hi, source[i]);
            }
        }
        lemma_select_twice(source, under, range);
        lemma_select_agree(source, |r: Row| under(r) && range(r), range);
        assert(narrow == select(wide, range));
        // within the bounds, a row is shown among the rows within them as it is among all
        assert forall|i: int| 0 <= i < wide.len() implies (range(#[trigger] wide[i])
            && seen_narrow(wide[i])) == (seen_wide(wide[i]) && range(wide[i])) by {
            let r = wide[i];
            if range(r) && in_force(r, key_len, valid_at) {
                let mine = validity_of(r, key_len)->Some_0;
                if shown(wide, key_len, valid_at, r) {
                    assert forall|j: int|
                        0 <= j < narrow.len() && same_group(#[trigger] narrow[j], r, key_len)
                            && in_force(narrow[j], key_len, valid_at) implies takes_precedence(
                        mine,
                        validity_of(narrow[j], key_len)->Some_0,
                    ) by {
                        lemma_select_contains(wide, range, narrow[j]);
                        assert(narrow.contains(narrow[j]));
                        let m = choose|m: int| 0 <= m < wide.len() && wide[m] == narrow[j];
                        assert(same_group(wide[m], r, key_len));
                    }
                }
                if shown(narrow, key_len, valid_at, r) {
                    assert forall|j: int|
                        0 <= j < wide.len() && same_group(#[trigger] wide[j], r, key_len)
                            && in_force(wide[j], key_len, valid_at) implies takes_precedence(
                        mine,
                        validity_of(wide[j], key_len)->Some_0,
                    ) by {
                        let q = wide[j];
                        lemma_group_above(lower, r, q, key_len, 0);
                        lemma_group_below(upper, r, q, key_len, 0);
                        assert(range(q));
                        lemma_select_contains(wide, range, q);
                        assert(wide.contains(q));
                        let m = choose|m: int| 0 <= m < narrow.len() && narrow[m] == q;
                        assert(same_group(narrow[m], r, key_len));
                    }
                }
            }
        }
        lemma_select_twice(wide, range, seen_narrow);
        lemma_select_twice(wide, seen_wide, range);
        lemma_select_agree(
            wide,
            |r: Row| range(r) && seen_narrow(r),
            |r: Row| seen_wide(r) && range(r),
        );
        assert(select(narrow, seen_narrow) == select(shown_wide, range));
        // a row that is shown and passes lies within the bounds
        assert forall|i: int|
            0 <= i < shown_wide.len() && all(#[trigger] shown_wide[i]) && passing(codes)(
                shown_wide[i],
            ) implies range(shown_wide[i]) by {
            let r = shown_wide[i];
            lemma_select_contains(wide, seen_wide, r);
            assert(shown_wide.contains(r));
            lemma_select_contains(source, under, r);
            let m = choose|m: int| 0 <= m < source.len() && source[m] == r;
            lemma_row_within_bounds(filters, names, prefix, r);
        }
        lemma_select_all(shown_wide, all);
        lemma_narrowed_scan(shown_wide, codes, all, range);
    }
}

} // verus!
