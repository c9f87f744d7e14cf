//! Sets of rows kept in order.
//!
//! A [`TupleSet`] holds rows in strictly increasing order, so that no row
//! occurs twice and a binary search finds the place of any row.

use vstd::prelude::*;

use crate::tuple::{lemma_rows_view, starts_with};
use crate::value::{
    clone_tuple, compare_rows_from, compare_tuples, lemma_compare_equal, lemma_compare_flip,
    lemma_compare_rows_equal, lemma_compare_rows_flip, lemma_compare_rows_trans, row_le, row_lt,
    Comparison, Row, Tuple,
};

verus! {

broadcast use vstd::std_specs::vec::group_vec_axioms;

/// Each row precedes every later one strictly.
pub open spec fn strictly_sorted(rows: Seq<Row>) -> bool {
    forall|i: int, j: int| 0 <= i < j < rows.len() ==> row_lt(#[trigger] rows[i], #[trigger] rows[j])
}

/// Each row precedes every later one, or equals it.
pub open spec fn sorted(rows: Seq<Row>) -> bool {
    forall|i: int, j: int| 0 <= i < j < rows.len() ==> row_le(#[trigger] rows[i], #[trigger] rows[j])
}

/// `k` is where `key` belongs in `rows`: every row before it is less than
/// `key`, and no row from it on is.
pub open spec fn is_lower_bound(rows: Seq<Row>, key: Row, k: int) -> bool {
    &&& 0 <= k <= rows.len()
    &&& forall|i: int| 0 <= i < k ==> row_lt(#[trigger] rows[i], key)
    &&& forall|i: int| k <= i < rows.len() ==> row_le(key, #[trigger] rows[i])
}

/// A place where `key` belongs in `rows`.
pub open spec fn lower_bound_of(rows: Seq<Row>, key: Row) -> int {
    choose|k: int| is_lower_bound(rows, key, k)
}

/// `rows` with `r` in its place; `rows` itself where it holds `r` already.
pub open spec fn inserted(rows: Seq<Row>, r: Row) -> Seq<Row> {
    if rows.contains(r) {
        rows
    } else {
        rows.insert(lower_bound_of(rows, r), r)
    }
}

/// The rows of `rows` in strictly increasing order, each once.
pub open spec fn gathered(rows: Seq<Row>) -> Seq<Row>
    decreases rows.len(),
{
    if rows.len() == 0 {
        rows
    } else {
        inserted(gathered(rows.drop_last()), rows.last())
    }
}

/// There is one place where a row belongs.
pub proof fn lemma_lower_bound_unique(rows: Seq<Row>, key: Row, k1: int, k2: int)
    requires
        is_lower_bound(rows, key, k1),
        is_lower_bound(rows, key, k2),
    ensures
        k1 == k2,
{
    if k1 < k2 {
        lemma_compare_rows_flip(rows[k1], key);
    } else if k2 < k1 {
        lemma_compare_rows_flip(rows[k2], key);
    }
}

/// In sorted rows every row has its place.
pub proof fn lemma_lower_bound_exists(rows: Seq<Row>, key: Row)
    requires
        strictly_sorted(rows),
    ensures
        is_lower_bound(rows, key, lower_bound_of(rows, key)),
    decreases rows.len(),
{
    if rows.len() == 0 {
        assert(is_lower_bound(rows, key, 0));
    } else {
        let init = rows.drop_last();
        assert forall|i: int, j: int| 0 <= i < j < init.len() implies row_lt(
            #[trigger] init[i],
            #[trigger] init[j],
        ) by {
            assert(init[i] == rows[i] && init[j] == rows[j]);
        }
        lemma_lower_bound_exists(init, key);
        let k0 = lower_bound_of(init, key);
        let n = rows.len() - 1;
        lemma_compare_rows_flip(rows[n], key);
        if k0 < n {
            assert(init[k0] == rows[k0]);
            lemma_compare_rows_trans(key, rows[k0], rows[n]);
            assert forall|i: int| k0 <= i < rows.len() implies row_le(key, #[trigger] rows[i]) by {
                if i < n {
                    assert(init[i] == rows[i]);
                }
            }
            assert forall|i: int| 0 <= i < k0 implies row_lt(#[trigger] rows[i], key) by {
                assert(init[i] == rows[i]);
            }
            assert(is_lower_bound(rows, key, k0));
        } else {
            assert forall|i: int| 0 <= i < n implies row_lt(#[trigger] rows[i], key) by {
                assert(init[i] == rows[i]);
            }
            if row_lt(rows[n], key) {
                assert(is_lower_bound(rows, key, n + 1));
            } else {
                assert(is_lower_bound(rows, key, n));
            }
        }
    }
}

/// Putting a row in its place keeps the order, and adds the row to the
/// set of rows.
pub proof fn lemma_inserted(rows: Seq<Row>, r: Row)
    requires
        strictly_sorted(rows),
    ensures
        strictly_sorted(inserted(rows, r)),
        forall|x: Row| inserted(rows, r).contains(x) <==> (rows.contains(x) || x == r),
{
    let out = inserted(rows, r);
    if !rows.contains(r) {
        lemma_lower_bound_exists(rows, r);
        let k = lower_bound_of(rows, r);
        if k < rows.len() {
            assert(rows.contains(rows[k]));
        }
        lemma_absent(rows, r, k);
        assert forall|i: int, j: int| 0 <= i < j < out.len() implies row_lt(
            #[trigger] out[i],
            #[trigger] out[j],
        ) by {
            if j < k {
            } else if j == k {
                assert(row_lt(rows[i], r));
            } else if i == k {
                assert(row_lt(r, rows[j - 1]));
            } else if i < k {
                assert(row_lt(rows[i], rows[j - 1]));
            } else {
                assert(row_lt(rows[i - 1], rows[j - 1]));
            }
        }
        assert forall|x: Row| out.contains(x) <==> (rows.contains(x) || x == r) by {
            if out.contains(x) {
                let j = choose|j: int| 0 <= j < out.len() && out[j] == x;
                if j < k {
                    assert(rows[j] == x);
                } else if j > k {
                    assert(rows[j - 1] == x);
                }
            }
            if rows.contains(x) {
                let j = choose|j: int| 0 <= j < rows.len() && rows[j] == x;
                if j < k {
                    assert(out[j] == x);
                } else {
                    assert(out[j + 1] == x);
                }
            }
            if x == r {
                assert(out[k] == x);
            }
        }
    }
}

/// Gathered rows are in strictly increasing order and are the rows that
/// were gathered.
pub proof fn lemma_gathered(rows: Seq<Row>)
    ensures
        strictly_sorted(gathered(rows)),
        forall|x: Row| gathered(rows).contains(x) <==> rows.contains(x),
    decreases rows.len(),
{
    if rows.len() > 0 {
        let init = rows.drop_last();
        lemma_gathered(init);
        lemma_inserted(gathered(init), rows.last());
        assert forall|x: Row| gathered(rows).contains(x) <==> rows.contains(x) by {
            if rows.contains(x) {
                let j = choose|j: int| 0 <= j < rows.len() && rows[j] == x;
                if j < rows.len() - 1 {
                    assert(init[j] == x);
                }
            }
            if init.contains(x) {
                let j = choose|j: int| 0 <= j < init.len() && init[j] == x;
                assert(rows[j] == x);
            }
            assert(rows[rows.len() - 1] == rows.last());
        }
    }
}

/// A row that begins with `p` is not less than `p`.
pub proof fn lemma_prefix_le(r: Row, p: Row)
    requires
        starts_with(r, p),
    ensures
        row_le(p, r),
{
    lemma_prefix_le_from(r, p, 0);
}

proof fn lemma_prefix_le_from(r: Row, p: Row, i: int)
    requires
        starts_with(r, p),
        0 <= i <= p.len(),
    ensures
        compare_rows_from(p, r, i) != Comparison::Greater,
    decreases p.len() - i,
{
    if i < p.len() {
        lemma_compare_equal(p[i], r[i]);
        lemma_prefix_le_from(r, p, i + 1);
    }
}

/// Between a prefix and a row that begins with it, every row begins with
/// it.
pub proof fn lemma_prefix_convex(p: Row, r: Row, q: Row)
    requires
        row_le(p, r),
        row_le(r, q),
        starts_with(q, p),
    ensures
        starts_with(r, p),
{
    lemma_prefix_convex_from(p, r, q, 0);
}

proof fn lemma_prefix_convex_from(p: Row, r: Row, q: Row, i: int)
    requires
        0 <= i <= p.len(),
        i <= r.len(),
        forall|j: int| 0 <= j < i ==> r[j] == p[j],
        compare_rows_from(p, r, i) != Comparison::Greater,
        compare_rows_from(r, q, i) != Comparison::Greater,
        starts_with(q, p),
    ensures
        starts_with(r, p),
    decreases p.len() - i,
{
    if i < p.len() {
        assert(i < r.len());
        lemma_compare_flip(p[i], r[i]);
        lemma_compare_equal(p[i], r[i]);
        assert(q[i] == p[i]);
        lemma_prefix_convex_from(p, r, q, i + 1);
    }
}

/// In sorted rows, the rows that begin with `p` stand together, from the
/// place where `p` belongs on: no row before that place begins with `p`,
/// and after the first row from there on that does not, none does.
pub proof fn lemma_prefix_run(rows: Seq<Row>, p: Row, lb: int)
    requires
        strictly_sorted(rows),
        is_lower_bound(rows, p, lb),
    ensures
        forall|i: int| 0 <= i < lb ==> !starts_with(#[trigger] rows[i], p),
        forall|k: int, j: int|
            lb <= k <= j < rows.len() && !starts_with(#[trigger] rows[k], p) ==> !starts_with(
                #[trigger] rows[j],
                p,
            ),
{
    assert forall|i: int| 0 <= i < lb implies !starts_with(#[trigger] rows[i], p) by {
        if starts_with(rows[i], p) {
            lemma_prefix_le(rows[i], p);
            lemma_compare_rows_flip(rows[i], p);
        }
    }
    assert forall|k: int, j: int|
        lb <= k <= j < rows.len() && !starts_with(#[trigger] rows[k], p) implies !starts_with(
        #[trigger] rows[j],
        p,
    ) by {
        if k < j && starts_with(rows[j], p) {
            assert(row_lt(rows[k], rows[j]));
            lemma_prefix_convex(p, rows[k], rows[j]);
        }
    }
}

/// Rows in strictly increasing order.
#[derive(Debug)]
pub struct TupleSet {
    pub rows: Vec<Tuple>,
}

impl View for TupleSet {
    type V = Seq<Row>;

    open spec fn view(&self) -> Seq<Row> {
        self.rows.deep_view()
    }
}

impl TupleSet {
    /// The rows are in strictly increasing order.
    pub open spec fn wf(&self) -> bool {
        strictly_sorted(self@)
    }

    /// The empty set.
    pub fn new() -> (r: TupleSet)
        ensures
            r.wf(),
            r@ == Seq::<Row>::empty(),
    {
        let r = TupleSet { rows: Vec::new() };
        assert(r@ =~= Seq::<Row>::empty());
        r
    }

    /// The number of rows.
    pub fn len(&self) -> (r: usize)
        ensures
            r == self@.len(),
    {
        self.rows.len()
    }

    /// The place where `key` belongs.
    pub fn lower_bound(&self, key: &Tuple) -> (k: usize)
        requires
            self.wf(),
        ensures
            is_lower_bound(self@, key.deep_view(), k as int),
    {
        lower_bound(&self.rows, key)
    }

    /// Whether the set holds the row `t`.
    pub fn contains(&self, t: &Tuple) -> (r: bool)
        requires
            self.wf(),
        ensures
            r == self@.contains(t.deep_view()),
    {
        let k = lower_bound(&self.rows, t);
        proof {
            lemma_rows_view(&self.rows);
        }
        if k < self.rows.len() {
            let c = compare_tuples(&self.rows[k], t);
            proof {
                lemma_compare_rows_equal(self@[k as int], t.deep_view());
                if c != Comparison::Equal {
                    lemma_absent(self@, t.deep_view(), k as int);
                }
            }
            c == Comparison::Equal
        } else {
            proof {
                lemma_absent(self@, t.deep_view(), k as int);
            }
            false
        }
    }

    /// Adds the row `t`, in its place; a set that holds it already stays
    /// as it is. Returns whether the row was new.
    pub fn insert(&mut self, t: Tuple) -> (r: bool)
        requires
            old(self).wf(),
        ensures
            final(self).wf(),
            r == !old(self)@.contains(t.deep_view()),
            final(self)@ == inserted(old(self)@, t.deep_view()),
    {
        let k = lower_bound(&self.rows, &t);
        let ghost before = self@;
        let ghost row = t.deep_view();
        proof {
            lemma_rows_view(&self.rows);
        }
        if k < self.rows.len() {
            let c = compare_tuples(&self.rows[k], &t);
            proof {
                lemma_compare_rows_equal(before[k as int], row);
            }
            if c == Comparison::Equal {
                return false;
            }
        }
        proof {
            lemma_absent(before, row, k as int);
            lemma_lower_bound_unique(before, row, k as int, lower_bound_of(before, row));
        }
        self.rows.insert(k, t);
        proof {
            lemma_rows_view(&self.rows);
            assert(self@ =~= before.insert(k as int, row));
            lemma_inserted(before, row);
        }
        true
    }
}

/// Where the lower bound of `key` does not hold `key`, no place does.
pub proof fn lemma_absent(rows: Seq<Row>, key: Row, k: int)
    requires
        strictly_sorted(rows),
        is_lower_bound(rows, key, k),
        k < rows.len() ==> rows[k] != key,
    ensures
        !rows.contains(key),
        forall|i: int| k <= i < rows.len() ==> row_lt(key, #[trigger] rows[i]),
{
    assert forall|i: int| 0 <= i < rows.len() implies rows[i] != key by {
        lemma_compare_rows_equal(rows[i], key);
        lemma_compare_rows_equal(key, rows[i]);
        if i > k {
            lemma_compare_rows_trans(key, rows[k], rows[i]);
        }
    }
    assert forall|i: int| k <= i < rows.len() implies row_lt(key, #[trigger] rows[i]) by {
        lemma_compare_rows_equal(key, rows[i]);
    }
}

/// The place where `key` belongs among the sorted rows `mat`, found by
/// binary search.
pub fn lower_bound(mat: &Vec<Tuple>, key: &Tuple) -> (k: usize)
    requires
        strictly_sorted(mat.deep_view()),
    ensures
        is_lower_bound(mat.deep_view(), key.deep_view(), k as int),
{
    let ghost rows = mat.deep_view();
    let ghost target = key.deep_view();
    let mut lo: usize = 0;
    let mut hi: usize = mat.len();
    proof {
        lemma_rows_view(mat);
    }
    while lo < hi
        invariant
            0 <= lo <= hi <= mat@.len(),
            rows == mat.deep_view(),
            target == key.deep_view(),
            rows.len() == mat@.len(),
            strictly_sorted(rows),
            forall|i: int| 0 <= i < lo ==> row_lt(#[trigger] rows[i], target),
            forall|i: int| hi <= i < rows.len() ==> row_le(target, #[trigger] rows[i]),
        decreases hi - lo,
    {
        let mid = lo + (hi - lo) / 2;
        let c = compare_tuples(&mat[mid], key);
        proof {
            lemma_rows_view(mat);
            lemma_compare_rows_flip(rows[mid as int], target);
        }
        match c {
            Comparison::Less => {
                proof {
                    assert forall|i: int| 0 <= i < mid + 1 implies row_lt(
                        #[trigger] rows[i],
                        target,
                    ) by {
                        if i < mid {
                            lemma_compare_rows_trans(rows[i], rows[mid as int], target);
                        }
                    }
                }
                lo = mid + 1;
            },
            _ => {
                proof {
                    assert forall|i: int| mid <= i < rows.len() implies row_le(
                        target,
                        #[trigger] rows[i],
                    ) by {
                        if i > mid {
                            lemma_compare_rows_trans(target, rows[mid as int], rows[i]);
                        }
                    }
                }
                hi = mid;
            },
        }
    }
    lo
}

/// A copy of a vector of rows.
pub fn clone_rows(rows: &Vec<Tuple>) -> (r: Vec<Tuple>)
    ensures
        r.deep_view() == rows.deep_view(),
{
    let mut out: Vec<Tuple> = Vec::new();
    let mut i: usize = 0;
    while i < rows.len()
        invariant
            0 <= i <= rows@.len(),
            out@.len() == i,
            forall|j: int| 0 <= j < i ==> (#[trigger] out@[j]).deep_view() == rows@[j].deep_view(),
        decreases rows@.len() - i,
    {
        out.push(clone_tuple(&rows[i]));
        i = i + 1;
    }
    assert(out.deep_view() =~= rows.deep_view());
    out
}

} // verus!
