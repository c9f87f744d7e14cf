//! Operations on rows: projection, concatenation, prefix tests and the
//! removal of eliminated columns.

use std::collections::BTreeSet;
use vstd::prelude::*;

use crate::symbol::{Name, Symbol, SymbolSet};
use crate::value::{clone_tuple, lemma_tuple_view, Row, Tuple};

verus! {

broadcast use {
    vstd::std_specs::btree::group_btree_axioms,
    vstd::laws_cmp::group_laws_cmp,
    vstd::std_specs::vec::group_vec_axioms,
};

/// `r` begins with the values of `p`.
pub open spec fn starts_with(r: Row, p: Row) -> bool {
    p.len() <= r.len() && forall|i: int| 0 <= i < p.len() ==> r[i] == p[i]
}

/// Every index of `idx` is a column of a row of width `n`.
pub open spec fn in_range(idx: Seq<usize>, n: int) -> bool {
    forall|k: int| 0 <= k < idx.len() ==> (#[trigger] idx[k]) < n
}

/// The values of `row` at the columns `idx`, in the order of `idx`.
pub open spec fn project(row: Row, idx: Seq<usize>) -> Row {
    Seq::new(idx.len(), |k: int| row[idx[k] as int])
}

/// Every row of `rows` has `w` columns.
pub open spec fn has_width(rows: Seq<Row>, w: int) -> bool {
    forall|i: int| 0 <= i < rows.len() ==> (#[trigger] rows[i]).len() == w
}

/// Whether column `i` is among the eliminated ones.
pub open spec fn eliminated(elim: Set<usize>, i: int) -> bool {
    0 <= i <= usize::MAX && elim.contains(i as usize)
}

/// `row` without the columns whose index is in `elim`; the others keep
/// their order.
pub open spec fn eliminate_row(row: Row, elim: Set<usize>) -> Row
    decreases row.len(),
{
    if row.len() == 0 {
        row
    } else if eliminated(elim, row.len() - 1) {
        eliminate_row(row.drop_last(), elim)
    } else {
        eliminate_row(row.drop_last(), elim).push(row.last())
    }
}

/// Eliminating no column leaves the row as it is.
pub proof fn lemma_eliminate_nothing(row: Row, elim: Set<usize>)
    requires
        forall|i: int| 0 <= i < row.len() ==> !eliminated(elim, i),
    ensures
        eliminate_row(row, elim) == row,
    decreases row.len(),
{
    if row.len() > 0 {
        lemma_eliminate_nothing(row.drop_last(), elim);
        assert(row.drop_last().push(row.last()) =~= row);
    }
}

/// How many of the first `w` columns are not eliminated.
pub open spec fn kept(w: int, elim: Set<usize>) -> int
    decreases w,
{
    if w <= 0 {
        0
    } else if eliminated(elim, w - 1) {
        kept(w - 1, elim)
    } else {
        kept(w - 1, elim) + 1
    }
}

/// A row without its eliminated columns has as many columns as were kept.
pub proof fn lemma_eliminate_len(row: Row, elim: Set<usize>)
    ensures
        eliminate_row(row, elim).len() == kept(row.len() as int, elim),
    decreases row.len(),
{
    if row.len() > 0 {
        lemma_eliminate_len(row.drop_last(), elim);
    }
}

/// The indices in `bindings` of the names that `eliminate` holds.
pub open spec fn eliminate_indices(bindings: Seq<Name>, eliminate: Set<Name>) -> Set<usize> {
    Set::new(|i: usize| i < bindings.len() && eliminate.contains(bindings[i as int]))
}

/// The deep view of a vector of rows, row by row.
pub proof fn lemma_rows_view(rows: &Vec<Tuple>)
    ensures
        rows.deep_view().len() == rows@.len(),
        forall|i: int| 0 <= i < rows@.len() ==> #[trigger] rows.deep_view()[i] == rows@[i].deep_view(),
{
}

/// Removes from `ret` the columns whose index is in `eliminate_indices`.
pub fn eliminate_from_tuple(ret: Tuple, eliminate_indices: &BTreeSet<usize>) -> (r: Tuple)
    ensures
        r.deep_view() == eliminate_row(ret.deep_view(), eliminate_indices@),
{
    if eliminate_indices.is_empty() {
        proof {
            lemma_eliminate_nothing(ret.deep_view(), eliminate_indices@);
        }
        return ret;
    }
    let mut out: Tuple = Vec::new();
    let mut i: usize = 0;
    assert(ret.deep_view().take(0) =~= Seq::<crate::value::Value>::empty());
    while i < ret.len()
        invariant
            0 <= i <= ret@.len(),
            out.deep_view() == eliminate_row(ret.deep_view().take(i as int), eliminate_indices@),
        decreases ret@.len() - i,
    {
        let ghost before = out.deep_view();
        proof {
            let row = ret.deep_view();
            assert(row.take(i as int + 1).drop_last() =~= row.take(i as int));
            assert(row.take(i as int + 1).last() == ret@[i as int].deep_view());
        }
        if !eliminate_indices.contains(&i) {
            let v = ret[i].clone();
            out.push(v);
            assert(out.deep_view() =~= before.push(v.deep_view()));
        }
        i = i + 1;
    }
    assert(ret.deep_view().take(i as int) =~= ret.deep_view());
    out
}

/// The values of `t` at the columns `indices`.
pub fn project_tuple(t: &Tuple, indices: &Vec<usize>) -> (r: Tuple)
    requires
        in_range(indices@, t@.len() as int),
    ensures
        r.deep_view() == project(t.deep_view(), indices@),
{
    let mut out: Tuple = Vec::new();
    let mut k: usize = 0;
    while k < indices.len()
        invariant
            0 <= k <= indices@.len(),
            in_range(indices@, t@.len() as int),
            out@.len() == k,
            forall|j: int| 0 <= j < k ==> out@[j].deep_view() == t@[indices@[j] as int].deep_view(),
        decreases indices@.len() - k,
    {
        out.push(t[indices[k]].clone());
        k = k + 1;
    }
    assert(out.deep_view() =~= project(t.deep_view(), indices@));
    out
}

/// The first `n` values of `t`.
pub fn take_tuple(t: &Tuple, n: usize) -> (r: Tuple)
    requires
        n <= t@.len(),
    ensures
        r.deep_view() == t.deep_view().take(n as int),
{
    let mut out: Tuple = Vec::new();
    let mut i: usize = 0;
    while i < n
        invariant
            0 <= i <= n,
            n <= t@.len(),
            out@.len() == i,
            forall|k: int| 0 <= k < i ==> (#[trigger] out@[k]).deep_view() == t@[k].deep_view(),
        decreases n - i,
    {
        out.push(t[i].clone());
        i = i + 1;
    }
    proof {
        lemma_tuple_view(t);
        assert(out.deep_view() =~= t.deep_view().take(n as int));
    }
    out
}

/// `a` followed by `b`.
pub fn concat_tuples(a: &Tuple, b: &Tuple) -> (r: Tuple)
    ensures
        r.deep_view() == a.deep_view() + b.deep_view(),
{
    let mut out = clone_tuple(a);
    let mut k: usize = 0;
    assert(out.deep_view() =~= a.deep_view() + b.deep_view().take(0));
    while k < b.len()
        invariant
            0 <= k <= b@.len(),
            out.deep_view() == a.deep_view() + b.deep_view().take(k as int),
        decreases b@.len() - k,
    {
        let ghost before = out.deep_view();
        let v = b[k].clone();
        out.push(v);
        proof {
            assert(out.deep_view() =~= before.push(v.deep_view()));
            assert(b.deep_view().take(k as int + 1) =~= b.deep_view().take(k as int).push(
                b@[k as int].deep_view(),
            ));
            assert(out.deep_view() =~= a.deep_view() + b.deep_view().take(k as int + 1));
        }
        k = k + 1;
    }
    assert(b.deep_view().take(k as int) =~= b.deep_view());
    out
}

/// Whether `t` begins with the values of `p`.
pub fn tuple_starts_with(t: &Tuple, p: &Tuple) -> (r: bool)
    ensures
        r == starts_with(t.deep_view(), p.deep_view()),
{
    proof {
        lemma_tuple_view(t);
        lemma_tuple_view(p);
    }
    if p.len() > t.len() {
        return false;
    }
    let mut i: usize = 0;
    while i < p.len()
        invariant
            0 <= i <= p@.len(),
            p@.len() <= t@.len(),
            t.deep_view().len() == t@.len(),
            p.deep_view().len() == p@.len(),
            forall|j: int| 0 <= j < i ==> t.deep_view()[j] == p.deep_view()[j],
        decreases p@.len() - i,
    {
        if !t[i].same(&p[i]) {
            assert(t.deep_view()[i as int] == t@[i as int].deep_view());
            assert(p.deep_view()[i as int] == p@[i as int].deep_view());
            return false;
        }
        assert(t.deep_view()[i as int] == t@[i as int].deep_view());
        assert(p.deep_view()[i as int] == p@[i as int].deep_view());
        i = i + 1;
    }
    true
}

/// The indices in `bindings` of the names that `eliminate` holds.
pub fn get_eliminate_indices(bindings: &[Symbol], eliminate: &SymbolSet) -> (r: BTreeSet<usize>)
    ensures
        r@ == eliminate_indices(bindings.deep_view(), eliminate@),
{
    let mut out: BTreeSet<usize> = BTreeSet::new();
    let mut i: usize = 0;
    while i < bindings.len()
        invariant
            0 <= i <= bindings@.len(),
            out@ == Set::new(
                |k: usize| k < i && eliminate@.contains(bindings.deep_view()[k as int]),
            ),
        decreases bindings@.len() - i,
    {
        let ghost before = out@;
        if eliminate.contains(&bindings[i]) {
            out.insert(i);
        }
        assert(out@ =~= Set::new(
            |k: usize| k < i + 1 && eliminate@.contains(bindings.deep_view()[k as int]),
        ));
        i = i + 1;
    }
    assert(out@ =~= eliminate_indices(bindings.deep_view(), eliminate@));
    out
}

} // verus!
