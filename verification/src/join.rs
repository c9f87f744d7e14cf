//! What joins are made of: the columns that a join equates, the test for a
//! prefix of the right side's order, and the joins over literal relations
//! and anti-joins over scans.

use itertools::Itertools;
use std::collections::BTreeSet;
use vstd::prelude::*;

use crate::error::EvalError;
use crate::ra::{InlineFixedRA, Joiner};
use crate::rows::{expand, lemma_expand_step, lemma_select_step, rows_result, select, Outcome};
use crate::scan::{append_rows, push_row};
use crate::semantics::{
    all_resolve, fits, fixed_rows, glue, is_prefix, join_step, matching, positions, prefix_columns,
    slot_of,
};
use crate::symbol::{lemma_resolve, position_of, Symbol};
use crate::tuple::{
    concat_tuples, eliminate_from_tuple, eliminate_row, in_range, lemma_rows_view, project,
    project_tuple,
};
use crate::value::{clone_tuple, lemma_tuple_view, same_tuple, Row, Tuple};

verus! {

broadcast use {
    vstd::std_specs::btree::group_btree_axioms,
    vstd::laws_cmp::group_laws_cmp,
    vstd::std_specs::vec::group_vec_axioms,
};

/// The positions of `keys` in ascending order of the keys, as
/// `itertools::Itertools::sorted_by_key` orders the positions paired with
/// their keys. Not proved here: that the result holds every position once,
/// that the keys do not decrease along it, and that positions with equal
/// keys keep their order (the sort is stable).
#[verifier::external_body]
pub(crate) fn sorted_positions(keys: &Vec<usize>) -> (r: Vec<usize>)
    ensures
        r@.len() == keys@.len(),
        r@.no_duplicates(),
        forall|a: int| 0 <= a < r@.len() ==> (#[trigger] r@[a]) < keys@.len(),
        forall|b: usize| b < keys@.len() ==> #[trigger] r@.contains(b),
        forall|a: int, b: int|
            0 <= a < b < r@.len() ==> keys@[(#[trigger] r@[a]) as int] <= keys@[(
            #[trigger] r@[b]) as int],
        forall|a: int, b: int|
            0 <= a < b < r@.len() && keys@[(#[trigger] r@[a]) as int] == keys@[(
            #[trigger] r@[b]) as int] ==> r@[a] < r@[b],
{
    keys.iter().enumerate().sorted_by_key(|(_, b)| **b).map(|(a, _)| a).collect_vec()
}

/// Increasing numbers below their count are their own positions.
proof fn lemma_increasing_is_identity(v: Seq<int>)
    requires
        forall|a: int, b: int| 0 <= a < b < v.len() ==> (#[trigger] v[a]) < (#[trigger] v[b]),
        forall|a: int| 0 <= a < v.len() ==> 0 <= (#[trigger] v[a]) < v.len(),
    ensures
        forall|a: int| 0 <= a < v.len() ==> (#[trigger] v[a]) == a,
{
    assert forall|a: int| 0 <= a < v.len() implies (#[trigger] v[a]) == a by {
        lemma_at_least(v, a);
        lemma_at_most(v, a);
    }
}

proof fn lemma_at_least(v: Seq<int>, a: int)
    requires
        forall|a: int, b: int| 0 <= a < b < v.len() ==> (#[trigger] v[a]) < (#[trigger] v[b]),
        forall|a: int| 0 <= a < v.len() ==> 0 <= (#[trigger] v[a]) < v.len(),
        0 <= a < v.len(),
    ensures
        v[a] >= a,
    decreases a,
{
    if a > 0 {
        lemma_at_least(v, a - 1);
        assert(v[a - 1] < v[a]);
    }
}

proof fn lemma_at_most(v: Seq<int>, a: int)
    requires
        forall|a: int, b: int| 0 <= a < b < v.len() ==> (#[trigger] v[a]) < (#[trigger] v[b]),
        forall|a: int| 0 <= a < v.len() ==> 0 <= (#[trigger] v[a]) < v.len(),
        0 <= a < v.len(),
    ensures
        v[a] <= a,
    decreases v.len() - a,
{
    if a < v.len() - 1 {
        lemma_at_most(v, a + 1);
        assert(v[a] < v[a + 1]);
    }
}

/// Along the sorted positions of a prefix, the keys count up from zero.
proof fn lemma_sorted_prefix(keys: Seq<usize>, order: Seq<usize>)
    requires
        is_prefix(keys),
        order.len() == keys.len(),
        order.no_duplicates(),
        forall|a: int| 0 <= a < order.len() ==> (#[trigger] order[a]) < keys.len(),
        forall|a: int, b: int|
            0 <= a < b < order.len() ==> keys[(#[trigger] order[a]) as int] <= keys[(
            #[trigger] order[b]) as int],
    ensures
        forall|j: int| 0 <= j < keys.len() ==> keys[(#[trigger] order[j]) as int] == j,
        forall|j: int| 0 <= j < keys.len() ==> slot_of(keys, j) == #[trigger] order[j],
{
    let v = Seq::new(keys.len(), |j: int| keys[order[j] as int] as int);
    assert forall|a: int, b: int| 0 <= a < b < v.len() implies (#[trigger] v[a]) < (
    #[trigger] v[b]) by {
        assert(order[a] != order[b]);
        assert(keys[order[a] as int] <= keys[order[b] as int]);
        assert(keys[order[a] as int] != keys[order[b] as int]);
    }
    assert forall|a: int| 0 <= a < v.len() implies 0 <= (#[trigger] v[a]) < v.len() by {
        assert(keys[order[a] as int] < keys.len());
    }
    lemma_increasing_is_identity(v);
    assert forall|j: int| 0 <= j < keys.len() implies keys[(#[trigger] order[j]) as int] == j by {
        assert(v[j] == j);
    }
    assert forall|j: int| 0 <= j < keys.len() implies slot_of(keys, j) == #[trigger] order[j] by {
        assert(v[j] == j);
        let a = order[j] as int;
        assert(0 <= a < keys.len() && keys[a] == j);
        let c = slot_of(keys, j);
        assert(0 <= c < keys.len() && keys[c] == j);
        if c != a {
            assert(keys[c] != keys[a]);
        }
    }
}

/// The left columns in the order of the right columns that they are
/// equated with, for right columns that form a prefix.
pub fn prefix_order(left_join_indices: &Vec<usize>, right_join_indices: &Vec<usize>) -> (r: Vec<
    usize,
>)
    requires
        left_join_indices@.len() == right_join_indices@.len(),
        is_prefix(right_join_indices@),
    ensures
        r@ == prefix_columns(left_join_indices@, right_join_indices@),
{
    let right_invert_indices = sorted_positions(right_join_indices);
    proof {
        lemma_sorted_prefix(right_join_indices@, right_invert_indices@);
    }
    let mut out: Vec<usize> = Vec::new();
    let mut j: usize = 0;
    while j < right_invert_indices.len()
        invariant
            0 <= j <= right_invert_indices@.len(),
            right_invert_indices@.len() == right_join_indices@.len(),
            left_join_indices@.len() == right_join_indices@.len(),
            forall|a: int|
                0 <= a < right_invert_indices@.len() ==> (#[trigger] right_invert_indices@[a])
                    < right_join_indices@.len(),
            forall|k: int|
                0 <= k < right_join_indices@.len() ==> slot_of(right_join_indices@, k)
                    == #[trigger] right_invert_indices@[k],
            out@.len() == j,
            forall|k: int|
                0 <= k < j ==> (#[trigger] out@[k]) == left_join_indices@[slot_of(
                    right_join_indices@,
                    k,
                )],
        decreases right_invert_indices@.len() - j,
    {
        out.push(left_join_indices[right_invert_indices[j]]);
        j = j + 1;
    }
    assert(out@ =~= prefix_columns(left_join_indices@, right_join_indices@));
    out
}

/// Whether the indices form a prefix: sorted, they are the numbers from
/// zero up to their count.
pub fn join_is_prefix(right_join_indices: &[usize]) -> (r: bool)
    ensures
        r == is_prefix(right_join_indices@),
{
    let l = right_join_indices.len();
    let mut seen: Vec<bool> = vec![false; l];
    let ghost idx = right_join_indices@;
    let mut i: usize = 0;
    while i < l
        invariant
            0 <= i <= l,
            l == idx.len(),
            idx == right_join_indices@,
            seen@.len() == l,
            forall|k: int| 0 <= k < i ==> (#[trigger] idx[k]) < l,
            forall|a: int, b: int| 0 <= a < b < i ==> (#[trigger] idx[a]) != (#[trigger] idx[b]),
            forall|x: int|
                0 <= x < l ==> ((#[trigger] seen@[x]) <==> exists|k: int|
                    0 <= k < i && #[trigger] idx[k] == x),
        decreases l - i,
    {
        let v = right_join_indices[i];
        if v >= l {
            assert(!is_prefix(idx));
            return false;
        }
        if seen[v] {
            proof {
                let k = choose|k: int| 0 <= k < i && #[trigger] idx[k] == v;
                assert(idx[k] == idx[i as int]);
                assert(!idx.no_duplicates());
            }
            return false;
        }
        let ghost before = seen@;
        seen.set(v, true);
        proof {
            assert forall|x: int| 0 <= x < l implies ((#[trigger] seen@[x]) <==> exists|k: int|
                0 <= k < i + 1 && #[trigger] idx[k] == x) by {
                if x == v {
                    assert(idx[i as int] == x);
                } else {
                    if before[x] {
                        let k = choose|k: int| 0 <= k < i && #[trigger] idx[k] == x;
                        assert(0 <= k < i + 1 && idx[k] == x);
                    }
                    if exists|k: int| 0 <= k < i + 1 && #[trigger] idx[k] == x {
                        let k = choose|k: int| 0 <= k < i + 1 && #[trigger] idx[k] == x;
                        assert(k < i);
                    }
                }
            }
            assert forall|a: int, b: int| 0 <= a < b < i + 1 implies (#[trigger] idx[a]) != (
            #[trigger] idx[b]) by {
                if b == i {
                    if idx[a] == idx[b] {
                        assert(before[v as int]);
                    }
                }
            }
        }
        i = i + 1;
    }
    assert(idx.no_duplicates());
    true
}

impl Joiner {
    /// The pairs of names that the join equates, left name first, in the
    /// order of the keys. Read as a map from left names to right names, a
    /// later pair overrides an earlier one with the same left name.
    pub fn as_map(&self) -> (r: Vec<(String, String)>)
        requires
            self.left_keys@.len() == self.right_keys@.len(),
        ensures
            r@.len() == self.left_keys@.len(),
            forall|i: int|
                0 <= i < r@.len() ==> (#[trigger] r@[i]).0@ == self.left_keys@[i].name@ && r@[i].1@
                    == self.right_keys@[i].name@,
    {
        let mut out: Vec<(String, String)> = Vec::new();
        let mut i: usize = 0;
        while i < self.left_keys.len()
            invariant
                0 <= i <= self.left_keys@.len(),
                self.left_keys@.len() == self.right_keys@.len(),
                out@.len() == i,
                forall|k: int|
                    0 <= k < i ==> (#[trigger] out@[k]).0@ == self.left_keys@[k].name@
                        && out@[k].1@ == self.right_keys@[k].name@,
            decreases self.left_keys@.len() - i,
        {
            out.push((self.left_keys[i].name.clone(), self.right_keys[i].name.clone()));
            i = i + 1;
        }
        out
    }

    /// The columns that the keys stand for among the bindings of either
    /// side.
    pub fn join_indices(&self, left_bindings: &Vec<Symbol>, right_bindings: &Vec<Symbol>) -> (r:
        Result<(Vec<usize>, Vec<usize>), EvalError>)
        requires
            self.left_keys@.len() == self.right_keys@.len(),
            all_resolve(left_bindings.deep_view(), self.left_keys.deep_view()),
            all_resolve(right_bindings.deep_view(), self.right_keys.deep_view()),
        ensures
            r matches Ok(p) && p.0@ == positions(
                left_bindings.deep_view(),
                self.left_keys.deep_view(),
            ) && p.1@ == positions(right_bindings.deep_view(), self.right_keys.deep_view())
                && in_range(p.0@, left_bindings@.len() as int) && in_range(
                p.1@,
                right_bindings@.len() as int,
            ),
    {
        let ret_l = resolve_all(left_bindings, &self.left_keys);
        let ret_r = resolve_all(right_bindings, &self.right_keys);
        Ok((ret_l, ret_r))
    }
}

/// The column of each of `wanted` among `bindings`.
pub fn resolve_all(bindings: &Vec<Symbol>, wanted: &Vec<Symbol>) -> (r: Vec<usize>)
    requires
        all_resolve(bindings.deep_view(), wanted.deep_view()),
    ensures
        r@ == positions(bindings.deep_view(), wanted.deep_view()),
        in_range(r@, bindings@.len() as int),
{
    let ghost names = bindings.deep_view();
    let ghost keys = wanted.deep_view();
    let mut out: Vec<usize> = Vec::new();
    let mut k: usize = 0;
    while k < wanted.len()
        invariant
            0 <= k <= wanted@.len(),
            names == bindings.deep_view(),
            keys == wanted.deep_view(),
            all_resolve(names, keys),
            out@.len() == k,
            forall|j: int| 0 <= j < k ==> (#[trigger] out@[j]) == positions(names, keys)[j],
            forall|j: int| 0 <= j < k ==> (#[trigger] out@[j]) < bindings@.len(),
        decreases wanted@.len() - k,
    {
        proof {
            assert(keys[k as int] == wanted@[k as int].deep_view());
            lemma_resolve(names, keys[k as int]);
        }
        match position_of(bindings, &wanted[k]) {
            Some(p) => {
                out.push(p);
            },
            None => vstd::pervasive::unreached(),
        }
        k = k + 1;
    }
    assert(out@ =~= positions(names, keys));
    out
}

/// `l` followed by each of `found` in turn, without the eliminated
/// columns.
pub fn glue_rows(l: &Tuple, found: &Vec<Tuple>, eliminate_indices: &BTreeSet<usize>) -> (r: Vec<
    Tuple,
>)
    ensures
        r.deep_view() == glue(l.deep_view(), found.deep_view(), eliminate_indices@),
{
    let mut out: Vec<Tuple> = Vec::new();
    let mut k: usize = 0;
    while k < found.len()
        invariant
            0 <= k <= found@.len(),
            out@.len() == k,
            forall|j: int|
                0 <= j < k ==> (#[trigger] out@[j]).deep_view() == eliminate_row(
                    l.deep_view() + found@[j].deep_view(),
                    eliminate_indices@,
                ),
        decreases found@.len() - k,
    {
        let ret = concat_tuples(l, &found[k]);
        let ret = eliminate_from_tuple(ret, eliminate_indices);
        out.push(ret);
        k = k + 1;
    }
    proof {
        lemma_rows_view(&out);
        lemma_rows_view(found);
        assert(out.deep_view() =~= glue(l.deep_view(), found.deep_view(), eliminate_indices@));
    }
    out
}

/// The rows of `right` that have in the columns `ri` what `l` has in the
/// columns `li`.
pub fn select_matching(l: &Tuple, right: &Vec<Tuple>, li: &Vec<usize>, ri: &Vec<usize>) -> (r: Vec<
    Tuple,
>)
    requires
        in_range(li@, l@.len() as int),
        fits(right.deep_view(), ri@),
    ensures
        r.deep_view() == select(right.deep_view(), matching(li@, ri@, l.deep_view())),
{
    let key = project_tuple(l, li);
    let ghost rows = right.deep_view();
    let ghost keep = matching(li@, ri@, l.deep_view());
    let mut out: Vec<Tuple> = Vec::new();
    let mut j: usize = 0;
    assert(rows.take(0) =~= Seq::<Row>::empty());
    assert(out.deep_view() =~= Seq::<Row>::empty());
    while j < right.len()
        invariant
            0 <= j <= right@.len(),
            rows == right.deep_view(),
            keep == matching(li@, ri@, l.deep_view()),
            key.deep_view() == project(l.deep_view(), li@),
            fits(rows, ri@),
            out.deep_view() == select(rows.take(j as int), keep),
        decreases right@.len() - j,
    {
        proof {
            lemma_rows_view(right);
            lemma_tuple_view(&right@[j as int]);
            lemma_select_step(rows, keep, j as int);
            assert(in_range(ri@, rows[j as int].len() as int));
        }
        let candidate = project_tuple(&right[j], ri);
        if same_tuple(&candidate, &key) {
            push_row(&mut out, clone_tuple(&right[j]));
        }
        j = j + 1;
    }
    assert(rows.take(j as int) =~= rows);
    out
}

impl InlineFixedRA {
    /// The name of the strategy that joins with this relation.
    pub fn join_type(&self) -> (r: &'static str)
        ensures
            r@ == (if self.data@.len() == 0 {
                "null_join"@
            } else if self.data@.len() == 1 {
                "singleton_join"@
            } else {
                "fixed_join"@
            }),
    {
        if self.data.len() == 0 {
            "null_join"
        } else if self.data.len() == 1 {
            "singleton_join"
        } else {
            "fixed_join"
        }
    }

    /// The join of the rows `left_iter` with this relation: each left row
    /// with every row of the relation that matches it, in the order of
    /// the relation.
    pub fn join(
        &self,
        left_iter: Vec<Tuple>,
        join_indices: (Vec<usize>, Vec<usize>),
        eliminate_indices: BTreeSet<usize>,
    ) -> (r: Result<Vec<Tuple>, EvalError>)
        requires
            fits(left_iter.deep_view(), join_indices.0@),
            fits(
                fixed_rows(self.bindings.deep_view(), self.data.deep_view(), self.to_eliminate@),
                join_indices.1@,
            ),
        ensures
            rows_result(r) == expand(
                left_iter.deep_view(),
                join_step(
                    fixed_rows(
                        self.bindings.deep_view(),
                        self.data.deep_view(),
                        self.to_eliminate@,
                    ),
                    join_indices.0@,
                    join_indices.1@,
                    eliminate_indices@,
                ),
            ),
    {
        let (left_join_indices, right_join_indices) = join_indices;
        let right = self.iter();
        let ghost rows = left_iter.deep_view();
        let ghost step = join_step(
            right.deep_view(),
            left_join_indices@,
            right_join_indices@,
            eliminate_indices@,
        );
        let mut out: Vec<Tuple> = Vec::new();
        if right.len() == 0 {
            proof {
                lemma_rows_view(&right);
                assert forall|i: int| 0 <= i < rows.len() implies step(#[trigger] rows[i]) == Ok::<
                    Seq<Row>,
                    EvalError,
                >(Seq::empty()) by {
                    let l = rows[i];
                    let found = select(
                        right.deep_view(),
                        matching(left_join_indices@, right_join_indices@, l),
                    );
                    assert(glue(l, found, eliminate_indices@) =~= Seq::<Row>::empty());
                }
                lemma_nothing_to_join(rows, step);
            }
            assert(out.deep_view() =~= Seq::<Row>::empty());
            return Ok(out);
        }
        let mut i: usize = 0;
        assert(rows.take(0) =~= Seq::<Row>::empty());
        assert(out.deep_view() =~= Seq::<Row>::empty());
        while i < left_iter.len()
            invariant
                0 <= i <= left_iter@.len(),
                rows == left_iter.deep_view(),
                step == join_step(
                    right.deep_view(),
                    left_join_indices@,
                    right_join_indices@,
                    eliminate_indices@,
                ),
                fits(rows, left_join_indices@),
                fits(right.deep_view(), right_join_indices@),
                expand(rows.take(i as int), step) == Ok::<Seq<Row>, EvalError>(out.deep_view()),
            decreases left_iter@.len() - i,
        {
            proof {
                lemma_rows_view(&left_iter);
                lemma_tuple_view(&left_iter@[i as int]);
                lemma_expand_step(rows, step, i as int);
                assert(in_range(left_join_indices@, rows[i as int].len() as int));
            }
            let found = select_matching(
                &left_iter[i],
                &right,
                &left_join_indices,
                &right_join_indices,
            );
            let joined = glue_rows(&left_iter[i], &found, &eliminate_indices);
            append_rows(&mut out, joined);
            i = i + 1;
        }
        assert(rows.take(i as int) =~= rows);
        Ok(out)
    }
}

/// A step that yields nothing for every row yields nothing at all.
pub proof fn lemma_nothing_to_join(rows: Seq<Row>, step: spec_fn(Row) -> Outcome)
    requires
        forall|i: int|
            0 <= i < rows.len() ==> step(#[trigger] rows[i]) == Ok::<Seq<Row>, EvalError>(
                Seq::empty(),
            ),
    ensures
        expand(rows, step) == Ok::<Seq<Row>, EvalError>(Seq::empty()),
    decreases rows.len(),
{
    if rows.len() > 0 {
        let init = rows.drop_last();
        assert forall|i: int| 0 <= i < init.len() implies step(#[trigger] init[i]) == Ok::<
            Seq<Row>,
            EvalError,
        >(Seq::empty()) by {
            assert(init[i] == rows[i]);
        }
        lemma_nothing_to_join(init, step);
        assert(rows.last() == rows[rows.len() - 1]);
        assert(Seq::<Row>::empty() + Seq::<Row>::empty() =~= Seq::<Row>::empty());
    }
}

} // verus!
