//! The materialized join: the right side is stored in memory, join
//! columns first and in order, and each left row finds its partners by
//! binary search.

use std::collections::BTreeSet;
use vstd::prelude::*;

use crate::error::EvalError;
use crate::join::sorted_positions;
use crate::rows::{
    expand, lemma_expand_concat, lemma_select_concat, lemma_select_none, select, Outcome,
};
use crate::scan::push_row;
use crate::semantics::{
    fits, glue_restored, mat_step, others, project_all, restore_order, slot_of, store_order,
};
use crate::sorted::{
    gathered, is_lower_bound, lemma_gathered, lemma_lower_bound_exists,
    lemma_lower_bound_unique, lemma_prefix_run, lower_bound, lower_bound_of, strictly_sorted,
    TupleSet,
};
use crate::store::with_prefix;
use crate::tuple::{
    concat_tuples, eliminate_from_tuple, eliminate_row, has_width, in_range, lemma_rows_view,
    project, project_tuple, starts_with, tuple_starts_with,
};
use crate::value::{clone_tuple, lemma_tuple_view, Row, Tuple};

verus! {

broadcast use {
    vstd::std_specs::btree::group_btree_axioms,
    vstd::laws_cmp::group_laws_cmp,
    vstd::std_specs::vec::group_vec_axioms,
};

/// The columns below `w` that are not in `ri` are exactly those.
pub proof fn lemma_others(ri: Seq<usize>, w: int)
    requires
        0 <= w <= usize::MAX,
    ensures
        forall|k: int| 0 <= k < others(ri, w).len() ==> (#[trigger] others(ri, w)[k]) < w,
        forall|k: int| 0 <= k < others(ri, w).len() ==> !ri.contains(#[trigger] others(ri, w)[k]),
        forall|c: usize| c < w && !ri.contains(c) ==> #[trigger] others(ri, w).contains(c),
        forall|a: int, b: int|
            0 <= a < b < others(ri, w).len() ==> (#[trigger] others(ri, w)[a]) < (#[trigger] others(
                ri,
                w,
            )[b]),
    decreases w,
{
    if w > 0 {
        lemma_others(ri, w - 1);
        let prev = others(ri, w - 1);
        let cur = others(ri, w);
        assert forall|c: usize| c < w && !ri.contains(c) implies #[trigger] cur.contains(c) by {
            if c < w - 1 {
                assert(prev.contains(c));
                let k = choose|k: int| 0 <= k < prev.len() && prev[k] == c;
                assert(cur[k] == c);
            } else {
                assert(cur[cur.len() - 1] == c);
            }
        }
    }
}

/// The stored order holds every column of a right row once.
pub proof fn lemma_store_order(ri: Seq<usize>, w: int)
    requires
        0 <= w <= usize::MAX,
        ri.no_duplicates(),
        in_range(ri, w),
    ensures
        store_order(ri, w).no_duplicates(),
        in_range(store_order(ri, w), w),
        forall|c: usize| c < w ==> #[trigger] store_order(ri, w).contains(c),
{
    lemma_others(ri, w);
    let rest = others(ri, w);
    let all = store_order(ri, w);
    assert forall|a: int, b: int| 0 <= a < all.len() && 0 <= b < all.len() && a != b implies all[a]
        != all[b] by {
        if a < ri.len() && b >= ri.len() {
            assert(!ri.contains(rest[b - ri.len()]));
        } else if b < ri.len() && a >= ri.len() {
            assert(!ri.contains(rest[a - ri.len()]));
        } else if a >= ri.len() && b >= ri.len() {
            if a < b {
                assert(rest[a - ri.len()] < rest[b - ri.len()]);
            } else {
                assert(rest[b - ri.len()] < rest[a - ri.len()]);
            }
        }
    }
    assert forall|k: int| 0 <= k < all.len() implies (#[trigger] all[k]) < w by {
        if k >= ri.len() {
            assert(rest[k - ri.len()] < w);
        }
    }
    assert forall|c: usize| c < w implies #[trigger] all.contains(c) by {
        if ri.contains(c) {
            let k = choose|k: int| 0 <= k < ri.len() && ri[k] == c;
            assert(all[k] == c);
        } else {
            assert(rest.contains(c));
            let k = choose|k: int| 0 <= k < rest.len() && rest[k] == c;
            assert(all[ri.len() + k] == c);
        }
    }
}

/// Along the sorted positions of keys that hold every number below `w`
/// once, the keys count up from zero; so there are `w` keys.
pub proof fn lemma_sorted_onto(keys: Seq<usize>, order: Seq<usize>, w: int)
    requires
        keys.no_duplicates(),
        in_range(keys, w),
        forall|c: usize| c < w ==> #[trigger] keys.contains(c),
        0 <= w <= usize::MAX,
        keys.len() <= usize::MAX,
        order.len() == keys.len(),
        order.no_duplicates(),
        forall|a: int| 0 <= a < order.len() ==> (#[trigger] order[a]) < keys.len(),
        forall|b: usize| b < keys.len() ==> #[trigger] order.contains(b),
        forall|a: int, b: int|
            0 <= a < b < order.len() ==> keys[(#[trigger] order[a]) as int] <= keys[(
            #[trigger] order[b]) as int],
    ensures
        keys.len() == w,
        forall|c: int| 0 <= c < w ==> keys[(#[trigger] order[c]) as int] == c,
        forall|c: int| 0 <= c < w ==> slot_of(keys, c) == #[trigger] order[c],
{
    let v = Seq::new(keys.len(), |j: int| keys[order[j] as int] as int);
    assert forall|a: int, b: int| 0 <= a < b < v.len() implies (#[trigger] v[a]) < (
    #[trigger] v[b]) by {
        assert(order[a] != order[b]);
        assert(keys[order[a] as int] <= keys[order[b] as int]);
        assert(keys[order[a] as int] != keys[order[b] as int]);
    }
    assert forall|c: int| 0 <= c < w implies c < v.len() && v[c] == c by {
        lemma_counts_up(keys, order, v, w, c);
    }
    if w > 0 {
        lemma_counts_up(keys, order, v, w, w - 1);
    }
    if v.len() > w {
        lemma_rank(v, w);
        assert(keys[order[w] as int] < w);
    }
    assert forall|c: int| 0 <= c < w implies keys[(#[trigger] order[c]) as int] == c by {
        assert(v[c] == c);
    }
    assert forall|c: int| 0 <= c < w implies slot_of(keys, c) == #[trigger] order[c] by {
        assert(v[c] == c);
        let a = order[c] as int;
        assert(0 <= a < keys.len() && keys[a] == c);
        let s = slot_of(keys, c);
        assert(0 <= s < keys.len() && keys[s] == c);
        if s != a {
            assert(keys[s] != keys[a]);
        }
    }
}

/// In increasing numbers that are not negative, each is at least its
/// position.
proof fn lemma_rank(v: Seq<int>, a: int)
    requires
        forall|a: int, b: int| 0 <= a < b < v.len() ==> (#[trigger] v[a]) < (#[trigger] v[b]),
        forall|a: int| 0 <= a < v.len() ==> 0 <= #[trigger] v[a],
        0 <= a < v.len(),
    ensures
        v[a] >= a,
    decreases a,
{
    if a > 0 {
        lemma_rank(v, a - 1);
        assert(v[a - 1] < v[a]);
    }
}

proof fn lemma_counts_up(keys: Seq<usize>, order: Seq<usize>, v: Seq<int>, w: int, c: int)
    requires
        v == Seq::new(keys.len(), |j: int| keys[order[j] as int] as int),
        forall|a: int, b: int| 0 <= a < b < v.len() ==> (#[trigger] v[a]) < (#[trigger] v[b]),
        forall|c: usize| c < w ==> #[trigger] keys.contains(c),
        0 <= w <= usize::MAX,
        keys.len() <= usize::MAX,
        order.len() == keys.len(),
        forall|a: int| 0 <= a < order.len() ==> (#[trigger] order[a]) < keys.len(),
        forall|b: usize| b < keys.len() ==> #[trigger] order.contains(b),
        0 <= c < w,
    ensures
        c < v.len(),
        v[c] == c,
    decreases c,
{
    let cu = c as usize;
    assert(keys.contains(cu));
    let at = choose|at: int| 0 <= at < keys.len() && keys[at] == cu;
    let atu = at as usize;
    assert(order.contains(atu));
    let j = choose|j: int| 0 <= j < order.len() && order[j] == atu;
    assert(v[j] == c);
    lemma_rank(v, j);
    if j < c {
        lemma_counts_up(keys, order, v, w, j);
    }
}

/// The order in which the columns of a right row are stored: the join
/// columns, then the others.
pub fn store_indices(right_join_indices: &Vec<usize>, right_width: usize) -> (r: Vec<usize>)
    ensures
        r@ == store_order(right_join_indices@, right_width as int),
{
    let ghost ri = right_join_indices@;
    let mut right_join_indices_set: BTreeSet<usize> = BTreeSet::new();
    let mut right_store_indices: Vec<usize> = Vec::new();
    let mut k: usize = 0;
    while k < right_join_indices.len()
        invariant
            0 <= k <= right_join_indices@.len(),
            ri == right_join_indices@,
            right_store_indices@ == ri.take(k as int),
            forall|x: usize| right_join_indices_set@.contains(x) <==> ri.take(k as int).contains(x),
        decreases right_join_indices@.len() - k,
    {
        let x = right_join_indices[k];
        right_join_indices_set.insert(x);
        right_store_indices.push(x);
        proof {
            assert(ri.take(k as int + 1) =~= ri.take(k as int).push(x));
            assert(right_store_indices@ =~= ri.take(k as int + 1));
            crate::symbol::lemma_to_set_push(ri.take(k as int), x);
            assert forall|y: usize| right_join_indices_set@.contains(y) <==> ri.take(
                k as int + 1,
            ).contains(y) by {
                assert(ri.take(k as int).to_set().contains(y) <==> ri.take(k as int).contains(y));
                assert(ri.take(k as int + 1).to_set().contains(y) <==> ri.take(
                    k as int + 1,
                ).contains(y));
            }
        }
        k = k + 1;
    }
    assert(ri.take(k as int) =~= ri);
    let mut i: usize = 0;
    assert(right_store_indices@ =~= ri + others(ri, 0));
    while i < right_width
        invariant
            0 <= i <= right_width,
            ri == right_join_indices@,
            forall|x: usize| right_join_indices_set@.contains(x) <==> ri.contains(x),
            right_store_indices@ == ri + others(ri, i as int),
        decreases right_width - i,
    {
        if !right_join_indices_set.contains(&i) {
            right_store_indices.push(i);
            assert(right_store_indices@ =~= ri + others(ri, i as int + 1));
        }
        i = i + 1;
    }
    right_store_indices
}

/// The right rows, each with its columns in the stored order, in
/// increasing order and each once.
pub fn materialize(right: &Vec<Tuple>, right_store_indices: &Vec<usize>) -> (r: Vec<Tuple>)
    requires
        fits(right.deep_view(), right_store_indices@),
    ensures
        r.deep_view() == gathered(project_all(right.deep_view(), right_store_indices@)),
        strictly_sorted(r.deep_view()),
        has_width(r.deep_view(), right_store_indices@.len() as int),
{
    let ghost rows = right.deep_view();
    let ghost stored = project_all(rows, right_store_indices@);
    let mut cache = TupleSet::new();
    let mut i: usize = 0;
    assert(stored.take(0) =~= Seq::<Row>::empty());
    while i < right.len()
        invariant
            0 <= i <= right@.len(),
            rows == right.deep_view(),
            stored == project_all(rows, right_store_indices@),
            fits(rows, right_store_indices@),
            cache.wf(),
            cache@ == gathered(stored.take(i as int)),
        decreases right@.len() - i,
    {
        proof {
            lemma_rows_view(right);
            lemma_tuple_view(&right@[i as int]);
            assert(in_range(right_store_indices@, rows[i as int].len() as int));
            assert(stored.take(i as int + 1).drop_last() =~= stored.take(i as int));
            assert(stored.take(i as int + 1).last() == project(
                rows[i as int],
                right_store_indices@,
            ));
        }
        let stored_tuple = project_tuple(&right[i], right_store_indices);
        let _ = cache.insert(stored_tuple);
        i = i + 1;
    }
    proof {
        assert(stored.take(i as int) =~= stored);
        lemma_gathered(stored);
        let out = cache@;
        assert forall|k: int| 0 <= k < out.len() implies (#[trigger] out[k]).len()
            == right_store_indices@.len() by {
            assert(out.contains(out[k]));
            assert(stored.contains(out[k]));
            let j = choose|j: int| 0 <= j < stored.len() && stored[j] == out[k];
            assert(stored[j] == project(rows[j], right_store_indices@));
        }
    }
    cache.rows
}

/// The key that a left row makes, and the place where it belongs among
/// the stored rows.
pub fn build_mat_range_iter(
    mat: &Vec<Tuple>,
    left_join_indices: &Vec<usize>,
    left_tuple: &Tuple,
) -> (r: (Tuple, usize))
    requires
        strictly_sorted(mat.deep_view()),
        in_range(left_join_indices@, left_tuple@.len() as int),
    ensures
        r.0.deep_view() == project(left_tuple.deep_view(), left_join_indices@),
        is_lower_bound(mat.deep_view(), r.0.deep_view(), r.1 as int),
{
    let prefix = project_tuple(left_tuple, left_join_indices);
    let idx = lower_bound(mat, &prefix);
    (prefix, idx)
}

/// The state of a materialized join that yields its rows one by one: the
/// stored right rows, the left rows with a cursor, and for the current
/// left row its key and a cursor into the stored rows.
#[derive(Debug)]
pub struct CachedMaterializedIterator {
    pub materialized: Vec<Tuple>,
    pub eliminate_indices: BTreeSet<usize>,
    pub left_join_indices: Vec<usize>,
    pub right_invert_indices: Vec<usize>,
    pub right_idx: usize,
    pub prefix: Tuple,
    pub left: Vec<Tuple>,
    pub left_pos: usize,
    pub left_cache: Tuple,
}

impl CachedMaterializedIterator {
    /// The stored rows are sorted, the cursors are in range, the key is
    /// that of the current left row, and the cursor into the stored rows
    /// stands in the run of rows that begin with the key, or at its end.
    pub open spec fn wf(&self) -> bool {
        let mat = self.materialized.deep_view();
        let key = self.prefix.deep_view();
        &&& strictly_sorted(mat)
        &&& self.right_idx <= mat.len()
        &&& self.left_pos <= self.left@.len()
        &&& fits(self.left.deep_view(), self.left_join_indices@)
        &&& fits(mat, self.right_invert_indices@)
        &&& key == project(self.left_cache.deep_view(), self.left_join_indices@)
        &&& lower_bound_of(mat, key) <= self.right_idx
        &&& forall|k: int|
            lower_bound_of(mat, key) <= k < self.right_idx ==> starts_with(#[trigger] mat[k], key)
    }

    /// What the join makes of one left row.
    pub open spec fn step(&self) -> spec_fn(Row) -> Outcome {
        mat_step(
            self.materialized.deep_view(),
            self.left_join_indices@,
            self.right_invert_indices@,
            self.eliminate_indices@,
        )
    }

    /// The rows still to come for the current left row.
    pub open spec fn pending(&self) -> Seq<Row> {
        let mat = self.materialized.deep_view();
        glue_restored(
            self.left_cache.deep_view(),
            select(
                mat.subrange(self.right_idx as int, mat.len() as int),
                with_prefix(self.prefix.deep_view()),
            ),
            self.right_invert_indices@,
            self.eliminate_indices@,
        )
    }

    /// The rows still to come: those for the current left row, then those
    /// for the left rows not yet read.
    pub open spec fn rest(&self) -> Seq<Row> {
        let left = self.left.deep_view();
        self.pending() + expand(
            left.subrange(self.left_pos as int, left.len() as int),
            self.step(),
        )->Ok_0
    }

    /// The two states differ at most in the cursor into the stored rows.
    pub open spec fn same_but_cursor(&self, other: &Self) -> bool {
        &&& self.materialized == other.materialized
        &&& self.eliminate_indices == other.eliminate_indices
        &&& self.left_join_indices == other.left_join_indices
        &&& self.right_invert_indices == other.right_invert_indices
        &&& self.prefix == other.prefix
        &&& self.left == other.left
        &&& self.left_pos == other.left_pos
        &&& self.left_cache == other.left_cache
    }

    /// The two states join the same stored rows with the same left rows.
    pub open spec fn same_join(&self, other: &Self) -> bool {
        &&& self.materialized == other.materialized
        &&& self.eliminate_indices == other.eliminate_indices
        &&& self.left_join_indices == other.left_join_indices
        &&& self.right_invert_indices == other.right_invert_indices
        &&& self.left == other.left
    }

    /// The stored row under the cursor, if it begins with the key; the
    /// cursor then moves on.
    pub fn advance_right(&mut self) -> (r: Option<Tuple>)
        requires
            old(self).wf(),
        ensures
            final(self).wf(),
            final(self).same_but_cursor(old(self)),
            match r {
                Some(t) => {
                    &&& old(self).right_idx < old(self).materialized@.len()
                    &&& t.deep_view() == old(self).materialized.deep_view()[old(self).right_idx
                        as int]
                    &&& starts_with(t.deep_view(), old(self).prefix.deep_view())
                    &&& final(self).right_idx == old(self).right_idx + 1
                    &&& old(self).pending() == seq![
                        eliminate_row(
                            old(self).left_cache.deep_view() + project(
                                t.deep_view(),
                                old(self).right_invert_indices@,
                            ),
                            old(self).eliminate_indices@,
                        ),
                    ] + final(self).pending()
                },
                None => {
                    &&& final(self).right_idx == old(self).right_idx
                    &&& old(self).pending() == Seq::<Row>::empty()
                },
            },
    {
        let ghost mat = self.materialized.deep_view();
        let ghost key = self.prefix.deep_view();
        let ghost keep = with_prefix(key);
        let ghost at = self.right_idx as int;
        let ghost tail = mat.subrange(at, mat.len() as int);
        proof {
            lemma_rows_view(&self.materialized);
            lemma_lower_bound_exists(mat, key);
            lemma_prefix_run(mat, key, lower_bound_of(mat, key));
        }
        if self.right_idx == self.materialized.len() {
            proof {
                assert(tail =~= Seq::<Row>::empty());
                assert(self.pending() =~= Seq::<Row>::empty());
            }
            None
        } else {
            let hit = tuple_starts_with(&self.materialized[self.right_idx], &self.prefix);
            if hit {
                let ret = clone_tuple(&self.materialized[self.right_idx]);
                self.right_idx = self.right_idx + 1;
                proof {
                    let next = mat.subrange(at + 1, mat.len() as int);
                    assert(tail =~= seq![mat[at]] + next);
                    lemma_select_concat(seq![mat[at]], next, keep);
                    crate::rows::lemma_select_all(seq![mat[at]], keep);
                    let found = select(next, keep);
                    assert(select(tail, keep) =~= seq![mat[at]] + found);
                    assert(old(self).pending() =~= seq![
                        eliminate_row(
                            self.left_cache.deep_view() + project(
                                mat[at],
                                self.right_invert_indices@,
                            ),
                            self.eliminate_indices@,
                        ),
                    ] + self.pending());
                }
                Some(ret)
            } else {
                proof {
                    assert forall|i: int| 0 <= i < tail.len() implies !keep(#[trigger] tail[i]) by {
                        assert(tail[i] == mat[at + i]);
                        assert(!starts_with(mat[at], key));
                    }
                    lemma_select_none(tail, keep);
                    assert(self.pending() =~= Seq::<Row>::empty());
                }
                None
            }
        }
    }

    /// The next row of the join, if there is one.
    pub fn next_inner(&mut self) -> (r: Result<Option<Tuple>, EvalError>)
        requires
            old(self).wf(),
        ensures
            final(self).wf(),
            final(self).same_join(old(self)),
            r matches Ok(x) && match x {
                Some(t) => old(self).rest() == seq![t.deep_view()] + final(self).rest(),
                None => old(self).rest() == Seq::<Row>::empty() && final(self).rest()
                    == Seq::<Row>::empty(),
            },
    {
        loop
            invariant
                self.wf(),
                self.same_join(old(self)),
                self.rest() == old(self).rest(),
            decreases self.left@.len() - self.left_pos,
        {
            let ghost before = self.rest();
            let ghost waiting = expand(
                self.left.deep_view().subrange(
                    self.left_pos as int,
                    self.left.deep_view().len() as int,
                ),
                self.step(),
            )->Ok_0;
            let right_nxt = self.advance_right();
            match right_nxt {
                Some(data) => {
                    proof {
                        lemma_rows_view(&self.materialized);
                        lemma_tuple_view(&data);
                        assert(in_range(self.right_invert_indices@, data@.len() as int));
                    }
                    let restored = project_tuple(&data, &self.right_invert_indices);
                    let ret = concat_tuples(&self.left_cache, &restored);
                    let tuple = eliminate_from_tuple(ret, &self.eliminate_indices);
                    proof {
                        assert(before =~= seq![tuple.deep_view()] + self.rest());
                    }
                    return Ok(Some(tuple));
                },
                None => {
                    if self.left_pos >= self.left.len() {
                        proof {
                            let left = self.left.deep_view();
                            lemma_rows_view(&self.left);
                            assert(left.subrange(self.left_pos as int, left.len() as int)
                                =~= Seq::<Row>::empty());
                            assert(self.rest() =~= Seq::<Row>::empty());
                        }
                        return Ok(None);
                    }
                    let ghost left = self.left.deep_view();
                    let ghost at = self.left_pos as int;
                    proof {
                        lemma_rows_view(&self.left);
                        lemma_tuple_view(&self.left@[at]);
                        assert(in_range(self.left_join_indices@, left[at].len() as int));
                    }
                    let left_tuple = clone_tuple(&self.left[self.left_pos]);
                    self.left_pos = self.left_pos + 1;
                    let (prefix, idx) = build_mat_range_iter(
                        &self.materialized,
                        &self.left_join_indices,
                        &left_tuple,
                    );
                    self.left_cache = left_tuple;
                    self.right_idx = idx;
                    self.prefix = prefix;
                    proof {
                        let mat = self.materialized.deep_view();
                        let key = self.prefix.deep_view();
                        let keep = with_prefix(key);
                        lemma_rows_view(&self.materialized);
                        lemma_lower_bound_exists(mat, key);
                        lemma_lower_bound_unique(mat, key, idx as int, lower_bound_of(mat, key));
                        lemma_prefix_run(mat, key, idx as int);
                        let head = mat.subrange(0, idx as int);
                        let tail = mat.subrange(idx as int, mat.len() as int);
                        assert(mat =~= head + tail);
                        lemma_select_concat(head, tail, keep);
                        lemma_select_none(head, keep);
                        assert(select(mat, keep) =~= select(tail, keep));
                        let rest_left = left.subrange(at + 1, left.len() as int);
                        assert(left.subrange(at, left.len() as int) =~= seq![left[at]] + rest_left);
                        lemma_expand_concat(seq![left[at]], rest_left, self.step());
                        lemma_expand_one(left[at], self.step());
                        lemma_mat_step_ok(
                            rest_left,
                            mat,
                            self.left_join_indices@,
                            self.right_invert_indices@,
                            self.eliminate_indices@,
                        );
                        assert(self.rest() =~= before);
                    }
                },
            }
        }
    }

    /// The next row of the join, if there is one.
    pub fn next(&mut self) -> (r: Option<Result<Tuple, EvalError>>)
        requires
            old(self).wf(),
        ensures
            final(self).wf(),
            final(self).same_join(old(self)),
            match r {
                Some(x) => x matches Ok(t) && old(self).rest() == seq![t.deep_view()]
                    + final(self).rest(),
                None => old(self).rest() == Seq::<Row>::empty() && final(self).rest()
                    == Seq::<Row>::empty(),
            },
    {
        crate::scan::invert_option_err(self.next_inner())
    }
}

/// Expanding one row is its step.
pub proof fn lemma_expand_one(row: Row, step: spec_fn(Row) -> Outcome)
    ensures
        expand(seq![row], step) == step(row),
{
    assert(seq![row].drop_last() =~= Seq::<Row>::empty());
    assert(seq![row].last() == row);
    assert(expand(Seq::<Row>::empty(), step) == Ok::<Seq<Row>, EvalError>(Seq::empty()));
    if step(row) is Ok {
        assert(Seq::<Row>::empty() + step(row)->Ok_0 =~= step(row)->Ok_0);
    }
}

/// The step of a materialized join does not fail.
pub proof fn lemma_mat_step_ok(
    rows: Seq<Row>,
    mat: Seq<Row>,
    li: Seq<usize>,
    restore: Seq<usize>,
    elim: Set<usize>,
)
    ensures
        expand(rows, mat_step(mat, li, restore, elim)) is Ok,
    decreases rows.len(),
{
    if rows.len() > 0 {
        lemma_mat_step_ok(rows.drop_last(), mat, li, restore, elim);
    }
}

/// The materialized join of the left rows with the right rows: each left
/// row with the stored right rows that begin with its key, in the order
/// of the store.
pub fn materialized_join_rows(
    left: Vec<Tuple>,
    right: Vec<Tuple>,
    join_indices: (Vec<usize>, Vec<usize>),
    right_width: usize,
    eliminate_indices: BTreeSet<usize>,
) -> (r: Vec<Tuple>)
    requires
        left@.len() > 0,
        fits(left.deep_view(), join_indices.0@),
        has_width(right.deep_view(), right_width as int),
        in_range(join_indices.1@, right_width as int),
        join_indices.1@.no_duplicates(),
    ensures
        expand(
            left.deep_view(),
            mat_step(
                gathered(
                    project_all(right.deep_view(), store_order(join_indices.1@, right_width as int)),
                ),
                join_indices.0@,
                restore_order(store_order(join_indices.1@, right_width as int), right_width as int),
                eliminate_indices@,
            ),
        ) == Ok::<Seq<Row>, EvalError>(r.deep_view()),
{
    let (left_join_indices, right_join_indices) = join_indices;
    let ghost ls = left.deep_view();
    let ghost w = right_width as int;
    let right_store_indices = store_indices(&right_join_indices, right_width);
    let right_invert_indices = sorted_positions(&right_store_indices);
    let stored_width = right_store_indices.len();
    proof {
        lemma_store_order(right_join_indices@, w);
        lemma_sorted_onto(right_store_indices@, right_invert_indices@, w);
        assert(right_invert_indices@ =~= restore_order(right_store_indices@, w));
        assert(fits(right.deep_view(), right_store_indices@)) by {
            assert forall|i: int| 0 <= i < right.deep_view().len() implies in_range(
                right_store_indices@,
                (#[trigger] right.deep_view()[i]).len() as int,
            ) by {}
        }
    }
    let cached_data = materialize(&right, &right_store_indices);
    proof {
        lemma_rows_view(&left);
        lemma_tuple_view(&left@[0]);
        assert(in_range(left_join_indices@, ls[0].len() as int));
    }
    let left_cache = clone_tuple(&left[0]);
    let (prefix, right_idx) = build_mat_range_iter(&cached_data, &left_join_indices, &left_cache);
    let mut it = CachedMaterializedIterator {
        eliminate_indices,
        left,
        left_pos: 1,
        left_cache,
        left_join_indices,
        materialized: cached_data,
        right_invert_indices,
        right_idx,
        prefix,
    };
    let ghost step = it.step();
    proof {
        let mat = it.materialized.deep_view();
        let key = it.prefix.deep_view();
        let keep = with_prefix(key);
        lemma_lower_bound_exists(mat, key);
        lemma_lower_bound_unique(mat, key, right_idx as int, lower_bound_of(mat, key));
        lemma_prefix_run(mat, key, right_idx as int);
        assert(fits(mat, it.right_invert_indices@)) by {
            assert forall|i: int| 0 <= i < mat.len() implies in_range(
                it.right_invert_indices@,
                (#[trigger] mat[i]).len() as int,
            ) by {}
        }
        let head = mat.subrange(0, right_idx as int);
        let tail = mat.subrange(right_idx as int, mat.len() as int);
        assert(mat =~= head + tail);
        lemma_select_concat(head, tail, keep);
        lemma_select_none(head, keep);
        assert(select(mat, keep) =~= select(tail, keep));
        let rest_left = ls.subrange(1, ls.len() as int);
        assert(ls =~= seq![ls[0]] + rest_left);
        lemma_expand_concat(seq![ls[0]], rest_left, step);
        lemma_expand_one(ls[0], step);
        lemma_mat_step_ok(
            rest_left,
            mat,
            it.left_join_indices@,
            it.right_invert_indices@,
            it.eliminate_indices@,
        );
        lemma_mat_step_ok(
            ls,
            mat,
            it.left_join_indices@,
            it.right_invert_indices@,
            it.eliminate_indices@,
        );
        assert(expand(ls, step)->Ok_0 =~= it.rest());
    }
    let ghost total = it.rest();
    let mut out: Vec<Tuple> = Vec::new();
    assert(out.deep_view() =~= Seq::<Row>::empty());
    loop
        invariant
            it.wf(),
            it.step() == step,
            ls == left.deep_view(),
            w == right_width as int,
            expand(ls, step) == Ok::<Seq<Row>, EvalError>(total),
            step == mat_step(
                gathered(project_all(right.deep_view(), store_order(join_indices.1@, w))),
                join_indices.0@,
                restore_order(store_order(join_indices.1@, w), w),
                eliminate_indices@,
            ),
            out.deep_view() + it.rest() == total,
        decreases it.rest().len(),
    {
        match it.next() {
            Some(item) => {
                match item {
                    Ok(t) => {
                        let ghost before = out.deep_view();
                        push_row(&mut out, t);
                        assert((before + seq![t.deep_view()]) + it.rest() =~= before + (seq![
                            t.deep_view(),
                        ] + it.rest()));
                    },
                    Err(_) => {},
                }
            },
            None => {
                assert(out.deep_view() + Seq::<Row>::empty() =~= out.deep_view());
                return out;
            },
        }
    }
}

} // verus!
