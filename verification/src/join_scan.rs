//! Joins whose right side is a scan: prefix joins, point lookups and
//! anti-joins over in-memory stores and stored relations.

use std::collections::BTreeMap;
use std::collections::BTreeSet;
use vstd::prelude::*;

use crate::bounds::{all_bot, all_null, compute_bounds};
use crate::bytecode::Bytecode;
use crate::error::EvalError;
use crate::expr::{lemma_exprs_view, Expr};
use crate::join::{glue_rows, join_is_prefix, prefix_order};
use crate::ra::{codes_model, StoredRA, StoredWithValidityRA, TempStoreRA};
use crate::rows::{
    expand, lemma_expand_failed, lemma_expand_step, lemma_select_contains, rows_result, select,
};
use crate::scan::{all_pass, append_rows, filter_iter, push_row, scan_iter};
use crate::semantics::{
    bots, candidates, chosen_bounds, drops_values, exists_step, fits, found_rows, get_step, glue,
    has_partner, is_prefix, lemma_partner_has_prefix, lemma_prefix_onto, neg_step, prefix_columns,
    prefix_step, slot_of, stored_join_step, temp_source, ScanKind,
};
use crate::sorted::{strictly_sorted, TupleSet};
use crate::store::{scan_with_prefix, scan_within, with_prefix, EpochStore, SessionTx};
use crate::symbol::{SourceSpan, Symbol};
use crate::tuple::{
    concat_tuples, eliminate_from_tuple, eliminated, in_range, lemma_rows_view, project,
    project_tuple, take_tuple, tuple_starts_with,
};
use crate::skip_scan::{lemma_select_scannable, scannable, skip_scan};
use crate::value::{clone_tuple, lemma_tuple_view, same_tuple, DataValue, Row, Tuple, Value};

verus! {

broadcast use {
    vstd::std_specs::btree::group_btree_axioms,
    vstd::laws_cmp::group_laws_cmp,
    vstd::std_specs::vec::group_vec_axioms,
};

/// The kind of source that a prefix join scans.
#[derive(Clone, Copy, Debug)]
pub enum ScanMode {
    /// An in-memory store.
    Temp,
    /// A stored relation.
    Stored,
    /// A stored relation as it was at `valid_at`.
    AsOf { key_len: usize, valid_at: i64 },
}

impl ScanMode {
    pub open spec fn model(self) -> ScanKind {
        match self {
            ScanMode::Temp => ScanKind::Temp,
            ScanMode::Stored => ScanKind::Stored,
            ScanMode::AsOf { key_len, valid_at } => ScanKind::AsOf {
                key_len: key_len as int,
                valid_at: valid_at as int,
            },
        }
    }

    /// The source can be scanned in this way: a scan in time asks for a
    /// source that can be scanned in time.
    pub open spec fn fits(self, source: Seq<Row>) -> bool {
        self matches ScanMode::AsOf { key_len, .. } ==> scannable(source, key_len as int)
    }
}

/// The model of the bounds of a scan.
pub open spec fn bounds_model(b: Option<(Tuple, Tuple)>) -> Option<(Row, Row)> {
    match b {
        Some((lo, hi)) => Some((lo.deep_view(), hi.deep_view())),
        None => None,
    }
}

/// The bounds that a prefix scan over the first `k` bindings uses.
pub fn choose_bounds(filters: &Vec<Expr>, bindings: &Vec<Symbol>, k: usize) -> (r: Option<
    (Tuple, Tuple),
>)
    ensures
        bounds_model(r) == chosen_bounds(filters.deep_view(), bindings.deep_view(), k as int),
{
    proof {
        lemma_exprs_view(filters);
    }
    if filters.len() == 0 || k > bindings.len() {
        return None;
    }
    let all = bindings.as_slice();
    let other_bindings = &all[k..bindings.len()];
    assert(other_bindings.deep_view() =~= bindings.deep_view().subrange(
        k as int,
        bindings@.len() as int,
    ));
    let (l_bound, u_bound) = compute_bounds(filters, other_bindings);
    if all_null(&l_bound) && all_bot(&u_bound) {
        None
    } else {
        Some((l_bound, u_bound))
    }
}

/// The rows of the source that a prefix join looks at for one prefix.
pub fn find_candidates(
    mode: ScanMode,
    source: &Vec<Tuple>,
    prefix: &Tuple,
    bounds: &Option<(Tuple, Tuple)>,
) -> (r: Vec<Tuple>)
    requires
        strictly_sorted(source.deep_view()),
        mode.fits(source.deep_view()),
    ensures
        r.deep_view() == candidates(
            mode.model(),
            source.deep_view(),
            prefix.deep_view(),
            bounds_model(*bounds),
        ),
{
    let in_range = match bounds {
        Some((l_bound, u_bound)) => {
            let lower = concat_tuples(prefix, l_bound);
            let mut upper = concat_tuples(prefix, u_bound);
            match mode {
                ScanMode::Temp => scan_within(source, &lower, &upper, true),
                _ => {
                    let ghost before = upper.deep_view();
                    upper.push(DataValue::Bot);
                    assert(upper.deep_view() =~= before.push(Value::Bot));
                    proof {
                        if let ScanMode::AsOf { key_len, .. } = mode {
                            lemma_select_scannable(
                                source.deep_view(),
                                crate::store::within(lower.deep_view(), upper.deep_view(), false),
                                key_len as int,
                            );
                        }
                    }
                    scan_within(source, &lower, &upper, false)
                },
            }
        },
        None => {
            proof {
                if let ScanMode::AsOf { key_len, .. } = mode {
                    lemma_select_scannable(
                        source.deep_view(),
                        with_prefix(prefix.deep_view()),
                        key_len as int,
                    );
                }
            }
            scan_with_prefix(source, prefix)
        },
    };
    match mode {
        ScanMode::AsOf { key_len, valid_at } => skip_scan(&in_range, key_len, valid_at),
        _ => in_range,
    }
}

/// The rows that a prefix join finds for one prefix.
pub fn find_rows(
    mode: ScanMode,
    source: &Vec<Tuple>,
    filters: &Vec<Expr>,
    filters_bytecodes: &Vec<(Vec<Bytecode>, SourceSpan)>,
    bounds: &Option<(Tuple, Tuple)>,
    prefix: &Tuple,
) -> (r: Result<Vec<Tuple>, EvalError>)
    requires
        strictly_sorted(source.deep_view()),
        mode.fits(source.deep_view()),
    ensures
        rows_result(r) == found_rows(
            mode.model(),
            source.deep_view(),
            filters.deep_view(),
            codes_model(filters_bytecodes@),
            bounds_model(*bounds),
            prefix.deep_view(),
        ),
{
    let found = find_candidates(mode, source, prefix, bounds);
    proof {
        lemma_exprs_view(filters);
    }
    match mode {
        ScanMode::Temp => scan_iter(filters.len() == 0, filters_bytecodes, found),
        _ => filter_iter(filters_bytecodes, found),
    }
}

/// A prefix join: each left row with the rows found under the prefix that
/// its columns `columns` make.
pub fn prefix_join_rows(
    mode: ScanMode,
    source: &Vec<Tuple>,
    filters: &Vec<Expr>,
    filters_bytecodes: &Vec<(Vec<Bytecode>, SourceSpan)>,
    bounds: &Option<(Tuple, Tuple)>,
    columns: &Vec<usize>,
    left_iter: Vec<Tuple>,
    eliminate_indices: &BTreeSet<usize>,
) -> (r: Result<Vec<Tuple>, EvalError>)
    requires
        strictly_sorted(source.deep_view()),
        fits(left_iter.deep_view(), columns@),
        mode.fits(source.deep_view()),
    ensures
        rows_result(r) == expand(
            left_iter.deep_view(),
            prefix_step(
                mode.model(),
                source.deep_view(),
                filters.deep_view(),
                codes_model(filters_bytecodes@),
                bounds_model(*bounds),
                columns@,
                eliminate_indices@,
            ),
        ),
{
    let ghost rows = left_iter.deep_view();
    let ghost step = prefix_step(
        mode.model(),
        source.deep_view(),
        filters.deep_view(),
        codes_model(filters_bytecodes@),
        bounds_model(*bounds),
        columns@,
        eliminate_indices@,
    );
    let mut out: Vec<Tuple> = Vec::new();
    let mut i: usize = 0;
    assert(rows.take(0) =~= Seq::<Row>::empty());
    assert(out.deep_view() =~= Seq::<Row>::empty());
    while i < left_iter.len()
        invariant
            0 <= i <= left_iter@.len(),
            rows == left_iter.deep_view(),
            fits(rows, columns@),
            mode.fits(source.deep_view()),
            strictly_sorted(source.deep_view()),
            step == prefix_step(
                mode.model(),
                source.deep_view(),
                filters.deep_view(),
                codes_model(filters_bytecodes@),
                bounds_model(*bounds),
                columns@,
                eliminate_indices@,
            ),
            expand(rows.take(i as int), step) == Ok::<Seq<Row>, EvalError>(out.deep_view()),
        decreases left_iter@.len() - i,
    {
        proof {
            lemma_rows_view(&left_iter);
            lemma_tuple_view(&left_iter@[i as int]);
            lemma_expand_step(rows, step, i as int);
            assert(in_range(columns@, rows[i as int].len() as int));
        }
        let prefix = project_tuple(&left_iter[i], columns);
        match find_rows(mode, source, filters, filters_bytecodes, bounds, &prefix) {
            Ok(found) => {
                let joined = glue_rows(&left_iter[i], &found, eliminate_indices);
                append_rows(&mut out, joined);
            },
            Err(e) => {
                proof {
                    lemma_expand_failed(rows, step, i as int + 1);
                }
                return Err(e);
            },
        }
        i = i + 1;
    }
    assert(rows.take(i as int) =~= rows);
    Ok(out)
}

/// The columns of a prefix are columns of the rows that the join columns
/// are columns of.
pub proof fn lemma_prefix_columns_fit(rows: Seq<Row>, li: Seq<usize>, ri: Seq<usize>)
    requires
        fits(rows, li),
        li.len() == ri.len(),
        is_prefix(ri),
    ensures
        fits(rows, prefix_columns(li, ri)),
{
    lemma_prefix_onto(ri);
    let cols = prefix_columns(li, ri);
    assert forall|i: int| 0 <= i < rows.len() implies in_range(
        cols,
        (#[trigger] rows[i]).len() as int,
    ) by {
        assert(in_range(li, rows[i].len() as int));
        assert forall|k: int| 0 <= k < cols.len() implies (#[trigger] cols[k]) < rows[i].len() by {
            let a = slot_of(ri, k);
            assert(li[a] < rows[i].len());
        }
    }
}

/// Whether some row of `found` has the values `key` in the columns `ri`.
pub fn find_partner(found: &Vec<Tuple>, ri: &Vec<usize>, key: &Tuple) -> (r: bool)
    requires
        fits(found.deep_view(), ri@),
    ensures
        r == has_partner(found.deep_view(), ri@, key.deep_view()),
{
    let ghost rows = found.deep_view();
    let mut j: usize = 0;
    while j < found.len()
        invariant
            0 <= j <= found@.len(),
            rows == found.deep_view(),
            fits(rows, ri@),
            forall|k: int| 0 <= k < j ==> project(#[trigger] rows[k], ri@) != key.deep_view(),
        decreases found@.len() - j,
    {
        proof {
            lemma_rows_view(found);
            lemma_tuple_view(&found@[j as int]);
            assert(in_range(ri@, rows[j as int].len() as int));
        }
        let candidate = project_tuple(&found[j], ri);
        if same_tuple(&candidate, key) {
            assert(project(rows[j as int], ri@) == key.deep_view());
            return true;
        }
        j = j + 1;
    }
    proof {
        lemma_rows_view(found);
    }
    false
}

/// The values that the rows of `source` have in the columns `ri`, as a set.
pub fn gather_keys(source: &Vec<Tuple>, ri: &Vec<usize>) -> (r: TupleSet)
    requires
        fits(source.deep_view(), ri@),
    ensures
        r.wf(),
        forall|x: Row| r@.contains(x) <==> has_partner(source.deep_view(), ri@, x),
{
    let ghost rows = source.deep_view();
    let mut set = TupleSet::new();
    let mut i: usize = 0;
    while i < source.len()
        invariant
            0 <= i <= source@.len(),
            rows == source.deep_view(),
            fits(rows, ri@),
            set.wf(),
            forall|x: Row|
                set@.contains(x) <==> exists|j: int|
                    0 <= j < i && project(#[trigger] rows[j], ri@) == x,
        decreases source@.len() - i,
    {
        proof {
            lemma_rows_view(source);
            lemma_tuple_view(&source@[i as int]);
            assert(in_range(ri@, rows[i as int].len() as int));
        }
        let ghost before = set@;
        let to_join = project_tuple(&source[i], ri);
        let _ = set.insert(to_join);
        proof {
            crate::sorted::lemma_inserted(before, to_join.deep_view());
            assert forall|x: Row| set@.contains(x) <==> exists|j: int|
                0 <= j < i + 1 && project(#[trigger] rows[j], ri@) == x by {
                if before.contains(x) {
                    let j = choose|j: int| 0 <= j < i && project(#[trigger] rows[j], ri@) == x;
                    assert(0 <= j < i + 1 && project(rows[j], ri@) == x);
                }
                if x == to_join.deep_view() {
                    assert(project(rows[i as int], ri@) == x);
                }
                if exists|j: int| 0 <= j < i + 1 && project(#[trigger] rows[j], ri@) == x {
                    let j = choose|j: int| 0 <= j < i + 1 && project(#[trigger] rows[j], ri@) == x;
                    if j < i {
                        assert(before.contains(x));
                    }
                }
            }
        }
        i = i + 1;
    }
    proof {
        lemma_rows_view(source);
    }
    set
}

/// An anti-join: the left rows that have no partner among `source`,
/// without the eliminated columns. Where the right columns form a prefix,
/// partners are looked for among the rows under the prefix that the left
/// row makes; else among the join values of all rows, gathered once.
pub fn anti_join(
    source: &Vec<Tuple>,
    left_iter: Vec<Tuple>,
    join_indices: (Vec<usize>, Vec<usize>),
    eliminate_indices: BTreeSet<usize>,
) -> (r: Result<Vec<Tuple>, EvalError>)
    requires
        strictly_sorted(source.deep_view()),
        join_indices.0@.len() == join_indices.1@.len(),
        fits(left_iter.deep_view(), join_indices.0@),
        fits(source.deep_view(), join_indices.1@),
    ensures
        rows_result(r) == expand(
            left_iter.deep_view(),
            neg_step(source.deep_view(), join_indices.0@, join_indices.1@, eliminate_indices@),
        ),
{
    let (left_join_indices, right_join_indices) = join_indices;
    let ghost rows = left_iter.deep_view();
    let ghost right = source.deep_view();
    let ghost step = neg_step(right, left_join_indices@, right_join_indices@, eliminate_indices@);
    let use_prefix = join_is_prefix(right_join_indices.as_slice());
    let left_to_prefix_indices = if use_prefix {
        prefix_order(&left_join_indices, &right_join_indices)
    } else {
        Vec::new()
    };
    let right_join_vals = if use_prefix {
        TupleSet::new()
    } else {
        gather_keys(source, &right_join_indices)
    };
    proof {
        if use_prefix {
            lemma_prefix_columns_fit(rows, left_join_indices@, right_join_indices@);
        }
    }
    let mut out: Vec<Tuple> = Vec::new();
    let mut i: usize = 0;
    assert(rows.take(0) =~= Seq::<Row>::empty());
    assert(out.deep_view() =~= Seq::<Row>::empty());
    while i < left_iter.len()
        invariant
            0 <= i <= left_iter@.len(),
            rows == left_iter.deep_view(),
            right == source.deep_view(),
            strictly_sorted(right),
            step == neg_step(right, left_join_indices@, right_join_indices@, eliminate_indices@),
            left_join_indices@.len() == right_join_indices@.len(),
            fits(rows, left_join_indices@),
            fits(right, right_join_indices@),
            use_prefix == is_prefix(right_join_indices@),
            use_prefix ==> left_to_prefix_indices@ == prefix_columns(
                left_join_indices@,
                right_join_indices@,
            ) && fits(rows, left_to_prefix_indices@),
            !use_prefix ==> right_join_vals.wf() && forall|x: Row|
                right_join_vals@.contains(x) <==> has_partner(right, right_join_indices@, x),
            expand(rows.take(i as int), step) == Ok::<Seq<Row>, EvalError>(out.deep_view()),
        decreases left_iter@.len() - i,
    {
        proof {
            lemma_rows_view(&left_iter);
            lemma_tuple_view(&left_iter@[i as int]);
            lemma_expand_step(rows, step, i as int);
            assert(in_range(left_join_indices@, rows[i as int].len() as int));
        }
        let left_join_vals = project_tuple(&left_iter[i], &left_join_indices);
        let blocked = if use_prefix {
            proof {
                assert(in_range(left_to_prefix_indices@, rows[i as int].len() as int));
            }
            let prefix = project_tuple(&left_iter[i], &left_to_prefix_indices);
            let found = scan_with_prefix(source, &prefix);
            proof {
                let l = rows[i as int];
                let key = project(l, left_join_indices@);
                let under = select(right, with_prefix(prefix.deep_view()));
                assert(fits(under, right_join_indices@)) by {
                    assert forall|k: int| 0 <= k < under.len() implies in_range(
                        right_join_indices@,
                        (#[trigger] under[k]).len() as int,
                    ) by {
                        lemma_select_contains(right, with_prefix(prefix.deep_view()), under[k]);
                        let j = choose|j: int| 0 <= j < right.len() && right[j] == under[k];
                        assert(in_range(right_join_indices@, right[j].len() as int));
                    }
                }
                if has_partner(right, right_join_indices@, key) {
                    let j = choose|j: int|
                        0 <= j < right.len() && project(#[trigger] right[j], right_join_indices@)
                            == key;
                    assert(in_range(right_join_indices@, right[j].len() as int));
                    lemma_partner_has_prefix(right[j], l, left_join_indices@, right_join_indices@);
                    lemma_select_contains(right, with_prefix(prefix.deep_view()), right[j]);
                    let k = choose|k: int| 0 <= k < under.len() && under[k] == right[j];
                    assert(project(under[k], right_join_indices@) == key);
                }
                if has_partner(under, right_join_indices@, key) {
                    let k = choose|k: int|
                        0 <= k < under.len() && project(#[trigger] under[k], right_join_indices@)
                            == key;
                    lemma_select_contains(right, with_prefix(prefix.deep_view()), under[k]);
                    let j = choose|j: int| 0 <= j < right.len() && right[j] == under[k];
                    assert(project(right[j], right_join_indices@) == key);
                }
            }
            find_partner(&found, &right_join_indices, &left_join_vals)
        } else {
            right_join_vals.contains(&left_join_vals)
        };
        if blocked {
            assert(out.deep_view() + Seq::<Row>::empty() =~= out.deep_view());
        } else {
            let t = eliminate_from_tuple(clone_tuple(&left_iter[i]), &eliminate_indices);
            push_row(&mut out, t);
        }
        i = i + 1;
    }
    assert(rows.take(i as int) =~= rows);
    Ok(out)
}

impl TempStoreRA {
    /// The anti-join of the rows `left_iter` with all rows of the store.
    pub fn neg_join(
        &self,
        left_iter: Vec<Tuple>,
        join_indices: (Vec<usize>, Vec<usize>),
        eliminate_indices: BTreeSet<usize>,
        stores: &BTreeMap<u64, EpochStore>,
    ) -> (r: Result<Vec<Tuple>, EvalError>)
        requires
            stores@[self.storage_key].wf(),
            stores@.contains_key(self.storage_key),
            join_indices.0@.len() == join_indices.1@.len(),
            fits(left_iter.deep_view(), join_indices.0@),
            fits(stores@[self.storage_key].all_rows(), join_indices.1@),
        ensures
            rows_result(r) == expand(
                left_iter.deep_view(),
                neg_step(
                    stores@[self.storage_key].all_rows(),
                    join_indices.0@,
                    join_indices.1@,
                    eliminate_indices@,
                ),
            ),
    {
        let storage = stores.get(&self.storage_key).unwrap();
        anti_join(&storage.total.rows, left_iter, join_indices, eliminate_indices)
    }

    /// The prefix join of the rows `left_iter` with the store: each left
    /// row with the rows of the store that begin with its join values.
    pub fn prefix_join(
        &self,
        left_iter: Vec<Tuple>,
        join_indices: (Vec<usize>, Vec<usize>),
        eliminate_indices: BTreeSet<usize>,
        delta_rule: Option<u64>,
        stores: &BTreeMap<u64, EpochStore>,
    ) -> (r: Result<Vec<Tuple>, EvalError>)
        requires
            stores@[self.storage_key].wf(),
            stores@.contains_key(self.storage_key),
            join_indices.0@.len() == join_indices.1@.len(),
            is_prefix(join_indices.1@),
            fits(left_iter.deep_view(), join_indices.0@),
        ensures
            rows_result(r) == expand(
                left_iter.deep_view(),
                prefix_step(
                    ScanKind::Temp,
                    temp_source(stores@, self.storage_key, delta_rule),
                    self.filters.deep_view(),
                    codes_model(self.filters_bytecodes@),
                    chosen_bounds(
                        self.filters.deep_view(),
                        self.bindings.deep_view(),
                        join_indices.1@.len() as int,
                    ),
                    prefix_columns(join_indices.0@, join_indices.1@),
                    eliminate_indices@,
                ),
            ),
    {
        let storage = stores.get(&self.storage_key).unwrap();
        let (left_join_indices, right_join_indices) = join_indices;
        let left_to_prefix_indices = prefix_order(&left_join_indices, &right_join_indices);
        proof {
            lemma_prefix_columns_fit(
                left_iter.deep_view(),
                left_join_indices@,
                right_join_indices@,
            );
        }
        let scan_epoch = match delta_rule {
            None => false,
            Some(name) => name == self.storage_key,
        };
        let bounds = choose_bounds(&self.filters, &self.bindings, right_join_indices.len());
        let source = if scan_epoch {
            &storage.delta.rows
        } else {
            &storage.total.rows
        };
        prefix_join_rows(
            ScanMode::Temp,
            source,
            &self.filters,
            &self.filters_bytecodes,
            &bounds,
            &left_to_prefix_indices,
            left_iter,
            &eliminate_indices,
        )
    }
}

/// The rows of the relation `id` in the snapshot.
pub fn relation_rows(tx: &SessionTx, id: u64) -> (r: Vec<Tuple>)
    ensures
        r.deep_view() == tx.rows_of(id),
{
    tx.scan(id)
}

impl StoredWithValidityRA {
    /// The prefix join of the rows `left_iter` with the relation as it
    /// was at the time of the scan.
    pub fn prefix_join(
        &self,
        tx: &SessionTx,
        left_iter: Vec<Tuple>,
        join_indices: (Vec<usize>, Vec<usize>),
        eliminate_indices: BTreeSet<usize>,
    ) -> (r: Result<Vec<Tuple>, EvalError>)
        requires
            join_indices.0@.len() == join_indices.1@.len(),
            is_prefix(join_indices.1@),
            fits(left_iter.deep_view(), join_indices.0@),
            scannable(tx.rows_of(self.storage.id), self.storage.key_len()),
        ensures
            rows_result(r) == expand(
                left_iter.deep_view(),
                prefix_step(
                    ScanKind::AsOf {
                        key_len: self.storage.key_len(),
                        valid_at: self.valid_at.0 as int,
                    },
                    tx.rows_of(self.storage.id),
                    self.filters.deep_view(),
                    codes_model(self.filters_bytecodes@),
                    chosen_bounds(
                        self.filters.deep_view(),
                        self.bindings.deep_view(),
                        join_indices.1@.len() as int,
                    ),
                    prefix_columns(join_indices.0@, join_indices.1@),
                    eliminate_indices@,
                ),
            ),
    {
        let (left_join_indices, right_join_indices) = join_indices;
        let left_to_prefix_indices = prefix_order(&left_join_indices, &right_join_indices);
        proof {
            lemma_prefix_columns_fit(
                left_iter.deep_view(),
                left_join_indices@,
                right_join_indices@,
            );
        }
        let bounds = choose_bounds(&self.filters, &self.bindings, right_join_indices.len());
        let source = relation_rows(tx, self.storage.id);
        prefix_join_rows(
            ScanMode::AsOf { key_len: self.storage.metadata.keys.len(), valid_at: self.valid_at.0 },
            &source,
            &self.filters,
            &self.filters_bytecodes,
            &bounds,
            &left_to_prefix_indices,
            left_iter,
            &eliminate_indices,
        )
    }
}

/// Whether every value column of the right side is eliminated.
pub fn drops_all_values(
    eliminate_indices: &BTreeSet<usize>,
    left_tuple_len: usize,
    key_len: usize,
    val_len: usize,
) -> (r: bool)
    ensures
        r == drops_values(
            eliminate_indices@,
            left_tuple_len as int,
            key_len as int,
            val_len as int,
        ),
{
    let mut i: usize = 0;
    while i < val_len
        invariant
            0 <= i <= val_len,
            forall|k: int|
                0 <= k < i ==> #[trigger] eliminated(
                    eliminate_indices@,
                    left_tuple_len + key_len + k,
                ),
        decreases val_len - i,
    {
        let at = match left_tuple_len.checked_add(key_len) {
            Some(a) => a.checked_add(i),
            None => None,
        };
        match at {
            Some(idx) => {
                if !eliminate_indices.contains(&idx) {
                    assert(!eliminated(eliminate_indices@, left_tuple_len + key_len + i));
                    return false;
                }
            },
            None => {
                assert(!eliminated(eliminate_indices@, left_tuple_len + key_len + i));
                return false;
            },
        }
        i = i + 1;
    }
    true
}

/// `n` times `Bot`.
fn make_bots(n: usize) -> (r: Tuple)
    ensures
        r.deep_view() == bots(n as int),
{
    let mut out: Tuple = Vec::new();
    let mut i: usize = 0;
    while i < n
        invariant
            0 <= i <= n,
            out@.len() == i,
            forall|k: int| 0 <= k < i ==> (#[trigger] out@[k]).deep_view() == Value::Bot,
        decreases n - i,
    {
        out.push(DataValue::Bot);
        i = i + 1;
    }
    assert(out.deep_view() =~= bots(n as int));
    out
}

impl StoredRA {
    /// The anti-join of the rows `left_iter` with all rows of the relation.
    pub fn neg_join(
        &self,
        tx: &SessionTx,
        left_iter: Vec<Tuple>,
        join_indices: (Vec<usize>, Vec<usize>),
        eliminate_indices: BTreeSet<usize>,
    ) -> (r: Result<Vec<Tuple>, EvalError>)
        requires
            strictly_sorted(tx.rows_of(self.storage.id)),
            join_indices.0@.len() == join_indices.1@.len(),
            fits(left_iter.deep_view(), join_indices.0@),
            fits(tx.rows_of(self.storage.id), join_indices.1@),
        ensures
            rows_result(r) == expand(
                left_iter.deep_view(),
                neg_step(
                    tx.rows_of(self.storage.id),
                    join_indices.0@,
                    join_indices.1@,
                    eliminate_indices@,
                ),
            ),
    {
        let source = relation_rows(tx, self.storage.id);
        anti_join(&source, left_iter, join_indices, eliminate_indices)
    }

    /// The join of the rows `left_iter` with the relation where the join
    /// values of a left row make a whole key: the row under that key is
    /// looked up. Where the join covers exactly the key, the scan has no
    /// filters and every value column is eliminated, it is enough to ask
    /// whether the key is there.
    pub fn point_lookup_join(
        &self,
        tx: &SessionTx,
        left_iter: Vec<Tuple>,
        key_len: usize,
        left_to_prefix_indices: Vec<usize>,
        eliminate_indices: BTreeSet<usize>,
        left_tuple_len: usize,
    ) -> (r: Result<Vec<Tuple>, EvalError>)
        requires
            strictly_sorted(tx.rows_of(self.storage.id)),
            key_len == self.storage.key_len(),
            left_to_prefix_indices@.len() >= key_len,
            fits(left_iter.deep_view(), left_to_prefix_indices@),
        ensures
            rows_result(r) == expand(
                left_iter.deep_view(),
                if self.filters.deep_view().len() == 0 && left_to_prefix_indices@.len() == key_len
                    && drops_values(
                    eliminate_indices@,
                    left_tuple_len as int,
                    key_len as int,
                    self.storage.val_len(),
                ) {
                    exists_step(
                        tx.rows_of(self.storage.id),
                        codes_model(self.filters_bytecodes@),
                        left_to_prefix_indices@,
                        self.storage.val_len(),
                        eliminate_indices@,
                    )
                } else {
                    get_step(
                        tx.rows_of(self.storage.id),
                        key_len as int,
                        codes_model(self.filters_bytecodes@),
                        left_to_prefix_indices@,
                        eliminate_indices@,
                    )
                },
            ),
    {
        let val_len = self.storage.metadata.non_keys.len();
        let ghost rows = left_iter.deep_view();
        let ghost source = tx.rows_of(self.storage.id);
        let ghost codes = codes_model(self.filters_bytecodes@);
        proof {
            lemma_exprs_view(&self.filters);
        }
        let key_only = self.filters.len() == 0 && left_to_prefix_indices.len() == key_len
            && drops_all_values(&eliminate_indices, left_tuple_len, key_len, val_len);
        let ghost step = if key_only {
            exists_step(source, codes, left_to_prefix_indices@, val_len as int, eliminate_indices@)
        } else {
            get_step(source, key_len as int, codes, left_to_prefix_indices@, eliminate_indices@)
        };
        let mut stack: Vec<DataValue> = Vec::new();
        let mut out: Vec<Tuple> = Vec::new();
        let mut i: usize = 0;
        assert(rows.take(0) =~= Seq::<Row>::empty());
        assert(out.deep_view() =~= Seq::<Row>::empty());
        while i < left_iter.len()
            invariant
                0 <= i <= left_iter@.len(),
                rows == left_iter.deep_view(),
                source == tx.rows_of(self.storage.id),
                strictly_sorted(source),
                codes == codes_model(self.filters_bytecodes@),
                val_len == self.storage.val_len(),
                key_len == self.storage.key_len(),
                left_to_prefix_indices@.len() >= key_len,
                key_only == (self.filters.deep_view().len() == 0 && left_to_prefix_indices@.len()
                    == key_len && drops_values(
                    eliminate_indices@,
                    left_tuple_len as int,
                    key_len as int,
                    val_len as int,
                )),
                fits(rows, left_to_prefix_indices@),
                step == (if key_only {
                    exists_step(
                        source,
                        codes,
                        left_to_prefix_indices@,
                        val_len as int,
                        eliminate_indices@,
                    )
                } else {
                    get_step(
                        source,
                        key_len as int,
                        codes,
                        left_to_prefix_indices@,
                        eliminate_indices@,
                    )
                }),
                expand(rows.take(i as int), step) == Ok::<Seq<Row>, EvalError>(out.deep_view()),
            decreases left_iter@.len() - i,
        {
            proof {
                lemma_rows_view(&left_iter);
                lemma_tuple_view(&left_iter@[i as int]);
                lemma_expand_step(rows, step, i as int);
                assert(in_range(left_to_prefix_indices@, rows[i as int].len() as int));
            }
            let prefix = project_tuple(&left_iter[i], &left_to_prefix_indices);
            if key_only {
                match all_pass(&self.filters_bytecodes, &prefix, &mut stack) {
                    Err(e) => {
                        proof {
                            lemma_expand_failed(rows, step, i as int + 1);
                        }
                        return Err(e);
                    },
                    Ok(false) => {
                        assert(out.deep_view() + Seq::<Row>::empty() =~= out.deep_view());
                    },
                    Ok(true) => {
                        if self.storage.key_exists(tx, &prefix) {
                            let ret = concat_tuples(&left_iter[i], &prefix);
                            let ret = concat_tuples(&ret, &make_bots(val_len));
                            let ret = eliminate_from_tuple(ret, &eliminate_indices);
                            push_row(&mut out, ret);
                        } else {
                            assert(out.deep_view() + Seq::<Row>::empty() =~= out.deep_view());
                        }
                    },
                }
            } else {
                proof {
                    lemma_tuple_view(&prefix);
                }
                let key = take_tuple(&prefix, key_len);
                match self.storage.get(tx, &key) {
                    None => {
                        assert(out.deep_view() + Seq::<Row>::empty() =~= out.deep_view());
                    },
                    Some(found) => {
                        if tuple_starts_with(&found, &prefix) {
                            match all_pass(&self.filters_bytecodes, &found, &mut stack) {
                                Err(e) => {
                                    proof {
                                        lemma_expand_failed(rows, step, i as int + 1);
                                    }
                                    return Err(e);
                                },
                                Ok(false) => {
                                    proof {
                                        let l = rows[i as int];
                                        assert(glue(
                                            l,
                                            Seq::<Row>::empty(),
                                            eliminate_indices@,
                                        ) =~= Seq::<Row>::empty());
                                        assert(out.deep_view() + Seq::<Row>::empty()
                                            =~= out.deep_view());
                                    }
                                },
                                Ok(true) => {
                                    let ret = concat_tuples(&left_iter[i], &found);
                                    let ret = eliminate_from_tuple(ret, &eliminate_indices);
                                    proof {
                                        let l = rows[i as int];
                                        assert(glue(
                                            l,
                                            seq![found.deep_view()],
                                            eliminate_indices@,
                                        ) =~= seq![ret.deep_view()]);
                                    }
                                    push_row(&mut out, ret);
                                },
                            }
                        } else {
                            assert(out.deep_view() + Seq::<Row>::empty() =~= out.deep_view());
                        }
                    },
                }
            }
            i = i + 1;
        }
        assert(rows.take(i as int) =~= rows);
        Ok(out)
    }

    /// The prefix join of the rows `left_iter` with the relation: a point
    /// lookup where the join values make a whole key, else each left row
    /// with the rows of the relation that begin with its join values.
    pub fn prefix_join(
        &self,
        tx: &SessionTx,
        left_iter: Vec<Tuple>,
        join_indices: (Vec<usize>, Vec<usize>),
        eliminate_indices: BTreeSet<usize>,
        left_tuple_len: usize,
    ) -> (r: Result<Vec<Tuple>, EvalError>)
        requires
            strictly_sorted(tx.rows_of(self.storage.id)),
            join_indices.0@.len() == join_indices.1@.len(),
            is_prefix(join_indices.1@),
            fits(left_iter.deep_view(), join_indices.0@),
        ensures
            rows_result(r) == expand(
                left_iter.deep_view(),
                stored_join_step(
                    tx.rows_of(self.storage.id),
                    self.storage.key_len(),
                    self.storage.val_len(),
                    self.filters.deep_view(),
                    codes_model(self.filters_bytecodes@),
                    self.bindings.deep_view(),
                    join_indices.0@,
                    join_indices.1@,
                    left_tuple_len as int,
                    eliminate_indices@,
                ),
            ),
    {
        let (left_join_indices, right_join_indices) = join_indices;
        let left_to_prefix_indices = prefix_order(&left_join_indices, &right_join_indices);
        proof {
            lemma_prefix_columns_fit(
                left_iter.deep_view(),
                left_join_indices@,
                right_join_indices@,
            );
        }
        let key_len = self.storage.metadata.keys.len();
        if left_to_prefix_indices.len() >= key_len {
            return self.point_lookup_join(
                tx,
                left_iter,
                key_len,
                left_to_prefix_indices,
                eliminate_indices,
                left_tuple_len,
            );
        }
        let bounds = choose_bounds(&self.filters, &self.bindings, right_join_indices.len());
        let source = relation_rows(tx, self.storage.id);
        prefix_join_rows(
            ScanMode::Stored,
            &source,
            &self.filters,
            &self.filters_bytecodes,
            &bounds,
            &left_to_prefix_indices,
            left_iter,
            &eliminate_indices,
        )
    }
}

} // verus!
