//! The operators with one input or none: scans, filters, unifications and
//! reorders, each as a function from the rows of its input to its own.

use std::collections::BTreeMap;
use std::collections::BTreeSet;
use vstd::prelude::*;

use crate::bytecode::{eval_bytecode, eval_bytecode_pred, Bytecode};
use crate::error::EvalError;
use crate::ra::{codes_model, InlineFixedRA, StoredRA, TempStoreRA};
use crate::rows::{expand, lemma_expand_failed, lemma_expand_step, rows_result};
use crate::semantics::{
    filter_step, pass_step, passes, passes_from, reorder_step, scan_rows, spread, temp_source,
    unify_step,
};
use crate::store::{EpochStore, SessionTx};
use crate::symbol::SourceSpan;
use crate::tuple::{
    eliminate_from_tuple, eliminate_indices, eliminate_row, has_width, in_range, lemma_rows_view,
    project_tuple,
};
use crate::value::{clone_tuple, lemma_tuple_view, DataValue, Row, Tuple};

verus! {

broadcast use {
    vstd::std_specs::btree::group_btree_axioms,
    vstd::laws_cmp::group_laws_cmp,
    vstd::std_specs::vec::group_vec_axioms,
};

/// The inner outcome of a nested outcome, or the failure of either level.
pub fn flatten_err<T>(v: Result<Result<T, EvalError>, EvalError>) -> (r: Result<T, EvalError>)
    ensures
        r == (match v {
            Err(e) => Err::<T, EvalError>(e),
            Ok(Err(e)) => Err(e),
            Ok(Ok(x)) => Ok(x),
        }),
{
    match v {
        Err(e) => Err(e),
        Ok(Err(e)) => Err(e),
        Ok(Ok(v)) => Ok(v),
    }
}

/// An outcome that may hold nothing, as an optional outcome.
pub fn invert_option_err<T>(v: Result<Option<T>, EvalError>) -> (r: Option<Result<T, EvalError>>)
    ensures
        r == (match v {
            Err(e) => Some(Err::<T, EvalError>(e)),
            Ok(None) => None,
            Ok(Some(x)) => Some(Ok(x)),
        }),
{
    match v {
        Err(e) => Some(Err(e)),
        Ok(None) => None,
        Ok(Some(v)) => Some(Ok(v)),
    }
}

/// Appends the rows of `more` to `out`.
pub fn append_rows(out: &mut Vec<Tuple>, more: Vec<Tuple>)
    ensures
        final(out).deep_view() == old(out).deep_view() + more.deep_view(),
{
    let ghost before = out.deep_view();
    let ghost added = more.deep_view();
    let mut more = more;
    out.append(&mut more);
    proof {
        lemma_rows_view(out);
        assert(out.deep_view() =~= before + added);
    }
}

/// Appends one row to `out`.
pub fn push_row(out: &mut Vec<Tuple>, row: Tuple)
    ensures
        final(out).deep_view() == old(out).deep_view().push(row.deep_view()),
        final(out).deep_view() == old(out).deep_view() + seq![row.deep_view()],
{
    let ghost before = out.deep_view();
    out.push(row);
    assert(out.deep_view() =~= before.push(row.deep_view()));
    assert(before.push(row.deep_view()) =~= before + seq![row.deep_view()]);
}

/// Whether every predicate holds on the row.
pub fn all_pass(
    filters_bytecodes: &Vec<(Vec<Bytecode>, SourceSpan)>,
    t: &Tuple,
    stack: &mut Vec<DataValue>,
) -> (r: Result<bool, EvalError>)
    ensures
        r == passes(codes_model(filters_bytecodes@), t.deep_view()),
{
    let ghost codes = codes_model(filters_bytecodes@);
    let ghost row = t.deep_view();
    let mut k: usize = 0;
    while k < filters_bytecodes.len()
        invariant
            0 <= k <= filters_bytecodes@.len(),
            codes == codes_model(filters_bytecodes@),
            row == t.deep_view(),
            passes(codes, row) == passes_from(codes, row, k as int),
        decreases filters_bytecodes@.len() - k,
    {
        let span = filters_bytecodes[k].1;
        match eval_bytecode_pred(&filters_bytecodes[k].0, t, stack, span) {
            Ok(false) => {
                return Ok(false);
            },
            Err(e) => {
                return Err(e);
            },
            Ok(true) => {},
        }
        k = k + 1;
    }
    Ok(true)
}

/// The rows that pass every predicate, in order; the first failing
/// predicate ends the stream.
pub fn filter_iter(filters_bytecodes: &Vec<(Vec<Bytecode>, SourceSpan)>, it: Vec<Tuple>) -> (r:
    Result<Vec<Tuple>, EvalError>)
    ensures
        rows_result(r) == expand(it.deep_view(), pass_step(codes_model(filters_bytecodes@))),
{
    let ghost rows = it.deep_view();
    let ghost step = pass_step(codes_model(filters_bytecodes@));
    let mut stack: Vec<DataValue> = Vec::new();
    let mut out: Vec<Tuple> = Vec::new();
    let mut i: usize = 0;
    assert(rows.take(0) =~= Seq::<Row>::empty());
    assert(out.deep_view() =~= Seq::<Row>::empty());
    while i < it.len()
        invariant
            0 <= i <= it@.len(),
            rows == it.deep_view(),
            step == pass_step(codes_model(filters_bytecodes@)),
            expand(rows.take(i as int), step) == Ok::<Seq<Row>, EvalError>(out.deep_view()),
        decreases it@.len() - i,
    {
        proof {
            lemma_rows_view(&it);
            lemma_expand_step(rows, step, i as int);
        }
        match all_pass(filters_bytecodes, &it[i], &mut stack) {
            Ok(true) => {
                let ghost before = out.deep_view();
                push_row(&mut out, clone_tuple(&it[i]));
            },
            Ok(false) => {
                assert(out.deep_view() + Seq::<Row>::empty() =~= out.deep_view());
            },
            Err(e) => {
                proof {
                    lemma_expand_failed(rows, step, i as int + 1);
                }
                return Err(e);
            },
        }
        i = i + 1;
    }
    assert(rows.take(i as int) =~= rows);
    Ok(out)
}

/// The rows of a scan: those of `source`, filtered where the scan has
/// filters.
pub fn scan_iter(
    no_filters: bool,
    filters_bytecodes: &Vec<(Vec<Bytecode>, SourceSpan)>,
    source: Vec<Tuple>,
) -> (r: Result<Vec<Tuple>, EvalError>)
    ensures
        rows_result(r) == (if no_filters {
            Ok::<Seq<Row>, EvalError>(source.deep_view())
        } else {
            expand(source.deep_view(), pass_step(codes_model(filters_bytecodes@)))
        }),
{
    if no_filters {
        Ok(source)
    } else {
        filter_iter(filters_bytecodes, source)
    }
}

/// The rows of a filter over the rows `input`.
pub fn filter_rows(
    filters_bytecodes: &Vec<(Vec<Bytecode>, SourceSpan)>,
    input: Vec<Tuple>,
    eliminate_indices: &BTreeSet<usize>,
) -> (r: Result<Vec<Tuple>, EvalError>)
    ensures
        rows_result(r) == expand(
            input.deep_view(),
            filter_step(codes_model(filters_bytecodes@), eliminate_indices@),
        ),
{
    let ghost rows = input.deep_view();
    let ghost step = filter_step(codes_model(filters_bytecodes@), eliminate_indices@);
    let mut stack: Vec<DataValue> = Vec::new();
    let mut out: Vec<Tuple> = Vec::new();
    let mut i: usize = 0;
    assert(rows.take(0) =~= Seq::<Row>::empty());
    assert(out.deep_view() =~= Seq::<Row>::empty());
    while i < input.len()
        invariant
            0 <= i <= input@.len(),
            rows == input.deep_view(),
            step == filter_step(codes_model(filters_bytecodes@), eliminate_indices@),
            expand(rows.take(i as int), step) == Ok::<Seq<Row>, EvalError>(out.deep_view()),
        decreases input@.len() - i,
    {
        proof {
            lemma_rows_view(&input);
            lemma_expand_step(rows, step, i as int);
        }
        match all_pass(filters_bytecodes, &input[i], &mut stack) {
            Ok(true) => {
                let t = eliminate_from_tuple(clone_tuple(&input[i]), eliminate_indices);
                push_row(&mut out, t);
            },
            Ok(false) => {
                assert(out.deep_view() + Seq::<Row>::empty() =~= out.deep_view());
            },
            Err(e) => {
                proof {
                    lemma_expand_failed(rows, step, i as int + 1);
                }
                return Err(e);
            },
        }
        i = i + 1;
    }
    assert(rows.take(i as int) =~= rows);
    Ok(out)
}

/// `tuple` extended by each of `values` in turn, without the eliminated
/// columns.
fn spread_rows(tuple: &Tuple, values: &Vec<DataValue>, eliminate_indices: &BTreeSet<usize>) -> (r:
    Vec<Tuple>)
    ensures
        r.deep_view() == spread(tuple.deep_view(), values.deep_view(), eliminate_indices@),
{
    let mut coll: Vec<Tuple> = Vec::new();
    let mut k: usize = 0;
    while k < values.len()
        invariant
            0 <= k <= values@.len(),
            coll@.len() == k,
            forall|j: int|
                0 <= j < k ==> (#[trigger] coll@[j]).deep_view() == eliminate_row(
                    tuple.deep_view().push(values@[j].deep_view()),
                    eliminate_indices@,
                ),
        decreases values@.len() - k,
    {
        let mut ret = clone_tuple(tuple);
        let ghost before = ret.deep_view();
        let v = values[k].clone();
        ret.push(v);
        assert(ret.deep_view() =~= before.push(v.deep_view()));
        let ret = eliminate_from_tuple(ret, eliminate_indices);
        coll.push(ret);
        k = k + 1;
    }
    proof {
        lemma_rows_view(&coll);
        lemma_tuple_view(values);
        assert(coll.deep_view() =~= spread(
            tuple.deep_view(),
            values.deep_view(),
            eliminate_indices@,
        ));
    }
    coll
}

/// The rows of a unification over the rows `input`.
pub fn unify_rows(
    expr_bytecode: &Vec<Bytecode>,
    is_multi: bool,
    span: SourceSpan,
    input: Vec<Tuple>,
    eliminate_indices: &BTreeSet<usize>,
) -> (r: Result<Vec<Tuple>, EvalError>)
    ensures
        rows_result(r) == expand(
            input.deep_view(),
            unify_step(expr_bytecode.deep_view(), is_multi, span, eliminate_indices@),
        ),
{
    let ghost rows = input.deep_view();
    let ghost step = unify_step(expr_bytecode.deep_view(), is_multi, span, eliminate_indices@);
    let mut stack: Vec<DataValue> = Vec::new();
    let mut out: Vec<Tuple> = Vec::new();
    let mut i: usize = 0;
    assert(rows.take(0) =~= Seq::<Row>::empty());
    assert(out.deep_view() =~= Seq::<Row>::empty());
    while i < input.len()
        invariant
            0 <= i <= input@.len(),
            rows == input.deep_view(),
            step == unify_step(expr_bytecode.deep_view(), is_multi, span, eliminate_indices@),
            expand(rows.take(i as int), step) == Ok::<Seq<Row>, EvalError>(out.deep_view()),
        decreases input@.len() - i,
    {
        proof {
            lemma_rows_view(&input);
            lemma_expand_step(rows, step, i as int);
        }
        match eval_bytecode(expr_bytecode, &input[i], &mut stack) {
            Err(e) => {
                proof {
                    lemma_expand_failed(rows, step, i as int + 1);
                }
                return Err(e);
            },
            Ok(result) => {
                if is_multi {
                    match result {
                        DataValue::List(result_list) => {
                            proof {
                                lemma_tuple_view(&result_list);
                            }
                            let coll = spread_rows(&input[i], &result_list, eliminate_indices);
                            append_rows(&mut out, coll);
                        },
                        _ => {
                            proof {
                                lemma_expand_failed(rows, step, i as int + 1);
                            }
                            return Err(EvalError::BadSpreadUnification(span));
                        },
                    }
                } else {
                    let mut ret = clone_tuple(&input[i]);
                    let ghost before = ret.deep_view();
                    ret.push(result);
                    assert(ret.deep_view() =~= before.push(result.deep_view()));
                    let ret = eliminate_from_tuple(ret, eliminate_indices);
                    push_row(&mut out, ret);
                }
            },
        }
        i = i + 1;
    }
    assert(rows.take(i as int) =~= rows);
    Ok(out)
}

/// The rows of a reorder over the rows `input`.
pub fn reorder_rows(reorder_indices: &Vec<usize>, input: Vec<Tuple>, width: usize) -> (r: Vec<
    Tuple,
>)
    requires
        has_width(input.deep_view(), width as int),
        in_range(reorder_indices@, width as int),
    ensures
        expand(input.deep_view(), reorder_step(reorder_indices@)) == Ok::<Seq<Row>, EvalError>(
            r.deep_view(),
        ),
        has_width(r.deep_view(), reorder_indices@.len() as int),
{
    let ghost rows = input.deep_view();
    let ghost step = reorder_step(reorder_indices@);
    let mut out: Vec<Tuple> = Vec::new();
    let mut i: usize = 0;
    assert(rows.take(0) =~= Seq::<Row>::empty());
    assert(out.deep_view() =~= Seq::<Row>::empty());
    while i < input.len()
        invariant
            0 <= i <= input@.len(),
            rows == input.deep_view(),
            step == reorder_step(reorder_indices@),
            has_width(rows, width as int),
            in_range(reorder_indices@, width as int),
            expand(rows.take(i as int), step) == Ok::<Seq<Row>, EvalError>(out.deep_view()),
            has_width(out.deep_view(), reorder_indices@.len() as int),
        decreases input@.len() - i,
    {
        proof {
            lemma_rows_view(&input);
            lemma_tuple_view(&input[i as int]);
            lemma_expand_step(rows, step, i as int);
            assert(rows[i as int].len() == width);
        }
        let ghost before = out.deep_view();
        let new = project_tuple(&input[i], reorder_indices);
        push_row(&mut out, new);
        proof {
            assert forall|j: int| 0 <= j < out.deep_view().len() implies (
            #[trigger] out.deep_view()[j]).len() == reorder_indices@.len() by {
                if j < before.len() {
                    assert(out.deep_view()[j] == before[j]);
                }
            }
        }
        i = i + 1;
    }
    assert(rows.take(i as int) =~= rows);
    out
}

impl InlineFixedRA {
    /// The rows of the literal relation, without the eliminated columns.
    pub fn iter(&self) -> (r: Vec<Tuple>)
        ensures
            r.deep_view() == crate::semantics::fixed_rows(
                self.bindings.deep_view(),
                self.data.deep_view(),
                self.to_eliminate@,
            ),
    {
        let eliminate = crate::tuple::get_eliminate_indices(
            self.bindings.as_slice(),
            &self.to_eliminate,
        );
        let mut out: Vec<Tuple> = Vec::new();
        let mut i: usize = 0;
        while i < self.data.len()
            invariant
                0 <= i <= self.data@.len(),
                eliminate@ == eliminate_indices(self.bindings.deep_view(), self.to_eliminate@),
                out@.len() == i,
                forall|j: int|
                    0 <= j < i ==> (#[trigger] out@[j]).deep_view() == eliminate_row(
                        self.data@[j].deep_view(),
                        eliminate@,
                    ),
            decreases self.data@.len() - i,
        {
            let t = eliminate_from_tuple(clone_tuple(&self.data[i]), &eliminate);
            out.push(t);
            i = i + 1;
        }
        proof {
            lemma_rows_view(&out);
            lemma_rows_view(&self.data);
            assert(out.deep_view() =~= crate::semantics::fixed_rows(
                self.bindings.deep_view(),
                self.data.deep_view(),
                self.to_eliminate@,
            ));
        }
        out
    }
}

impl TempStoreRA {
    /// The rows of the store, all or only those of the current epoch where
    /// `delta_rule` names this store, filtered where the scan has filters.
    pub fn iter(&self, delta_rule: Option<u64>, stores: &BTreeMap<u64, EpochStore>) -> (r: Result<
        Vec<Tuple>,
        EvalError,
    >)
        requires
            stores@.contains_key(self.storage_key),
        ensures
            rows_result(r) == scan_rows(
                self.filters.deep_view(),
                codes_model(self.filters_bytecodes@),
                temp_source(stores@, self.storage_key, delta_rule),
            ),
    {
        let storage = match stores.get(&self.storage_key) {
            Some(s) => s,
            None => vstd::pervasive::unreached(),
        };
        let scan_epoch = match delta_rule {
            None => false,
            Some(name) => name == self.storage_key,
        };
        let it = if scan_epoch {
            storage.delta_all_iter()
        } else {
            storage.all_iter()
        };
        proof {
            crate::expr::lemma_exprs_view(&self.filters);
        }
        scan_iter(self.filters.len() == 0, &self.filters_bytecodes, it)
    }
}

impl StoredRA {
    /// The rows of the relation, filtered where the scan has filters.
    pub fn iter(&self, tx: &SessionTx) -> (r: Result<Vec<Tuple>, EvalError>)
        ensures
            rows_result(r) == scan_rows(
                self.filters.deep_view(),
                codes_model(self.filters_bytecodes@),
                tx.rows_of(self.storage.id),
            ),
    {
        let it = self.storage.scan_all(tx);
        proof {
            crate::expr::lemma_exprs_view(&self.filters);
        }
        scan_iter(self.filters.len() == 0, &self.filters_bytecodes, it)
    }
}

} // verus!
