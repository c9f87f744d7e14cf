use std::collections::BTreeSet;

use cozo_core::error::EvalError;
use cozo_core::materialize::{
    build_mat_range_iter, materialize, store_indices, CachedMaterializedIterator,
};
use cozo_core::ra::{Joiner, ValidityTs};
use cozo_core::scan::{flatten_err, invert_option_err};
use cozo_core::skip_scan::skip_scan;
use cozo_core::store::{
    ColType, ColumnDef, EpochStore, NullableColType, RelationHandle, SessionTx,
    StoredRelationMetadata,
};
use cozo_core::symbol::{SourceSpan, Symbol};
use cozo_core::value::{DataValue, Tuple, Validity};

fn word(s: &str) -> DataValue {
    DataValue::Str(s.to_string())
}

fn whole(i: i64) -> DataValue {
    DataValue::Int(i)
}

fn wholes(vs: &[i64]) -> Tuple {
    vs.iter().map(|v| whole(*v)).collect()
}

fn since(ts: i64, is_assert: bool) -> DataValue {
    DataValue::Validity(Validity { timestamp: ts, is_assert })
}

fn said(key: &str, ts: i64, v: i64) -> Tuple {
    vec![word(key), since(ts, true), whole(v)]
}

fn unsaid(key: &str, ts: i64) -> Tuple {
    vec![word(key), since(ts, false), DataValue::Null]
}

fn history() -> Vec<Tuple> {
    vec![
        said("A", 9, 90),
        unsaid("A", 7),
        said("A", 3, 30),
        said("B", 8, 80),
        said("C", 5, 50),
        unsaid("C", 5),
        unsaid("D", 2),
    ]
}

#[test]
fn skip_scan_seeks_within_a_group_and_past_it() {
    let rows = history();
    assert_eq!(skip_scan(&rows, 2, 5), vec![said("A", 3, 30), said("C", 5, 50)]);
    assert_eq!(skip_scan(&rows, 2, 8), vec![said("B", 8, 80), said("C", 5, 50)]);
    assert_eq!(
        skip_scan(&rows, 2, 100),
        vec![said("A", 9, 90), said("B", 8, 80), said("C", 5, 50)]
    );
    assert_eq!(skip_scan(&rows, 2, 1), Vec::<Tuple>::new());
    assert_eq!(skip_scan(&Vec::new(), 2, 1), Vec::<Tuple>::new());
}

#[test]
fn skip_scan_of_a_relation_follows_the_order_of_its_rows() {
    let mut tx = SessionTx::new();
    let mut rows = history();
    rows.reverse();
    for row in rows {
        tx.put(4, row);
    }
    let col = |name: &str, coltype| ColumnDef {
        name: name.to_string(),
        typing: NullableColType { coltype, nullable: false },
    };
    let rel = RelationHandle {
        name: "history".to_string(),
        id: 4,
        metadata: StoredRelationMetadata {
            keys: vec![col("id", ColType::String), col("at", ColType::Validity)],
            non_keys: vec![col("v", ColType::Int)],
        },
    };
    assert_eq!(rel.scan_all(&tx), history());
    assert_eq!(
        rel.skip_scan_all(&tx, ValidityTs(5)),
        vec![said("A", 3, 30), said("C", 5, 50)]
    );
    assert_eq!(rel.skip_scan_prefix(&tx, &vec![word("B")], ValidityTs(7)), Vec::<Tuple>::new());
    assert_eq!(
        rel.skip_scan_prefix(&tx, &vec![word("B")], ValidityTs(8)),
        vec![said("B", 8, 80)]
    );
    // among the records of A from time 8 down to time 4, the retraction is in force
    assert_eq!(
        rel.skip_scan_bounded_prefix(
            &tx,
            &vec![word("A")],
            &vec![since(8, true)],
            &vec![since(4, false)],
            ValidityTs(10),
        ),
        Vec::<Tuple>::new()
    );
    // among those from time 6 down, the first assertion is
    assert_eq!(
        rel.skip_scan_bounded_prefix(
            &tx,
            &vec![word("A")],
            &vec![since(6, true)],
            &vec![since(0, false)],
            ValidityTs(10),
        ),
        vec![said("A", 3, 30)]
    );
}

#[test]
fn an_epoch_store_scans_all_rows_and_the_new_ones() {
    let mut store = EpochStore::new();
    assert!(store.put(wholes(&[1, 2])));
    assert!(store.put(wholes(&[2, 1])));
    assert!(store.put(wholes(&[1, 1])));
    assert!(!store.put(wholes(&[1, 1])));
    assert_eq!(store.all_iter(), vec![wholes(&[1, 1]), wholes(&[1, 2]), wholes(&[2, 1])]);
    store.end_epoch();
    assert_eq!(store.delta_all_iter(), Vec::<Tuple>::new());
    assert!(store.put(wholes(&[1, 3])));
    // a row of an earlier epoch does not become one of this epoch
    assert!(!store.put(wholes(&[1, 1])));
    assert_eq!(store.delta_all_iter(), vec![wholes(&[1, 3])]);
    assert_eq!(
        store.prefix_iter(&wholes(&[1])),
        vec![wholes(&[1, 1]), wholes(&[1, 2]), wholes(&[1, 3])]
    );
    assert_eq!(store.delta_prefix_iter(&wholes(&[1])), vec![wholes(&[1, 3])]);
    assert_eq!(store.delta_prefix_iter(&wholes(&[2])), Vec::<Tuple>::new());
    assert_eq!(
        store.range_iter(&wholes(&[1, 2]), &wholes(&[2, 1]), true),
        vec![wholes(&[1, 2]), wholes(&[1, 3]), wholes(&[2, 1])]
    );
    assert_eq!(
        store.range_iter(&wholes(&[1, 2]), &wholes(&[2, 1]), false),
        vec![wholes(&[1, 2]), wholes(&[1, 3])]
    );
    assert_eq!(
        store.delta_range_iter(&wholes(&[1, 0]), &wholes(&[1, 9]), true),
        vec![wholes(&[1, 3])]
    );
}

#[test]
fn nested_results_are_flattened() {
    let inner: Result<Result<i64, EvalError>, EvalError> = Ok(Ok(3));
    assert_eq!(flatten_err(inner), Ok(3));
    let inner: Result<Result<i64, EvalError>, EvalError> = Ok(Err(EvalError::MalformedBytecode));
    assert_eq!(flatten_err(inner), Err(EvalError::MalformedBytecode));
    let outer: Result<Result<i64, EvalError>, EvalError> =
        Err(EvalError::TypeMismatch(SourceSpan(1, 2)));
    assert_eq!(flatten_err(outer), Err(EvalError::TypeMismatch(SourceSpan(1, 2))));
}

#[test]
fn a_result_of_an_option_is_turned_inside_out() {
    assert_eq!(invert_option_err(Ok(Some(3))), Some(Ok(3)));
    assert_eq!(invert_option_err::<i64>(Ok(None)), None);
    assert_eq!(
        invert_option_err::<i64>(Err(EvalError::MalformedBytecode)),
        Some(Err(EvalError::MalformedBytecode))
    );
}

#[test]
fn a_joiner_pairs_its_keys() {
    let name = |s: &str| Symbol { name: s.to_string(), span: SourceSpan(0, 0) };
    let joiner = Joiner {
        left_keys: vec![name("a"), name("b")],
        right_keys: vec![name("x"), name("y")],
    };
    assert_eq!(
        joiner.as_map(),
        vec![("a".to_string(), "x".to_string()), ("b".to_string(), "y".to_string())]
    );
}

#[test]
fn the_cached_iterator_walks_the_run_of_each_left_row() {
    // right rows (v, k), joined on k with the only column of the left rows
    let right = vec![wholes(&[10, 1]), wholes(&[20, 2]), wholes(&[30, 1])];
    let order = store_indices(&vec![1], 2);
    assert_eq!(order, vec![1, 0]);
    let stored = materialize(&right, &order);
    assert_eq!(stored, vec![wholes(&[1, 10]), wholes(&[1, 30]), wholes(&[2, 20])]);
    let left = vec![wholes(&[1]), wholes(&[3]), wholes(&[2])];
    let left_join_indices = vec![0];
    let left_cache = left[0].clone();
    let (prefix, right_idx) = build_mat_range_iter(&stored, &left_join_indices, &left_cache);
    assert_eq!((prefix.clone(), right_idx), (wholes(&[1]), 0));
    let mut it = CachedMaterializedIterator {
        materialized: stored,
        eliminate_indices: BTreeSet::new(),
        left_join_indices,
        right_invert_indices: vec![1, 0],
        right_idx,
        prefix,
        left,
        left_pos: 1,
        left_cache,
    };
    assert_eq!(it.advance_right(), Some(wholes(&[1, 10])));
    assert_eq!(it.next(), Some(Ok(wholes(&[1, 30, 1]))));
    assert_eq!(it.next(), Some(Ok(wholes(&[2, 20, 2]))));
    assert_eq!(it.next(), None);
    assert_eq!(it.next(), None);
}
