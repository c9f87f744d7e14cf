use std::cmp::Ordering;
use std::collections::{BTreeMap, BTreeSet};

use cozo_core::expr::{Expr, Op};
use cozo_core::materialize::materialized_join_rows;
use cozo_core::ra::{FilteredRA, RelAlgebra, ValidityTs};
use cozo_core::store::{
    ColType, ColumnDef, EpochStore, NullableColType, RelationHandle, SessionTx,
    StoredRelationMetadata,
};
use cozo_core::symbol::{SourceSpan, Symbol, SymbolSet};
use cozo_core::value::{compare_tuples, Comparison, DataValue, Tuple, Validity};

fn nowhere() -> SourceSpan {
    SourceSpan(0, 0)
}

fn name(s: &str) -> Symbol {
    Symbol::new(s.to_string(), nowhere())
}

fn names(ns: &[&str]) -> Vec<Symbol> {
    ns.iter().map(|n| name(n)).collect()
}

fn row(vs: &[i64]) -> Tuple {
    vs.iter().map(|v| DataValue::Int(*v)).collect()
}

fn rows(rs: &[&[i64]]) -> Vec<Tuple> {
    rs.iter().map(|r| row(r)).collect()
}

fn filled(rs: &[&[i64]]) -> EpochStore {
    let mut s = EpochStore::new();
    for r in rs {
        s.put(row(r));
    }
    s
}

fn column(n: &str, coltype: ColType) -> ColumnDef {
    ColumnDef { name: n.to_string(), typing: NullableColType { coltype, nullable: false } }
}

fn ready(mut ra: RelAlgebra, wanted: &[&str]) -> RelAlgebra {
    ra.eliminate_temp_vars(&SymbolSet::from_symbols(&names(wanted))).unwrap();
    ra.fill_binding_indices_and_compile().unwrap();
    ra
}

fn sorted(mut rs: Vec<Tuple>) -> Vec<Tuple> {
    rs.sort_by(|a, b| match compare_tuples(a, b) {
        Comparison::Less => Ordering::Less,
        Comparison::Equal => Ordering::Equal,
        Comparison::Greater => Ordering::Greater,
    });
    rs
}

fn binding(n: &str) -> Expr {
    Expr::Binding { var: name(n), tuple_pos: None }
}

fn number(i: i64) -> Expr {
    Expr::Const { val: DataValue::Int(i), span: nowhere() }
}

fn compare(op: Op, n: &str, i: i64) -> Expr {
    Expr::Apply { op, args: vec![binding(n), number(i)], span: nowhere() }
}

/// A relation with the key (a, b) and the value v.
fn pairs(tx: &mut SessionTx) -> RelationHandle {
    for r in [[1, 1, 10], [1, 2, 20], [2, 1, 30], [2, 5, 40], [3, 3, 50]] {
        tx.put(7, row(&r));
    }
    RelationHandle {
        name: "pairs".to_string(),
        id: 7,
        metadata: StoredRelationMetadata {
            keys: vec![column("a", ColType::Int), column("b", ColType::Int)],
            non_keys: vec![column("v", ColType::Int)],
        },
    }
}

#[test]
fn a_stored_relation_is_joined_by_prefix() {
    let mut tx = SessionTx::new();
    let rel = pairs(&mut tx);
    let mut stores = BTreeMap::new();
    stores.insert(1u64, filled(&[&[2], &[1], &[4]]));
    let right = RelAlgebra::relation(names(&["a", "b", "v"]), rel, nowhere(), None).unwrap();
    let ra = RelAlgebra::derived(names(&["x"]), 1, nowhere()).join(
        right,
        names(&["x"]),
        names(&["a"]),
        nowhere(),
    );
    match &ra {
        RelAlgebra::Join(j) => assert_eq!(j.join_type(), "stored_prefix_join"),
        _ => panic!("not a join"),
    }
    let ra = ready(ra, &["x", "b", "v"]);
    assert_eq!(
        ra.iter(&tx, None, &stores).unwrap(),
        rows(&[&[1, 1, 10], &[1, 2, 20], &[2, 1, 30], &[2, 5, 40]])
    );
}

#[test]
fn a_whole_key_is_looked_up() {
    let mut tx = SessionTx::new();
    let rel = pairs(&mut tx);
    let mut stores = BTreeMap::new();
    stores.insert(1u64, filled(&[&[1, 2], &[2, 2], &[3, 3]]));
    let right = RelAlgebra::relation(names(&["a", "b", "v"]), rel, nowhere(), None).unwrap();
    let ra = RelAlgebra::derived(names(&["x", "y"]), 1, nowhere()).join(
        right,
        names(&["x", "y"]),
        names(&["a", "b"]),
        nowhere(),
    );
    let ra = ready(ra, &["x", "y", "v"]);
    assert_eq!(ra.iter(&tx, None, &stores).unwrap(), rows(&[&[1, 2, 20], &[3, 3, 50]]));
}

#[test]
fn a_lookup_that_needs_no_value_asks_only_for_the_key() {
    let mut tx = SessionTx::new();
    let rel = pairs(&mut tx);
    let mut stores = BTreeMap::new();
    stores.insert(1u64, filled(&[&[1, 2], &[2, 2], &[3, 3]]));
    let right = RelAlgebra::relation(names(&["a", "b", "v"]), rel, nowhere(), None).unwrap();
    let ra = RelAlgebra::derived(names(&["x", "y"]), 1, nowhere()).join(
        right,
        names(&["x", "y"]),
        names(&["a", "b"]),
        nowhere(),
    );
    let ra = ready(ra, &["x", "y"]);
    assert_eq!(ra.iter(&tx, None, &stores).unwrap(), rows(&[&[1, 2], &[3, 3]]));
}

#[test]
fn a_lookup_with_the_keys_in_another_order() {
    let mut tx = SessionTx::new();
    let rel = pairs(&mut tx);
    let mut stores = BTreeMap::new();
    stores.insert(1u64, filled(&[&[5, 2], &[2, 1]]));
    let right = RelAlgebra::relation(names(&["a", "b", "v"]), rel, nowhere(), None).unwrap();
    // x is equated with b and y with a
    let ra = RelAlgebra::derived(names(&["x", "y"]), 1, nowhere()).join(
        right,
        names(&["x", "y"]),
        names(&["b", "a"]),
        nowhere(),
    );
    let ra = ready(ra, &["x", "y", "v"]);
    assert_eq!(ra.iter(&tx, None, &stores).unwrap(), rows(&[&[2, 1, 20], &[5, 2, 40]]));
}

#[test]
fn the_prefix_join_and_the_materialized_join_yield_the_same_rows() {
    let left = rows(&[&[2], &[1], &[4]]);
    let right = rows(&[&[1, 2], &[1, 3], &[2, 3], &[5, 1]]);
    let by_store = materialized_join_rows(
        left.clone(),
        right.clone(),
        (vec![0], vec![0]),
        2,
        BTreeSet::new(),
    );
    let mut stores = BTreeMap::new();
    let mut l = EpochStore::new();
    for r in &left {
        l.put(r.clone());
    }
    stores.insert(1u64, l);
    let mut r = EpochStore::new();
    for t in &right {
        r.put(t.clone());
    }
    stores.insert(2u64, r);
    let tx = SessionTx::new();
    let ra = RelAlgebra::derived(names(&["x"]), 1, nowhere()).join(
        RelAlgebra::derived(names(&["a", "b"]), 2, nowhere()),
        names(&["x"]),
        names(&["a"]),
        nowhere(),
    );
    match &ra {
        RelAlgebra::Join(j) => assert_eq!(j.join_type(), "mem_prefix_join"),
        _ => panic!("not a join"),
    }
    let ra = ready(ra, &["x", "a", "b"]);
    let by_prefix = ra.iter(&tx, None, &stores).unwrap();
    // the prefix join goes by the order of the store, the other by that of the left rows
    assert_eq!(by_prefix, rows(&[&[1, 1, 2], &[1, 1, 3], &[2, 2, 3]]));
    assert_eq!(by_store, rows(&[&[2, 2, 3], &[1, 1, 2], &[1, 1, 3]]));
    assert_eq!(sorted(by_store), sorted(by_prefix));
}

#[test]
fn a_filter_in_the_scan_and_a_filter_above_the_join_yield_the_same_rows() {
    let mut stores = BTreeMap::new();
    stores.insert(1u64, filled(&[&[1], &[2], &[3]]));
    stores.insert(2u64, filled(&[&[1, 4], &[1, 9], &[2, 5], &[2, 6], &[3, 1], &[4, 5]]));
    let tx = SessionTx::new();
    let join = || {
        RelAlgebra::derived(names(&["x"]), 1, nowhere()).join(
            RelAlgebra::derived(names(&["a", "b"]), 2, nowhere()),
            names(&["x"]),
            names(&["a"]),
            nowhere(),
        )
    };
    let between = || {
        Expr::Apply {
            op: Op::And,
            args: vec![compare(Op::Ge, "b", 5), compare(Op::Lt, "b", 9)],
            span: nowhere(),
        }
    };
    // pushed: the conjuncts become filters of the right scan, which scans within bounds
    let pushed = ready(join().filter(between()), &["x", "b"]);
    match &pushed {
        RelAlgebra::Join(j) => match &j.right {
            RelAlgebra::TempStore(t) => assert_eq!(t.filters.len(), 2),
            _ => panic!("right is no scan"),
        },
        _ => panic!("a filter was left above the join"),
    }
    // above: the same filter in an operator of its own over the join
    let above = ready(
        RelAlgebra::Filter(FilteredRA {
            parent: Box::new(join()),
            filters: vec![between()],
            filters_bytecodes: vec![],
            to_eliminate: SymbolSet::new(),
            span: nowhere(),
        }),
        &["x", "b"],
    );
    let expected = rows(&[&[2, 5], &[2, 6]]);
    assert_eq!(pushed.iter(&tx, None, &stores).unwrap(), expected);
    assert_eq!(above.iter(&tx, None, &stores).unwrap(), expected);
}

fn at(ts: i64, is_assert: bool) -> DataValue {
    DataValue::Validity(Validity { timestamp: ts, is_assert })
}

/// A relation with the key (id, at) and the value v: the history of two
/// things.
fn history(tx: &mut SessionTx) -> RelationHandle {
    let records = vec![
        vec![DataValue::Int(1), at(1, true), DataValue::Int(10)],
        vec![DataValue::Int(1), at(3, true), DataValue::Int(30)],
        vec![DataValue::Int(1), at(5, false), DataValue::Null],
        vec![DataValue::Int(2), at(2, true), DataValue::Int(20)],
        vec![DataValue::Int(2), at(9, true), DataValue::Int(90)],
    ];
    for r in records {
        tx.put(8, r);
    }
    history_handle()
}

fn history_handle() -> RelationHandle {
    RelationHandle {
        name: "history".to_string(),
        id: 8,
        metadata: StoredRelationMetadata {
            keys: vec![column("id", ColType::Int), column("at", ColType::Validity)],
            non_keys: vec![column("v", ColType::Int)],
        },
    }
}

#[test]
fn a_scan_in_time_shows_each_thing_as_it_was() {
    let mut tx = SessionTx::new();
    history(&mut tx);
    let stores = BTreeMap::new();
    let scan = |ts: i64| {
        let ra = RelAlgebra::relation(
            names(&["id", "at", "v"]),
            history_handle(),
            nowhere(),
            Some(ValidityTs(ts)),
        )
        .unwrap();
        ready(ra, &["id", "at", "v"]).iter(&tx, None, &stores).unwrap()
    };
    assert_eq!(
        scan(4),
        vec![
            vec![DataValue::Int(1), at(3, true), DataValue::Int(30)],
            vec![DataValue::Int(2), at(2, true), DataValue::Int(20)],
        ]
    );
    assert_eq!(scan(5), vec![vec![DataValue::Int(2), at(2, true), DataValue::Int(20)]]);
    assert_eq!(scan(0), Vec::<Tuple>::new());
    assert_eq!(
        scan(9),
        vec![vec![DataValue::Int(2), at(9, true), DataValue::Int(90)]]
    );
}

#[test]
fn a_join_in_time_finds_what_was_in_force() {
    let mut tx = SessionTx::new();
    let rel = history(&mut tx);
    let mut stores = BTreeMap::new();
    stores.insert(1u64, filled(&[&[1], &[2], &[3]]));
    let right = RelAlgebra::relation(
        names(&["id", "at", "v"]),
        rel,
        nowhere(),
        Some(ValidityTs(3)),
    )
    .unwrap();
    let ra = RelAlgebra::derived(names(&["x"]), 1, nowhere()).join(
        right,
        names(&["x"]),
        names(&["id"]),
        nowhere(),
    );
    match &ra {
        RelAlgebra::Join(j) => assert_eq!(j.join_type(), "stored_prefix_join"),
        _ => panic!("not a join"),
    }
    let ra = ready(ra, &["x", "v"]);
    assert_eq!(ra.iter(&tx, None, &stores).unwrap(), rows(&[&[1, 30], &[2, 20]]));
}
