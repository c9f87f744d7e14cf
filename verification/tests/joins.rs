use std::collections::BTreeMap;

use cozo_core::error::EvalError;
use cozo_core::expr::{Expr, Op};
use cozo_core::ra::{InlineFixedRA, RelAlgebra};
use cozo_core::store::{
    ColType, ColumnDef, EpochStore, NullableColType, RelationHandle, SessionTx,
    StoredRelationMetadata,
};
use cozo_core::symbol::{SourceSpan, Symbol, SymbolSet};
use cozo_core::value::{DataValue, Tuple};

fn span() -> SourceSpan {
    SourceSpan(0, 0)
}

fn sym(name: &str) -> Symbol {
    Symbol::new(name.to_string(), span())
}

fn syms(names: &[&str]) -> Vec<Symbol> {
    names.iter().map(|n| sym(n)).collect()
}

fn num(i: i64) -> DataValue {
    DataValue::Int(i)
}

fn ints(vs: &[i64]) -> Tuple {
    vs.iter().map(|v| num(*v)).collect()
}

fn var(name: &str) -> Expr {
    Expr::Binding { var: sym(name), tuple_pos: None }
}

fn lit(i: i64) -> Expr {
    Expr::Const { val: num(i), span: span() }
}

fn apply(op: Op, args: Vec<Expr>) -> Expr {
    Expr::Apply { op, args, span: span() }
}

fn store_of(rows: &[&[i64]]) -> EpochStore {
    let mut s = EpochStore::new();
    for r in rows {
        s.put(ints(r));
    }
    s
}

fn used(names: &[&str]) -> SymbolSet {
    SymbolSet::from_symbols(&syms(names))
}

fn col(name: &str, coltype: ColType) -> ColumnDef {
    ColumnDef { name: name.to_string(), typing: NullableColType { coltype, nullable: false } }
}

fn handle(id: u64, keys: Vec<ColumnDef>, non_keys: Vec<ColumnDef>) -> RelationHandle {
    RelationHandle {
        name: format!("rel{id}"),
        id,
        metadata: StoredRelationMetadata { keys, non_keys },
    }
}

fn plan(mut ra: RelAlgebra, wanted: &[&str]) -> RelAlgebra {
    ra.eliminate_temp_vars(&used(wanted)).unwrap();
    ra.fill_binding_indices_and_compile().unwrap();
    ra
}

#[test]
fn test_mat_join() {
    // data[a, b] <- [[1, 2], [1, 3], [2, 3]]
    // ?[x] := a = 3, data[x, a]
    let mut stores = BTreeMap::new();
    stores.insert(1u64, store_of(&[&[1, 2], &[1, 3], &[2, 3]]));
    let tx = SessionTx::new();
    let ra = RelAlgebra::unit(span())
        .unify(sym("a"), lit(3), false, span())
        .join(RelAlgebra::derived(syms(&["x", "b"]), 1, span()), syms(&["a"]), syms(&["b"]), span())
        .reorder(syms(&["x"]));
    let ra = plan(ra, &["x"]);
    let res = ra.iter(&tx, None, &stores).unwrap();
    assert_eq!(res, vec![vec![DataValue::Int(1)], vec![DataValue::Int(2)]])
}

#[test]
fn materialized_join_strategy_is_chosen_for_second_column() {
    let ra = RelAlgebra::unit(span())
        .unify(sym("a"), lit(3), false, span())
        .join(RelAlgebra::derived(syms(&["x", "b"]), 1, span()), syms(&["a"]), syms(&["b"]), span());
    match &ra {
        RelAlgebra::Join(j) => assert_eq!(j.join_type(), "mem_mat_join"),
        _ => panic!("not a join"),
    }
}

#[test]
fn prefix_join_strategy_is_chosen_for_first_column() {
    let ra = RelAlgebra::unit(span())
        .unify(sym("a"), lit(1), false, span())
        .join(RelAlgebra::derived(syms(&["x", "b"]), 1, span()), syms(&["a"]), syms(&["x"]), span());
    match &ra {
        RelAlgebra::Join(j) => assert_eq!(j.join_type(), "mem_prefix_join"),
        _ => panic!("not a join"),
    }
}

#[test]
fn prefix_join_on_first_column() {
    let mut stores = BTreeMap::new();
    stores.insert(1u64, store_of(&[&[1, 2], &[1, 3], &[2, 3]]));
    let tx = SessionTx::new();
    let ra = RelAlgebra::unit(span())
        .unify(sym("a"), lit(1), false, span())
        .join(RelAlgebra::derived(syms(&["x", "b"]), 1, span()), syms(&["a"]), syms(&["x"]), span());
    let ra = plan(ra, &["a", "x", "b"]);
    let res = ra.iter(&tx, None, &stores).unwrap();
    assert_eq!(res, vec![ints(&[1, 1, 2]), ints(&[1, 1, 3])]);
}

#[test]
fn prefix_join_with_keys_in_swapped_order() {
    // The right keys (b, x) are the columns 1 and 0: a prefix in another order.
    let mut stores = BTreeMap::new();
    stores.insert(1u64, store_of(&[&[1, 2, 7], &[1, 3, 8], &[2, 1, 9]]));
    stores.insert(2u64, store_of(&[&[2, 1], &[3, 1], &[5, 5]]));
    let tx = SessionTx::new();
    let left = RelAlgebra::derived(syms(&["p", "q"]), 2, span());
    let right = RelAlgebra::derived(syms(&["x", "b", "c"]), 1, span());
    let ra = left.join(right, syms(&["p", "q"]), syms(&["b", "x"]), span());
    match &ra {
        RelAlgebra::Join(j) => assert_eq!(j.join_type(), "mem_prefix_join"),
        _ => panic!("not a join"),
    }
    let ra = plan(ra, &["p", "q", "x", "b", "c"]);
    let res = ra.iter(&tx, None, &stores).unwrap();
    assert_eq!(res, vec![ints(&[2, 1, 1, 2, 7]), ints(&[3, 1, 1, 3, 8])]);
}

#[test]
fn unit_is_left_identity_of_join() {
    // r[x] = {(10), (20)}; all x from Unit joined with r
    let mut stores = BTreeMap::new();
    stores.insert(7u64, store_of(&[&[20], &[10]]));
    let tx = SessionTx::new();
    let ra = RelAlgebra::unit(span()).cartesian_join(
        RelAlgebra::derived(syms(&["x"]), 7, span()),
        span(),
    );
    let ra = plan(ra, &["x"]);
    let res = ra.iter(&tx, None, &stores).unwrap();
    assert_eq!(res, vec![ints(&[10]), ints(&[20])]);
    let alone = plan(RelAlgebra::derived(syms(&["x"]), 7, span()), &["x"]);
    assert_eq!(alone.iter(&tx, None, &stores).unwrap(), res);
}

#[test]
fn anti_join_drops_left_rows_with_a_partner() {
    // l[x] = {(1),(2),(3)}, r[x] = {(2)}; l[x] and not r[x]
    let mut stores = BTreeMap::new();
    stores.insert(1u64, store_of(&[&[1], &[2], &[3]]));
    stores.insert(2u64, store_of(&[&[2]]));
    let tx = SessionTx::new();
    let ra = RelAlgebra::derived(syms(&["x"]), 1, span()).neg_join(
        RelAlgebra::derived(syms(&["y"]), 2, span()),
        syms(&["x"]),
        syms(&["y"]),
        span(),
    );
    match &ra {
        RelAlgebra::NegJoin(j) => assert_eq!(j.join_type(), "mem_neg_prefix_join"),
        _ => panic!("not an anti-join"),
    }
    let ra = plan(ra, &["x"]);
    let res = ra.iter(&tx, None, &stores).unwrap();
    assert_eq!(res, vec![ints(&[1]), ints(&[3])]);
}

#[test]
fn anti_join_on_a_column_that_is_no_prefix() {
    let mut stores = BTreeMap::new();
    stores.insert(1u64, store_of(&[&[1], &[2], &[3]]));
    stores.insert(2u64, store_of(&[&[9, 2], &[8, 3]]));
    let tx = SessionTx::new();
    let ra = RelAlgebra::derived(syms(&["x"]), 1, span()).neg_join(
        RelAlgebra::derived(syms(&["k", "y"]), 2, span()),
        syms(&["x"]),
        syms(&["y"]),
        span(),
    );
    match &ra {
        RelAlgebra::NegJoin(j) => assert_eq!(j.join_type(), "mem_neg_mat_join"),
        _ => panic!("not an anti-join"),
    }
    let ra = plan(ra, &["x"]);
    let res = ra.iter(&tx, None, &stores).unwrap();
    assert_eq!(res, vec![ints(&[1])]);
}

#[test]
fn anti_join_over_a_stored_relation() {
    let mut tx = SessionTx::new();
    tx.put(5, ints(&[2, 0]));
    let mut stores = BTreeMap::new();
    stores.insert(1u64, store_of(&[&[1], &[2], &[3]]));
    let right = RelAlgebra::relation(
        syms(&["y", "v"]),
        handle(5, vec![col("y", ColType::Int)], vec![col("v", ColType::Int)]),
        span(),
        None,
    )
    .unwrap();
    let ra = RelAlgebra::derived(syms(&["x"]), 1, span()).neg_join(
        right,
        syms(&["x"]),
        syms(&["y"]),
        span(),
    );
    match &ra {
        RelAlgebra::NegJoin(j) => assert_eq!(j.join_type(), "stored_neg_prefix_join"),
        _ => panic!("not an anti-join"),
    }
    let ra = plan(ra, &["x"]);
    assert_eq!(ra.iter(&tx, None, &stores).unwrap(), vec![ints(&[1]), ints(&[3])]);
}

#[test]
fn multi_unification_spreads_a_list() {
    // r[a, l] = {(1, [10, 20]), (2, [])}; (a, v) for each v in l
    let mut store = EpochStore::new();
    store.put(vec![num(1), DataValue::List(vec![num(10), num(20)])]);
    store.put(vec![num(2), DataValue::List(vec![])]);
    let mut stores = BTreeMap::new();
    stores.insert(1u64, store);
    let tx = SessionTx::new();
    let ra = RelAlgebra::derived(syms(&["a", "l"]), 1, span()).unify(
        sym("v"),
        var("l"),
        true,
        span(),
    );
    let ra = plan(ra, &["a", "v"]);
    let res = ra.iter(&tx, None, &stores).unwrap();
    assert_eq!(res, vec![ints(&[1, 10]), ints(&[1, 20])]);
}

#[test]
fn multi_unification_of_a_value_that_is_no_list_fails() {
    let mut stores = BTreeMap::new();
    stores.insert(1u64, store_of(&[&[1, 5]]));
    let tx = SessionTx::new();
    let where_ = SourceSpan(3, 4);
    let ra = RelAlgebra::derived(syms(&["a", "l"]), 1, span()).unify(
        sym("v"),
        var("l"),
        true,
        where_,
    );
    let ra = plan(ra, &["a", "v"]);
    assert_eq!(ra.iter(&tx, None, &stores), Err(EvalError::BadSpreadUnification(where_)));
}

#[test]
fn single_unification_appends_the_value() {
    let mut stores = BTreeMap::new();
    stores.insert(1u64, store_of(&[&[1], &[4]]));
    let tx = SessionTx::new();
    let ra = RelAlgebra::derived(syms(&["a"]), 1, span()).unify(
        sym("big"),
        apply(Op::Gt, vec![var("a"), lit(2)]),
        false,
        span(),
    );
    let ra = plan(ra, &["a", "big"]);
    assert_eq!(
        ra.iter(&tx, None, &stores).unwrap(),
        vec![vec![num(1), DataValue::Bool(false)], vec![num(4), DataValue::Bool(true)]]
    );
}

#[test]
fn filter_pushdown_splits_a_conjunction_over_a_join() {
    // l[x] joined with r[x2, y], filter x > 5 and y < 10
    let l = RelAlgebra::derived(syms(&["x"]), 1, span());
    let r = RelAlgebra::derived(syms(&["x2", "y"]), 2, span());
    let filter = apply(
        Op::And,
        vec![apply(Op::Gt, vec![var("x"), lit(5)]), apply(Op::Lt, vec![var("y"), lit(10)])],
    );
    let ra = l.join(r, syms(&["x"]), syms(&["x2"]), span()).filter(filter);
    let ra = plan(ra, &["x", "y"]);
    match &ra {
        RelAlgebra::Join(j) => {
            match &j.left {
                RelAlgebra::TempStore(t) => {
                    assert_eq!(t.filters.len(), 1);
                    assert_eq!(
                        t.filters[0],
                        Expr::Apply {
                            op: Op::Gt,
                            args: vec![
                                Expr::Binding { var: sym("x"), tuple_pos: Some(0) },
                                lit(5)
                            ],
                            span: span()
                        }
                    );
                },
                _ => panic!("left is no scan"),
            }
            match &j.right {
                RelAlgebra::TempStore(t) => {
                    assert_eq!(t.filters.len(), 1);
                    assert_eq!(
                        t.filters[0],
                        Expr::Apply {
                            op: Op::Lt,
                            args: vec![
                                Expr::Binding { var: sym("y"), tuple_pos: Some(1) },
                                lit(10)
                            ],
                            span: span()
                        }
                    );
                },
                _ => panic!("right is no scan"),
            }
        },
        _ => panic!("a residual filter was left above the join"),
    }
    let mut stores = BTreeMap::new();
    stores.insert(1u64, store_of(&[&[3], &[6], &[7]]));
    stores.insert(2u64, store_of(&[&[6, 1], &[6, 12], &[7, 2], &[3, 0]]));
    let tx = SessionTx::new();
    let res = ra.iter(&tx, None, &stores).unwrap();
    assert_eq!(res, vec![ints(&[6, 1]), ints(&[7, 2])]);
}

#[test]
fn filter_on_both_sides_stays_above_the_join() {
    let l = RelAlgebra::derived(syms(&["x"]), 1, span());
    let r = RelAlgebra::derived(syms(&["y"]), 2, span());
    let ra = l.cartesian_join(r, span()).filter(apply(Op::Lt, vec![var("x"), var("y")]));
    let ra = plan(ra, &["x", "y"]);
    assert!(matches!(&ra, RelAlgebra::Filter(_)));
    let mut stores = BTreeMap::new();
    stores.insert(1u64, store_of(&[&[1], &[5]]));
    stores.insert(2u64, store_of(&[&[2], &[6]]));
    let tx = SessionTx::new();
    assert_eq!(
        ra.iter(&tx, None, &stores).unwrap(),
        vec![ints(&[1, 2]), ints(&[1, 6]), ints(&[5, 6])]
    );
}

#[test]
fn filters_fuse() {
    let base = || {
        RelAlgebra::unit(span()).unify(sym("a"), lit(3), false, span())
    };
    let p = || apply(Op::Gt, vec![var("a"), lit(1)]);
    let q = || apply(Op::Lt, vec![var("a"), lit(9)]);
    let fused = base().filter(q()).filter(p());
    match &fused {
        RelAlgebra::Filter(f) => {
            assert_eq!(f.filters.len(), 2);
            assert!(matches!(&*f.parent, RelAlgebra::Unification(_)));
        },
        _ => panic!("no filter"),
    }
    let tx = SessionTx::new();
    let stores = BTreeMap::new();
    let fused = plan(fused, &["a"]);
    assert_eq!(fused.iter(&tx, None, &stores).unwrap(), vec![ints(&[3])]);
}

#[test]
fn delta_scan_reads_the_current_epoch_only() {
    let mut s = store_of(&[&[1], &[2]]);
    s.end_epoch();
    s.put(ints(&[3]));
    let mut stores = BTreeMap::new();
    stores.insert(4u64, s);
    let tx = SessionTx::new();
    let ra = plan(RelAlgebra::derived(syms(&["x"]), 4, span()), &["x"]);
    assert_eq!(ra.iter(&tx, None, &stores).unwrap(), vec![ints(&[1]), ints(&[2]), ints(&[3])]);
    assert_eq!(ra.iter(&tx, Some(4), &stores).unwrap(), vec![ints(&[3])]);
    assert_eq!(ra.iter(&tx, Some(5), &stores).unwrap(), vec![ints(&[1]), ints(&[2]), ints(&[3])]);
}

#[test]
fn scan_yields_rows_in_key_order() {
    let mut stores = BTreeMap::new();
    stores.insert(1u64, store_of(&[&[3, 1], &[1, 9], &[2, 5], &[1, 2], &[1, 9]]));
    let tx = SessionTx::new();
    let ra = plan(RelAlgebra::derived(syms(&["a", "b"]), 1, span()), &["a", "b"]);
    assert_eq!(
        ra.iter(&tx, None, &stores).unwrap(),
        vec![ints(&[1, 2]), ints(&[1, 9]), ints(&[2, 5]), ints(&[3, 1])]
    );
}

#[test]
fn predicate_that_is_no_boolean_fails() {
    let mut stores = BTreeMap::new();
    stores.insert(1u64, store_of(&[&[1]]));
    let tx = SessionTx::new();
    let ra = RelAlgebra::derived(syms(&["x"]), 1, span()).filter(var("x"));
    let ra = plan(ra, &["x"]);
    assert_eq!(ra.iter(&tx, None, &stores), Err(EvalError::PredicateType(span())));
}

#[test]
fn unknown_binding_fails_at_planning() {
    let where_ = SourceSpan(11, 2);
    let mut ra = RelAlgebra::derived(syms(&["x"]), 1, span()).filter(apply(
        Op::Gt,
        vec![Expr::Binding { var: Symbol::new("nope".to_string(), where_), tuple_pos: None }, lit(1)],
    ));
    assert_eq!(ra.fill_binding_indices_and_compile(), Err(EvalError::UnboundVariable(where_)));
}

#[test]
fn time_travel_needs_a_validity_key() {
    let h = handle(1, vec![col("id", ColType::Int)], vec![]);
    let r = RelAlgebra::relation(
        syms(&["id"]),
        h,
        SourceSpan(2, 3),
        Some(cozo_core::ra::ValidityTs(4)),
    );
    assert!(matches!(r, Err(EvalError::InvalidTimeTravelScanning(SourceSpan(2, 3)))));
    let h = handle(1, vec![col("id", ColType::Int), col("at", ColType::Validity)], vec![]);
    let r = RelAlgebra::relation(
        syms(&["id", "at"]),
        h,
        span(),
        Some(cozo_core::ra::ValidityTs(4)),
    );
    assert!(matches!(r, Ok(RelAlgebra::StoredWithValidity(_))));
}

#[test]
fn join_with_a_literal_relation() {
    let fixed = RelAlgebra::Fixed(InlineFixedRA {
        bindings: syms(&["k", "w"]),
        data: vec![ints(&[1, 100]), ints(&[2, 200]), ints(&[1, 101])],
        to_eliminate: SymbolSet::new(),
        span: span(),
    });
    let mut stores = BTreeMap::new();
    stores.insert(1u64, store_of(&[&[1], &[3]]));
    let tx = SessionTx::new();
    let ra = RelAlgebra::derived(syms(&["x"]), 1, span()).join(
        fixed,
        syms(&["x"]),
        syms(&["k"]),
        span(),
    );
    match &ra {
        RelAlgebra::Join(j) => assert_eq!(j.join_type(), "fixed_join"),
        _ => panic!("not a join"),
    }
    let ra = plan(ra, &["x", "w"]);
    assert_eq!(ra.iter(&tx, None, &stores).unwrap(), vec![ints(&[1, 100]), ints(&[1, 101])]);
}

#[test]
fn elimination_twice_is_elimination_once() {
    let build = || {
        RelAlgebra::derived(syms(&["x", "y"]), 1, span())
            .unify(sym("z"), var("x"), false, span())
            .filter(apply(Op::Gt, vec![var("y"), lit(0)]))
    };
    let mut once = build();
    once.eliminate_temp_vars(&used(&["z"])).unwrap();
    let mut twice = build();
    twice.eliminate_temp_vars(&used(&["z"])).unwrap();
    twice.eliminate_temp_vars(&used(&["z"])).unwrap();
    assert_eq!(
        once.bindings_after_eliminate(),
        twice.bindings_after_eliminate()
    );
    assert_eq!(once.bindings_after_eliminate(), syms(&["z"]));
    once.fill_binding_indices_and_compile().unwrap();
    twice.fill_binding_indices_and_compile().unwrap();
    let mut stores = BTreeMap::new();
    stores.insert(1u64, store_of(&[&[1, 1], &[2, 0], &[3, 4]]));
    let tx = SessionTx::new();
    let a = once.iter(&tx, None, &stores).unwrap();
    let b = twice.iter(&tx, None, &stores).unwrap();
    assert_eq!(a, b);
    assert_eq!(a, vec![ints(&[1]), ints(&[3])]);
}
