use std::collections::BTreeSet;

use cozo_core::bounds::compute_bounds;
use cozo_core::bytecode::{eval_bytecode, eval_bytecode_pred, Bytecode};
use cozo_core::error::EvalError;
use cozo_core::expr::{apply_op, Expr, Op};
use cozo_core::join::{join_is_prefix, prefix_order};
use cozo_core::materialize::{build_mat_range_iter, materialized_join_rows, store_indices};
use cozo_core::ra::ValidityTs;
use cozo_core::sorted::TupleSet;
use cozo_core::store::{
    ColType, ColumnDef, NullableColType, RelationHandle, SessionTx, StoredRelationMetadata,
};
use cozo_core::symbol::{position_of, SourceSpan, Symbol, SymbolSet};
use cozo_core::tuple::{eliminate_from_tuple, get_eliminate_indices};
use cozo_core::validity::check_key_for_validity;
use cozo_core::value::{compare_tuples, Comparison, DataValue, Tuple, Validity};

fn span() -> SourceSpan {
    SourceSpan(0, 0)
}

fn sym(name: &str) -> Symbol {
    Symbol::new(name.to_string(), span())
}

fn num(i: i64) -> DataValue {
    DataValue::Int(i)
}

fn nums(vs: &[i64]) -> Tuple {
    vs.iter().map(|v| num(*v)).collect()
}

fn text(s: &str) -> DataValue {
    DataValue::Str(s.to_string())
}

fn at(ts: i64, is_assert: bool) -> DataValue {
    DataValue::Validity(Validity { timestamp: ts, is_assert })
}

#[test]
fn values_are_ordered_by_kind_then_by_value() {
    let ordered = vec![
        DataValue::Null,
        DataValue::Bool(false),
        DataValue::Bool(true),
        num(-3),
        num(0),
        num(7),
        text(""),
        text("a"),
        text("ab"),
        text("b"),
        DataValue::List(vec![]),
        DataValue::List(vec![num(1)]),
        DataValue::List(vec![num(1), DataValue::Null]),
        DataValue::List(vec![num(2)]),
        at(9, true),
        at(9, false),
        at(3, true),
        DataValue::Bot,
    ];
    for i in 0..ordered.len() {
        for j in 0..ordered.len() {
            let expect = if i < j {
                Comparison::Less
            } else if i == j {
                Comparison::Equal
            } else {
                Comparison::Greater
            };
            assert_eq!(ordered[i].compare(&ordered[j]), expect, "{:?} vs {:?}", ordered[i], ordered[j]);
            assert_eq!(ordered[i].same(&ordered[j]), i == j);
        }
    }
}

#[test]
fn rows_are_ordered_lexicographically() {
    assert_eq!(compare_tuples(&nums(&[1, 2]), &nums(&[1, 3])), Comparison::Less);
    assert_eq!(compare_tuples(&nums(&[1]), &nums(&[1, 0])), Comparison::Less);
    assert_eq!(compare_tuples(&nums(&[2]), &nums(&[1, 9])), Comparison::Greater);
    assert_eq!(compare_tuples(&nums(&[]), &nums(&[])), Comparison::Equal);
}

#[test]
fn eliminate_from_tuple_drops_the_named_columns() {
    let set: BTreeSet<usize> = [0usize, 2].into_iter().collect();
    assert_eq!(eliminate_from_tuple(nums(&[10, 11, 12, 13]), &set), nums(&[11, 13]));
    assert_eq!(eliminate_from_tuple(nums(&[10, 11]), &BTreeSet::new()), nums(&[10, 11]));
    let bindings = vec![sym("a"), sym("b"), sym("c")];
    let gone = SymbolSet::from_symbols(&vec![sym("c"), sym("a")]);
    let idx = get_eliminate_indices(&bindings, &gone);
    assert_eq!(idx.into_iter().collect::<Vec<_>>(), vec![0, 2]);
}

#[test]
fn a_name_resolves_to_its_last_place() {
    let bindings = vec![sym("a"), sym("b"), sym("a")];
    assert_eq!(position_of(&bindings, &sym("a")), Some(2));
    assert_eq!(position_of(&bindings, &sym("b")), Some(1));
    assert_eq!(position_of(&bindings, &sym("z")), None);
}

#[test]
fn join_is_prefix_wants_the_numbers_below_the_count() {
    assert!(join_is_prefix(&[]));
    assert!(join_is_prefix(&[0]));
    assert!(join_is_prefix(&[1, 0, 2]));
    assert!(!join_is_prefix(&[1]));
    assert!(!join_is_prefix(&[0, 0]));
    assert!(!join_is_prefix(&[0, 2]));
}

#[test]
fn prefix_order_follows_the_right_columns() {
    // right columns 2, 0, 1 are matched with left columns 7, 8, 9
    assert_eq!(prefix_order(&vec![7, 8, 9], &vec![2, 0, 1]), vec![8, 9, 7]);
    assert_eq!(prefix_order(&vec![4], &vec![0]), vec![4]);
}

#[test]
fn stored_order_puts_join_columns_first() {
    assert_eq!(store_indices(&vec![2], 4), vec![2, 0, 1, 3]);
    assert_eq!(store_indices(&vec![], 2), vec![0, 1]);
}

#[test]
fn materialized_join_restores_the_order_of_columns() {
    let left = vec![nums(&[3]), nums(&[5])];
    let right = vec![nums(&[1, 3, 9]), nums(&[2, 3, 8]), nums(&[2, 5, 7]), nums(&[1, 3, 9])];
    let out = materialized_join_rows(left, right, (vec![0], vec![1]), 3, BTreeSet::new());
    assert_eq!(
        out,
        vec![nums(&[3, 1, 3, 9]), nums(&[3, 2, 3, 8]), nums(&[5, 2, 5, 7])]
    );
}

#[test]
fn build_mat_range_iter_finds_the_place_of_the_key() {
    let mat = vec![nums(&[1, 1]), nums(&[3, 0]), nums(&[3, 4]), nums(&[6, 2])];
    assert_eq!(build_mat_range_iter(&mat, &vec![1], &nums(&[9, 3])), (nums(&[3]), 1));
    assert_eq!(build_mat_range_iter(&mat, &vec![0], &nums(&[4])), (nums(&[4]), 3));
    assert_eq!(build_mat_range_iter(&mat, &vec![0], &nums(&[7])), (nums(&[7]), 4));
}

#[test]
fn a_set_of_rows_keeps_order_and_drops_repeats() {
    let mut s = TupleSet::new();
    assert!(s.insert(nums(&[2])));
    assert!(s.insert(nums(&[1])));
    assert!(!s.insert(nums(&[2])));
    assert!(s.insert(nums(&[1, 0])));
    assert_eq!(s.rows, vec![nums(&[1]), nums(&[1, 0]), nums(&[2])]);
    assert!(s.contains(&nums(&[1, 0])));
    assert!(!s.contains(&nums(&[0])));
    assert_eq!(s.lower_bound(&nums(&[1, 5])), 2);
}

#[test]
fn operators() {
    let s = SourceSpan(1, 2);
    assert_eq!(apply_op(Op::Gt, &vec![num(3), num(2)], s), Ok(DataValue::Bool(true)));
    assert_eq!(apply_op(Op::Le, &vec![num(3), num(2)], s), Ok(DataValue::Bool(false)));
    assert_eq!(apply_op(Op::Eq, &vec![text("a"), text("a")], s), Ok(DataValue::Bool(true)));
    assert_eq!(apply_op(Op::Neq, &vec![num(1), text("1")], s), Ok(DataValue::Bool(true)));
    assert_eq!(apply_op(Op::Lt, &vec![num(1)], s), Err(EvalError::TypeMismatch(s)));
    let t = DataValue::Bool(true);
    let f = DataValue::Bool(false);
    assert_eq!(apply_op(Op::And, &vec![t.clone(), f.clone()], s), Ok(f.clone()));
    assert_eq!(apply_op(Op::And, &vec![], s), Ok(t.clone()));
    assert_eq!(apply_op(Op::Or, &vec![f.clone(), t.clone()], s), Ok(t.clone()));
    assert_eq!(apply_op(Op::Or, &vec![], s), Ok(f.clone()));
    assert_eq!(apply_op(Op::Not, &vec![f.clone()], s), Ok(t.clone()));
    assert_eq!(apply_op(Op::Not, &vec![t.clone(), t.clone()], s), Err(EvalError::TypeMismatch(s)));
    assert_eq!(apply_op(Op::And, &vec![t, num(1)], s), Err(EvalError::TypeMismatch(s)));
}

#[test]
fn compiled_expressions_run_on_a_stack() {
    // (x > 1) and not (y = 2)
    let mut e = Expr::Apply {
        op: Op::And,
        args: vec![
            Expr::Apply {
                op: Op::Gt,
                args: vec![
                    Expr::Binding { var: sym("x"), tuple_pos: None },
                    Expr::Const { val: num(1), span: span() },
                ],
                span: span(),
            },
            Expr::Apply {
                op: Op::Not,
                args: vec![Expr::Apply {
                    op: Op::Eq,
                    args: vec![
                        Expr::Binding { var: sym("y"), tuple_pos: None },
                        Expr::Const { val: num(2), span: span() },
                    ],
                    span: span(),
                }],
                span: span(),
            },
        ],
        span: span(),
    };
    e.fill_binding_indices(&vec![sym("x"), sym("y")]).unwrap();
    let code = e.compile();
    assert_eq!(code.len(), 8);
    assert!(matches!(code[2], Bytecode::Apply { op: Op::Gt, arity: 2, .. }));
    assert!(matches!(code[7], Bytecode::Apply { op: Op::And, arity: 2, .. }));
    let mut stack = vec![num(99)];
    assert_eq!(eval_bytecode(&code, &nums(&[5, 3]), &mut stack), Ok(DataValue::Bool(true)));
    assert!(stack.is_empty());
    assert_eq!(eval_bytecode_pred(&code, &nums(&[5, 2]), &mut stack, span()), Ok(false));
    assert_eq!(eval_bytecode_pred(&code, &nums(&[0, 3]), &mut stack, span()), Ok(false));
    assert_eq!(
        eval_bytecode(&code, &nums(&[5]), &mut stack),
        Err(EvalError::UnboundVariable(span()))
    );
    assert_eq!(eval_bytecode(&vec![], &nums(&[5]), &mut stack), Err(EvalError::MalformedBytecode));
    let bad = vec![Bytecode::Apply { op: Op::Not, arity: 1, span: span() }];
    assert_eq!(eval_bytecode(&bad, &nums(&[5]), &mut stack), Err(EvalError::MalformedBytecode));
}

#[test]
fn bounds_are_the_tightest_that_the_filters_give() {
    let cmp = |op, name: &str, c| Expr::Apply {
        op,
        args: vec![
            Expr::Binding { var: sym(name), tuple_pos: None },
            Expr::Const { val: num(c), span: span() },
        ],
        span: span(),
    };
    let flipped = Expr::Apply {
        op: Op::Gt,
        args: vec![
            Expr::Const { val: num(100), span: span() },
            Expr::Binding { var: sym("y"), tuple_pos: None },
        ],
        span: span(),
    };
    let filters =
        vec![cmp(Op::Ge, "x", 3), cmp(Op::Gt, "x", 5), cmp(Op::Le, "x", 9), cmp(Op::Eq, "z", 4), flipped];
    let (lo, hi) = compute_bounds(&filters, &[sym("x"), sym("y"), sym("z"), sym("w")]);
    assert_eq!(lo, vec![num(5), DataValue::Null, num(4), DataValue::Null]);
    assert_eq!(hi, vec![num(9), num(100), num(4), DataValue::Bot]);
}

fn timed(id: u64) -> RelationHandle {
    let col = |name: &str, coltype| ColumnDef {
        name: name.to_string(),
        typing: NullableColType { coltype, nullable: false },
    };
    RelationHandle {
        name: "timed".to_string(),
        id,
        metadata: StoredRelationMetadata {
            keys: vec![col("id", ColType::String), col("at", ColType::Validity)],
            non_keys: vec![col("v", ColType::Int)],
        },
    }
}

#[test]
fn validity_scan_shows_the_latest_assertion_in_force() {
    // (A,1,v1), (A,3,v3), (A,5,tombstone)
    let mut tx = SessionTx::new();
    tx.put(1, vec![text("A"), at(1, true), num(1)]);
    tx.put(1, vec![text("A"), at(3, true), num(3)]);
    tx.put(1, vec![text("A"), at(5, false), DataValue::Null]);
    tx.put(1, vec![text("B"), at(2, true), num(20)]);
    let rel = timed(1);
    assert_eq!(
        rel.scan_all(&tx),
        vec![
            vec![text("A"), at(5, false), DataValue::Null],
            vec![text("A"), at(3, true), num(3)],
            vec![text("A"), at(1, true), num(1)],
            vec![text("B"), at(2, true), num(20)],
        ]
    );
    assert_eq!(
        rel.skip_scan_all(&tx, ValidityTs(4)),
        vec![vec![text("A"), at(3, true), num(3)], vec![text("B"), at(2, true), num(20)]]
    );
    assert_eq!(
        rel.skip_scan_all(&tx, ValidityTs(5)),
        vec![vec![text("B"), at(2, true), num(20)]]
    );
    assert_eq!(
        rel.skip_scan_all(&tx, ValidityTs(1)),
        vec![vec![text("A"), at(1, true), num(1)]]
    );
    assert_eq!(rel.skip_scan_all(&tx, ValidityTs(0)), Vec::<Tuple>::new());
    assert_eq!(
        rel.skip_scan_prefix(&tx, &vec![text("A")], ValidityTs(4)),
        vec![vec![text("A"), at(3, true), num(3)]]
    );
}

#[test]
fn skip_scan_decides_by_the_key_found() {
    // not yet in force: seek the first record in force
    let (emit, next) = check_key_for_validity(&vec![text("A"), at(5, true)], 4);
    assert_eq!(emit, None);
    assert_eq!(next, vec![text("A"), at(4, true)]);
    // in force and asserting: yield, then skip the keys
    let (emit, next) = check_key_for_validity(&vec![text("A"), at(3, true)], 4);
    assert_eq!(emit, Some(vec![text("A"), at(3, true)]));
    assert_eq!(next, vec![text("A"), DataValue::Bot]);
    // in force and retracting: skip the keys
    let (emit, next) = check_key_for_validity(&vec![text("A"), at(4, false)], 4);
    assert_eq!(emit, None);
    assert_eq!(next, vec![text("A"), DataValue::Bot]);
}

#[test]
fn stored_relation_scans() {
    let mut tx = SessionTx::new();
    for row in [[1, 1, 10], [1, 2, 20], [2, 1, 30], [1, 3, 40]] {
        tx.put(3, nums(&row));
    }
    let col = |name: &str| ColumnDef {
        name: name.to_string(),
        typing: NullableColType { coltype: ColType::Int, nullable: false },
    };
    let rel = RelationHandle {
        name: "r".to_string(),
        id: 3,
        metadata: StoredRelationMetadata { keys: vec![col("a"), col("b")], non_keys: vec![col("v")] },
    };
    assert_eq!(
        rel.scan_prefix(&tx, &nums(&[1])),
        vec![nums(&[1, 1, 10]), nums(&[1, 2, 20]), nums(&[1, 3, 40])]
    );
    assert_eq!(
        rel.scan_bounded_prefix(&tx, &nums(&[1]), &nums(&[2]), &nums(&[2])),
        vec![nums(&[1, 2, 20])]
    );
    assert_eq!(rel.get(&tx, &nums(&[2, 1])), Some(nums(&[2, 1, 30])));
    assert_eq!(rel.get(&tx, &nums(&[2, 2])), None);
    assert!(rel.key_exists(&tx, &nums(&[1, 3])));
    assert!(!rel.key_exists(&tx, &nums(&[3, 1])));
    let none = RelationHandle { name: "n".to_string(), id: 4, metadata: rel.metadata };
    assert_eq!(none.scan_all(&tx), Vec::<Tuple>::new());
}
