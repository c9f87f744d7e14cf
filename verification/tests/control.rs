use cozo_core::expr::Expr;
use cozo_core::imperative::{
    execute_imperative, execute_imperative_condition, Action, ImperativeError, ImperativeStmt,
    NamedRows, Progress, Reply, Source,
};
use cozo_core::path::{
    check_relations, trace_path, undirected_option, ForbiddenEdge, ForbiddenNode, Goal,
    SearchError,
};
use cozo_core::sqlite::{effective_options, query, SqliteStorage, StorageError, TxState};
use cozo_core::symbol::SourceSpan;
use cozo_core::value::{DataValue, Tuple};

fn rows_of(vals: &[i64]) -> NamedRows {
    let rows: Vec<Tuple> = vals.iter().map(|v| vec![DataValue::Int(*v)]).collect();
    NamedRows::new(vec!["x".to_string()], rows)
}

fn truth(b: bool) -> NamedRows {
    NamedRows::new(vec!["c".to_string()], vec![vec![DataValue::Int(7), DataValue::Bool(b)]])
}

/// Runs a program against a host that answers every request from a list
/// of canned replies, and gives the requests made and the end reached.
fn drive(ps: &Vec<ImperativeStmt>, canned: Vec<Reply>) -> (Vec<Action>, Progress) {
    let mut replies: Vec<Reply> = vec![];
    let mut asked = vec![];
    let mut canned = canned.into_iter();
    loop {
        match execute_imperative(ps, &replies) {
            Progress::Need(a) => {
                let reply = match &a {
                    Action::CheckPoison => Reply::Done,
                    _ => canned.next().expect("the program asked for more than was prepared"),
                };
                asked.push(a);
                replies.push(reply);
            },
            end => return (asked, end),
        }
    }
}

fn requests(asked: &[Action]) -> Vec<&Action> {
    asked.iter().filter(|a| !matches!(a, Action::CheckPoison)).collect()
}

#[test]
fn a_program_yields_the_rows_of_its_last_query() {
    let ps = vec![ImperativeStmt::Program { prog: 1 }, ImperativeStmt::Program { prog: 2 }];
    let (asked, end) = drive(&ps, vec![Reply::Rows(rows_of(&[1])), Reply::Rows(rows_of(&[2]))]);
    assert_eq!(requests(&asked), vec![&Action::RunProgram(1), &Action::RunProgram(2)]);
    assert_eq!(end, Progress::Finished(rows_of(&[2])));
    assert_eq!(asked.iter().filter(|a| matches!(a, Action::CheckPoison)).count(), 2);
}

#[test]
fn a_failing_query_fails_the_program() {
    let ps = vec![ImperativeStmt::Program { prog: 1 }, ImperativeStmt::Program { prog: 2 }];
    let (asked, end) = drive(&ps, vec![Reply::Failed(42)]);
    assert_eq!(requests(&asked), vec![&Action::RunProgram(1)]);
    assert_eq!(end, Progress::Failed(ImperativeError::Host(42)));
}

#[test]
fn an_ignored_failure_yields_the_failed_status() {
    let ps = vec![ImperativeStmt::IgnoreErrorProgram { prog: 1 }];
    let (_, end) = drive(&ps, vec![Reply::Failed(42)]);
    assert_eq!(
        end,
        Progress::Finished(NamedRows::new(
            vec!["status".to_string()],
            vec![vec![DataValue::Str("FAILED".to_string())]]
        ))
    );
}

#[test]
fn a_condition_chooses_the_branch() {
    let program = |negated| {
        vec![ImperativeStmt::If {
            condition: Source::Program(9),
            then_branch: vec![ImperativeStmt::Program { prog: 1 }],
            else_branch: vec![ImperativeStmt::Program { prog: 2 }],
            span: SourceSpan(0, 0),
            negated,
        }]
    };
    let (asked, end) =
        drive(&program(false), vec![Reply::Rows(truth(true)), Reply::Rows(rows_of(&[1]))]);
    assert_eq!(requests(&asked), vec![&Action::RunProgram(9), &Action::RunProgram(1)]);
    assert_eq!(end, Progress::Finished(rows_of(&[1])));
    let (asked, _) =
        drive(&program(true), vec![Reply::Rows(truth(true)), Reply::Rows(rows_of(&[2]))]);
    assert_eq!(requests(&asked), vec![&Action::RunProgram(9), &Action::RunProgram(2)]);
    let (asked, _) =
        drive(&program(false), vec![Reply::Rows(rows_of(&[])), Reply::Rows(rows_of(&[2]))]);
    assert_eq!(requests(&asked), vec![&Action::RunProgram(9), &Action::RunProgram(2)]);
}

#[test]
fn condition_of_an_empty_result_or_row_is_false() {
    assert!(!execute_imperative_condition(&rows_of(&[])));
    assert!(!execute_imperative_condition(&NamedRows::new(vec![], vec![vec![]])));
    assert!(execute_imperative_condition(&truth(true)));
    assert!(!execute_imperative_condition(&truth(false)));
    assert!(execute_imperative_condition(&rows_of(&[5])));
    assert!(!execute_imperative_condition(&rows_of(&[0])));
    assert!(!execute_imperative_condition(&NamedRows::new(
        vec![],
        vec![vec![DataValue::Str(String::new())]]
    )));
    assert!(execute_imperative_condition(&NamedRows::new(
        vec![],
        vec![vec![DataValue::Str("x".to_string())]]
    )));
}

#[test]
fn a_loop_runs_until_a_break() {
    // loop { if <9> { break } ; <1> }
    let ps = vec![
        ImperativeStmt::Loop {
            label: Some("outer".to_string()),
            body: vec![
                ImperativeStmt::If {
                    condition: Source::Relation("stop".to_string()),
                    then_branch: vec![ImperativeStmt::Break {
                        target: None,
                        span: SourceSpan(1, 1),
                    }],
                    else_branch: vec![],
                    span: SourceSpan(0, 0),
                    negated: false,
                },
                ImperativeStmt::Program { prog: 1 },
            ],
        },
        ImperativeStmt::Program { prog: 2 },
    ];
    let (asked, end) = drive(
        &ps,
        vec![
            Reply::Rows(truth(false)),
            Reply::Rows(rows_of(&[1])),
            Reply::Rows(truth(false)),
            Reply::Rows(rows_of(&[1])),
            Reply::Rows(truth(true)),
            Reply::Rows(rows_of(&[2])),
        ],
    );
    assert_eq!(
        requests(&asked),
        vec![
            &Action::ReadRelation("stop".to_string()),
            &Action::RunProgram(1),
            &Action::ReadRelation("stop".to_string()),
            &Action::RunProgram(1),
            &Action::ReadRelation("stop".to_string()),
            &Action::RunProgram(2),
        ]
    );
    assert_eq!(end, Progress::Finished(rows_of(&[2])));
}

#[test]
fn a_labelled_break_leaves_the_loop_of_that_label() {
    let ps = vec![
        ImperativeStmt::Loop {
            label: Some("outer".to_string()),
            body: vec![ImperativeStmt::Loop {
                label: Some("inner".to_string()),
                body: vec![ImperativeStmt::Break {
                    target: Some("outer".to_string()),
                    span: SourceSpan(1, 1),
                }],
            }],
        },
    ];
    let (asked, end) = drive(&ps, vec![]);
    assert_eq!(requests(&asked).len(), 0);
    assert_eq!(end, Progress::Finished(NamedRows::empty()));
}

#[test]
fn a_jump_without_a_loop_is_dangling() {
    let ps = vec![ImperativeStmt::Continue { target: None, span: SourceSpan(3, 4) }];
    let (_, end) = drive(&ps, vec![]);
    assert_eq!(end, Progress::Failed(ImperativeError::DanglingControlFlow(SourceSpan(3, 4))));
    let ps = vec![ImperativeStmt::Loop {
        label: Some("a".to_string()),
        body: vec![ImperativeStmt::Break {
            target: Some("b".to_string()),
            span: SourceSpan(5, 6),
        }],
    }];
    let (_, end) = drive(&ps, vec![]);
    assert_eq!(end, Progress::Failed(ImperativeError::DanglingControlFlow(SourceSpan(5, 6))));
}

#[test]
fn a_return_chains_its_results_in_order() {
    let ps = vec![
        ImperativeStmt::Return {
            returns: vec![Source::Program(1), Source::Relation("r".to_string())],
        },
        ImperativeStmt::Program { prog: 3 },
    ];
    let (asked, end) = drive(&ps, vec![Reply::Rows(rows_of(&[20])), Reply::Rows(rows_of(&[10]))]);
    assert_eq!(
        requests(&asked),
        vec![&Action::ReadRelation("r".to_string()), &Action::RunProgram(1)]
    );
    let mut first = rows_of(&[10]);
    first.next = Some(Box::new(rows_of(&[20])));
    assert_eq!(end, Progress::Finished(first));
    let (_, end) = drive(&vec![ImperativeStmt::Return { returns: vec![] }], vec![]);
    assert_eq!(end, Progress::Finished(NamedRows::empty()));
}

#[test]
fn a_swap_renames_three_times_and_ends_the_block() {
    let ps = vec![
        ImperativeStmt::TempSwap { left: "a".to_string(), right: "b".to_string() },
        ImperativeStmt::Program { prog: 1 },
    ];
    let (asked, end) = drive(&ps, vec![Reply::Done, Reply::Done, Reply::Done]);
    assert_eq!(
        requests(&asked),
        vec![
            &Action::Rename("a".to_string(), "_*temp*".to_string()),
            &Action::Rename("b".to_string(), "a".to_string()),
            &Action::Rename("_*temp*".to_string(), "b".to_string()),
        ]
    );
    assert_eq!(end, Progress::Finished(NamedRows::empty()));
}

#[test]
fn cancelling_stops_the_program() {
    let ps = vec![ImperativeStmt::Program { prog: 1 }];
    let end = execute_imperative(&ps, &vec![Reply::Failed(1)]);
    assert_eq!(end, Progress::Failed(ImperativeError::Host(1)));
    let end = execute_imperative(&ps, &vec![Reply::Done, Reply::Done]);
    assert_eq!(end, Progress::Failed(ImperativeError::UnexpectedReply));
}

#[test]
fn debug_asks_the_host_to_print() {
    let ps = vec![ImperativeStmt::TempDebug { temp: "t".to_string() }];
    let (asked, end) = drive(&ps, vec![Reply::Done]);
    assert_eq!(requests(&asked), vec![&Action::Debug("t".to_string())]);
    assert_eq!(end, Progress::Finished(NamedRows::empty()));
}

#[test]
fn goals_are_exhausted_when_all_are_visited() {
    let mut g = Goal::from_nodes(None);
    assert_eq!(g, Goal::Every);
    g.visit(3);
    assert!(!g.is_exhausted());
    assert_eq!(g.iter(3), vec![0, 1, 2]);

    let mut g = Goal::from_nodes(Some(vec![4]));
    assert_eq!(g, Goal::Single(Some(4)));
    assert_eq!(g.iter(9), vec![4]);
    g.visit(3);
    assert!(!g.is_exhausted());
    g.visit(4);
    assert!(g.is_exhausted());
    assert_eq!(g.iter(9), Vec::<usize>::new());

    let mut g = Goal::from_nodes(Some(vec![1, 5]));
    assert_eq!(g.iter(9), vec![1, 5]);
    g.visit(5);
    assert!(!g.is_exhausted());
    g.visit(1);
    assert!(g.is_exhausted());
    assert!(Goal::from_nodes(Some(vec![])).is_exhausted());
}

#[test]
fn forbidden_nodes_and_edges() {
    assert!(!ForbiddenNode::Nothing.is_forbidden(1));
    assert!(ForbiddenNode::Among(vec![2, 1]).is_forbidden(1));
    assert!(!ForbiddenNode::Among(vec![2]).is_forbidden(1));
    assert!(!ForbiddenEdge::Nothing.is_forbidden(1, 2));
    assert!(ForbiddenEdge::Among(vec![(1, 2)]).is_forbidden(1, 2));
    assert!(!ForbiddenEdge::Among(vec![(1, 2)]).is_forbidden(2, 1));
}

#[test]
fn a_path_follows_the_back_pointers() {
    // 0 -> 2 -> 1 -> 3
    let back = vec![usize::MAX, 2, 0, 1];
    assert_eq!(trace_path(&back, 0, 3), vec![0, 2, 1, 3]);
    assert_eq!(trace_path(&back, 0, 0), vec![0]);
    assert_eq!(trace_path(&back, 2, 3), vec![2, 1, 3]);
}

#[test]
fn a_search_needs_edges_and_starting_nodes() {
    assert_eq!(check_relations(0), Err(SearchError::NoEdges));
    assert_eq!(check_relations(1), Err(SearchError::NoStartingNodes));
    assert_eq!(check_relations(2), Ok(()));
    assert_eq!(check_relations(3), Ok(()));
    assert_eq!(undirected_option(None), Ok(false));
    let yes = Expr::Const { val: DataValue::Bool(true), span: SourceSpan(0, 0) };
    assert_eq!(undirected_option(Some(&yes)), Ok(true));
    let no = Expr::Const { val: DataValue::Int(1), span: SourceSpan(0, 0) };
    assert_eq!(undirected_option(Some(&no)), Err(SearchError::UndirectedNotBoolean));
}

#[test]
fn storage_refuses_an_empty_path() {
    assert_eq!(SqliteStorage::new(String::new()).err(), Some(StorageError::EmptyPath));
    let s = SqliteStorage::new("db.sqlite".to_string()).unwrap();
    assert_eq!(s.name, "db.sqlite");
    assert_eq!(s.storage_kind(), "sqlite");
    assert_eq!(query(0), "select v from cozo where k = ?;");
    assert_eq!(query(5), "select k, v from cozo where k >= ? and k < ? order by k limit 1;");
}

#[test]
fn a_writing_transaction_commits_once() {
    let (mut tx, run_begin) = TxState::begin(true);
    assert!(run_begin);
    assert!(tx.needs_rollback());
    assert_eq!(tx.commit(), Ok(true));
    assert!(!tx.needs_rollback());
    assert_eq!(tx.commit(), Err(StorageError::MultipleCommits));
    let (mut tx, run_begin) = TxState::begin(false);
    assert!(!run_begin);
    assert!(!tx.needs_rollback());
    assert_eq!(tx.commit(), Ok(false));
    assert_eq!(tx.commit(), Ok(false));
}

#[test]
fn options_default_to_an_empty_object() {
    assert_eq!(effective_options(""), "{}");
    assert_eq!(effective_options("{\"a\":1}"), "{\"a\":1}");
}
