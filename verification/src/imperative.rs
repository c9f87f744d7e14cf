//! The imperative layer: a program of statements that runs queries and
//! steers by their results.
//!
//! Running a query, reading or renaming a relation and asking whether the
//! program has been cancelled are the work of a host. The interpreter
//! here is a function of the program and of the replies that the host has
//! given so far: it follows the program, takes one reply for each request
//! that it has made, and ends with the result of the program, with its
//! failure, or with the next request.

use vstd::prelude::*;

use crate::sorted::clone_rows;
use crate::symbol::SourceSpan;
use crate::tuple::lemma_rows_view;
use crate::value::{lemma_tuple_view, DataValue, Row, Tuple, Value};

verus! {

broadcast use vstd::std_specs::vec::group_vec_axioms;

/// The rows of a query under the names of their columns, and the result
/// that follows where a program returns several.
#[derive(Debug, PartialEq, Eq)]
pub struct NamedRows {
    pub headers: Vec<String>,
    pub rows: Vec<Tuple>,
    pub next: Option<Box<NamedRows>>,
}

/// The mathematical model of named rows.
pub struct RowsV {
    pub headers: Seq<Seq<char>>,
    pub rows: Seq<Row>,
    pub next: Option<Box<RowsV>>,
}

/// The names of a list of strings.
pub open spec fn names_of(v: Seq<String>) -> Seq<Seq<char>> {
    Seq::new(v.len(), |i: int| v[i]@)
}

impl NamedRows {
    pub open spec fn model(&self) -> RowsV
        decreases self,
    {
        RowsV {
            headers: names_of(self.headers@),
            rows: self.rows.deep_view(),
            next: match self.next {
                Some(n) => Some(Box::new(n.model())),
                None => None,
            },
        }
    }

    /// No columns and no rows.
    pub open spec fn nothing() -> RowsV {
        RowsV { headers: Seq::empty(), rows: Seq::empty(), next: None }
    }

    /// Rows under the names of their columns.
    pub fn new(headers: Vec<String>, rows: Vec<Tuple>) -> (r: NamedRows)
        ensures
            r.model() == (RowsV {
                headers: names_of(headers@),
                rows: rows.deep_view(),
                next: None,
            }),
    {
        NamedRows { headers, rows, next: None }
    }

    /// No columns and no rows.
    pub fn empty() -> (r: NamedRows)
        ensures
            r.model() == NamedRows::nothing(),
    {
        let r = NamedRows { headers: Vec::new(), rows: Vec::new(), next: None };
        assert(names_of(r.headers@) =~= Seq::<Seq<char>>::empty());
        assert(r.rows.deep_view() =~= Seq::<Row>::empty());
        r
    }

    /// The result that stands for a program whose failure is ignored: one
    /// column `status` with the one value `FAILED`.
    pub open spec fn failed_status() -> RowsV {
        RowsV {
            headers: seq!["status"@],
            rows: seq![seq![Value::Str(vstd::utf8::encode_utf8("FAILED"@))]],
            next: None,
        }
    }

    /// The result that stands for a program whose failure is ignored.
    pub fn failed() -> (r: NamedRows)
        ensures
            r.model() == NamedRows::failed_status(),
    {
        let mut headers: Vec<String> = Vec::new();
        headers.push("status".to_string());
        let mut row: Tuple = Vec::new();
        row.push(DataValue::Str("FAILED".to_string()));
        let mut rows: Vec<Tuple> = Vec::new();
        rows.push(row);
        let r = NamedRows { headers, rows, next: None };
        proof {
            assert(names_of(r.headers@) =~= seq!["status"@]);
            lemma_rows_view(&r.rows);
            assert(r.rows@[0].deep_view() =~= seq![Value::Str(vstd::utf8::encode_utf8("FAILED"@))]);
            assert(r.rows.deep_view() =~= seq![
                seq![Value::Str(vstd::utf8::encode_utf8("FAILED"@))],
            ]);
        }
        r
    }
}

impl Clone for NamedRows {
    fn clone(&self) -> (r: NamedRows)
        ensures
            r.model() == self.model(),
        decreases self,
    {
        let mut headers: Vec<String> = Vec::new();
        let mut i: usize = 0;
        while i < self.headers.len()
            invariant
                0 <= i <= self.headers@.len(),
                headers@.len() == i,
                forall|k: int| 0 <= k < i ==> (#[trigger] headers@[k])@ == self.headers@[k]@,
            decreases self.headers@.len() - i,
        {
            headers.push(self.headers[i].clone());
            i = i + 1;
        }
        assert(names_of(headers@) =~= names_of(self.headers@));
        let next = match &self.next {
            Some(n) => Some(Box::new((**n).clone())),
            None => None,
        };
        NamedRows { headers, rows: clone_rows(&self.rows), next }
    }
}

/// Whether a value counts as true where a condition is asked for.
pub open spec fn truthy(v: Value) -> bool {
    match v {
        Value::Null => false,
        Value::Bool(b) => b,
        Value::Int(i) => i != 0,
        Value::Str(s) => s.len() != 0,
        Value::List(l) => l.len() != 0,
        Value::Validity { timestamp, is_assert } => is_assert,
        Value::Bot => false,
    }
}

/// The truth of a result: that of the last column of its first row; an
/// empty result and an empty first row count as false.
pub open spec fn holds_of(rows: Seq<Row>) -> bool {
    rows.len() > 0 && rows[0].len() > 0 && truthy(rows[0].last())
}

/// Whether a value counts as true where a condition is asked for.
pub fn op_to_bool(v: &DataValue) -> (r: bool)
    ensures
        r == truthy(v.deep_view()),
{
    match v {
        DataValue::Null => false,
        DataValue::Bool(b) => *b,
        DataValue::Int(i) => *i != 0,
        DataValue::Str(s) => {
            proof {
                lemma_str_bytes(s@);
            }
            !s.as_str().is_empty()
        },
        DataValue::List(l) => {
            proof {
                lemma_tuple_view(l);
            }
            l.len() != 0
        },
        DataValue::Validity(vld) => vld.is_assert,
        DataValue::Bot => false,
    }
}

/// A string has no bytes exactly when it has no characters.
pub proof fn lemma_str_bytes(s: Seq<char>)
    ensures
        (vstd::utf8::encode_utf8(s).len() == 0) == (s.len() == 0),
{
    if s.len() > 0 {
        let head = vstd::utf8::encode_scalar(s[0] as u32);
        assert(head.len() >= 1);
        assert(vstd::utf8::encode_utf8(s) == head + vstd::utf8::encode_utf8(s.drop_first()));
    } else {
        assert(vstd::utf8::encode_utf8(s) =~= Seq::<u8>::empty());
    }
}

/// Where a statement takes the rows that it acts on: a relation that it
/// reads, or a program that it runs.
#[derive(Debug, PartialEq, Eq)]
pub enum Source {
    Relation(String),
    Program(u64),
}

/// A statement of the imperative layer.
#[derive(Debug, PartialEq, Eq)]
pub enum ImperativeStmt {
    Break { target: Option<String>, span: SourceSpan },
    Continue { target: Option<String>, span: SourceSpan },
    Return { returns: Vec<Source> },
    TempDebug { temp: String },
    Program { prog: u64 },
    IgnoreErrorProgram { prog: u64 },
    If {
        condition: Source,
        then_branch: Vec<ImperativeStmt>,
        else_branch: Vec<ImperativeStmt>,
        span: SourceSpan,
        negated: bool,
    },
    Loop { label: Option<String>, body: Vec<ImperativeStmt> },
    TempSwap { left: String, right: String },
}

/// What the interpreter asks of its host.
#[derive(Debug, PartialEq, Eq)]
pub enum Action {
    /// Say whether the program has been cancelled.
    CheckPoison,
    /// Run a program and give its rows.
    RunProgram(u64),
    /// Give the rows of a relation.
    ReadRelation(String),
    /// Print the rows of a relation.
    Debug(String),
    /// Give a relation another name.
    Rename(String, String),
}

/// What the host answers.
#[derive(Debug, PartialEq, Eq)]
pub enum Reply {
    /// The request is done.
    Done,
    /// The rows asked for.
    Rows(NamedRows),
    /// The request failed; the number stands for the failure.
    Failed(u64),
}

/// The ways in which an imperative program fails.
#[derive(Clone, Copy, Debug, PartialEq, Eq, Structural)]
pub enum ImperativeError {
    /// A request to the host failed.
    Host(u64),
    /// A `break` or `continue` that no enclosing loop takes.
    DanglingControlFlow(SourceSpan),
    /// The host answered a request with a reply of the wrong kind.
    UnexpectedReply,
}

/// How a block of statements ends other than by running to its end.
#[derive(Debug, PartialEq, Eq)]
pub enum ControlCode {
    Termination(NamedRows),
    Break(Option<String>, SourceSpan),
    Continue(Option<String>, SourceSpan),
}

/// How far the interpreter has come.
#[derive(Debug, PartialEq, Eq)]
pub enum Progress {
    /// The host is to do this and reply.
    Need(Action),
    /// The block ran to its end, with this result.
    Finished(NamedRows),
    /// The block ended by a jump or a return.
    Control(ControlCode),
    /// The program failed.
    Failed(ImperativeError),
}

/// The model of a request.
pub enum ActionV {
    CheckPoison,
    RunProgram(u64),
    ReadRelation(Seq<char>),
    Debug(Seq<char>),
    Rename(Seq<char>, Seq<char>),
}

/// The model of the end of a block by a jump or a return.
pub enum ControlV {
    Termination(RowsV),
    Break(Option<Seq<char>>, SourceSpan),
    Continue(Option<Seq<char>>, SourceSpan),
}

/// The model of the progress of the interpreter.
pub enum ProgressV {
    Need(ActionV),
    Finished(RowsV),
    Control(ControlV),
    Failed(ImperativeError),
}

/// The progress of the interpreter and the number of replies that it has
/// taken.
pub struct Ran {
    pub progress: ProgressV,
    pub cursor: int,
}

/// The model of a label.
pub open spec fn label_of(l: Option<String>) -> Option<Seq<char>> {
    match l {
        Some(s) => Some(s@),
        None => None,
    }
}

impl Action {
    pub open spec fn model(&self) -> ActionV {
        match self {
            Action::CheckPoison => ActionV::CheckPoison,
            Action::RunProgram(p) => ActionV::RunProgram(*p),
            Action::ReadRelation(n) => ActionV::ReadRelation(n@),
            Action::Debug(n) => ActionV::Debug(n@),
            Action::Rename(a, b) => ActionV::Rename(a@, b@),
        }
    }
}

impl ControlCode {
    pub open spec fn model(&self) -> ControlV {
        match self {
            ControlCode::Termination(r) => ControlV::Termination(r.model()),
            ControlCode::Break(l, s) => ControlV::Break(label_of(*l), *s),
            ControlCode::Continue(l, s) => ControlV::Continue(label_of(*l), *s),
        }
    }
}

impl Progress {
    pub open spec fn model(&self) -> ProgressV {
        match self {
            Progress::Need(a) => ProgressV::Need(a.model()),
            Progress::Finished(r) => ProgressV::Finished(r.model()),
            Progress::Control(c) => ProgressV::Control(c.model()),
            Progress::Failed(e) => ProgressV::Failed(*e),
        }
    }
}

/// The request that gives the rows of a source.
pub open spec fn source_action(s: Source) -> ActionV {
    match s {
        Source::Relation(n) => ActionV::ReadRelation(n@),
        Source::Program(p) => ActionV::RunProgram(p),
    }
}

/// The number of replies taken after a part of the program that began at
/// `from` and says that it ended at `at`: a part takes no replies back, and
/// none that are not there.
pub open spec fn later(at: int, from: int, replies: Seq<Reply>) -> int {
    if at < from {
        from
    } else if at > replies.len() {
        replies.len() as int
    } else {
        at
    }
}

/// The outcome of a request for rows: the rows, or how the interpreter
/// ends instead; and the replies taken.
pub open spec fn ask_rows(action: ActionV, replies: Seq<Reply>, c: int) -> (
    Result<RowsV, ProgressV>,
    int,
) {
    if 0 <= c < replies.len() {
        match replies[c] {
            Reply::Rows(r) => (Ok(r.model()), c + 1),
            Reply::Failed(e) => (Err(ProgressV::Failed(ImperativeError::Host(e))), c + 1),
            Reply::Done => (Err(ProgressV::Failed(ImperativeError::UnexpectedReply)), c + 1),
        }
    } else {
        (Err(ProgressV::Need(action)), c)
    }
}

/// The outcome of a request that yields nothing: how the interpreter ends
/// where the request is open or has failed; and the replies taken.
pub open spec fn ask_done(action: ActionV, replies: Seq<Reply>, c: int) -> (Option<ProgressV>, int) {
    if 0 <= c < replies.len() {
        match replies[c] {
            Reply::Done => (None, c + 1),
            Reply::Failed(e) => (Some(ProgressV::Failed(ImperativeError::Host(e))), c + 1),
            Reply::Rows(_) => (Some(ProgressV::Failed(ImperativeError::UnexpectedReply)), c + 1),
        }
    } else {
        (Some(ProgressV::Need(action)), c)
    }
}

/// The name that a relation bears while two relations swap names.
pub open spec fn swap_name() -> Seq<char> {
    "_*temp*"@
}

/// Swapping the names of two relations: three renamings, each a request.
pub open spec fn run_swap(left: Seq<char>, right: Seq<char>, replies: Seq<Reply>, c: int) -> Ran {
    match ask_done(ActionV::Rename(left, swap_name()), replies, c) {
        (Some(p), c1) => Ran { progress: p, cursor: c1 },
        (None, c1) => match ask_done(ActionV::Rename(right, left), replies, c1) {
            (Some(p), c2) => Ran { progress: p, cursor: c2 },
            (None, c2) => match ask_done(ActionV::Rename(swap_name(), right), replies, c2) {
                (Some(p), c3) => Ran { progress: p, cursor: c3 },
                (None, c3) => Ran { progress: ProgressV::Finished(NamedRows::nothing()), cursor: c3 },
            },
        },
    }
}

/// A return: the rows of the first `n` sources, the first in front, each
/// followed by those after it; and `current` behind them all.
pub open spec fn run_returns(
    sources: Seq<Source>,
    n: int,
    current: Option<RowsV>,
    replies: Seq<Reply>,
    c: int,
) -> Ran
    decreases n,
{
    if n <= 0 || n > sources.len() {
        Ran {
            progress: ProgressV::Control(
                ControlV::Termination(
                    match current {
                        Some(r) => r,
                        None => NamedRows::nothing(),
                    },
                ),
            ),
            cursor: c,
        }
    } else {
        match ask_rows(source_action(sources[n - 1]), replies, c) {
            (Err(p), c1) => Ran { progress: p, cursor: c1 },
            (Ok(r), c1) => run_returns(
                sources,
                n - 1,
                Some(
                    RowsV {
                        headers: r.headers,
                        rows: r.rows,
                        next: match current {
                            Some(x) => Some(Box::new(x)),
                            None => None,
                        },
                    },
                ),
                replies,
                c1,
            ),
        }
    }
}

/// The statements of `ps` from the `i`-th on, with `ret` the result so
/// far. Before each statement the host is asked whether the program has
/// been cancelled. A program sets the result; a condition chooses a
/// branch, whose result becomes the result; a loop runs its body until a
/// jump ends it; a swap of names ends the block.
pub open spec fn run_block(
    ps: Seq<ImperativeStmt>,
    i: int,
    ret: RowsV,
    replies: Seq<Reply>,
    c: int,
) -> Ran
    decreases replies.len() - c, 0int,
{
    if i < 0 || i >= ps.len() || c < 0 {
        Ran { progress: ProgressV::Finished(ret), cursor: c }
    } else {
        match ask_done(ActionV::CheckPoison, replies, c) {
            (Some(p), c1) => Ran { progress: p, cursor: c1 },
            (None, c1) => match ps[i] {
                ImperativeStmt::Break { target, span } => Ran {
                    progress: ProgressV::Control(ControlV::Break(label_of(target), span)),
                    cursor: c1,
                },
                ImperativeStmt::Continue { target, span } => Ran {
                    progress: ProgressV::Control(ControlV::Continue(label_of(target), span)),
                    cursor: c1,
                },
                ImperativeStmt::Return { returns: sources } => run_returns(
                    sources@,
                    sources@.len() as int,
                    None,
                    replies,
                    c1,
                ),
                ImperativeStmt::TempDebug { temp } => match ask_done(
                    ActionV::Debug(temp@),
                    replies,
                    c1,
                ) {
                    (Some(p), c2) => Ran { progress: p, cursor: c2 },
                    (None, c2) => run_block(ps, i + 1, NamedRows::nothing(), replies, c2),
                },
                ImperativeStmt::Program { prog } => match ask_rows(
                    ActionV::RunProgram(prog),
                    replies,
                    c1,
                ) {
                    (Err(p), c2) => Ran { progress: p, cursor: c2 },
                    (Ok(r), c2) => run_block(ps, i + 1, r, replies, c2),
                },
                ImperativeStmt::IgnoreErrorProgram { prog } => if c1 < replies.len() {
                    match replies[c1] {
                        Reply::Rows(r) => run_block(ps, i + 1, r.model(), replies, c1 + 1),
                        Reply::Failed(_) => run_block(
                            ps,
                            i + 1,
                            NamedRows::failed_status(),
                            replies,
                            c1 + 1,
                        ),
                        Reply::Done => Ran {
                            progress: ProgressV::Failed(ImperativeError::UnexpectedReply),
                            cursor: c1 + 1,
                        },
                    }
                } else {
                    Ran { progress: ProgressV::Need(ActionV::RunProgram(prog)), cursor: c1 }
                },
                ImperativeStmt::If { condition, then_branch, else_branch, span, negated } => {
                    match ask_rows(source_action(condition), replies, c1) {
                        (Err(p), c2) => Ran { progress: p, cursor: c2 },
                        (Ok(r), c2) => {
                            let sub = run_block(
                                if holds_of(r.rows) != negated {
                                    then_branch@
                                } else {
                                    else_branch@
                                },
                                0,
                                NamedRows::nothing(),
                                replies,
                                c2,
                            );
                            match sub.progress {
                                ProgressV::Finished(rows) => run_block(
                                    ps,
                                    i + 1,
                                    rows,
                                    replies,
                                    later(sub.cursor, c2, replies),
                                ),
                                _ => sub,
                            }
                        },
                    }
                },
                ImperativeStmt::Loop { label, body } => {
                    let sub = run_loop(label_of(label), body@, replies, c1);
                    match sub.progress {
                        ProgressV::Finished(_) => run_block(
                            ps,
                            i + 1,
                            NamedRows::nothing(),
                            replies,
                            later(sub.cursor, c1, replies),
                        ),
                        _ => sub,
                    }
                },
                ImperativeStmt::TempSwap { left, right } => run_swap(left@, right@, replies, c1),
            },
        }
    }
}

/// A loop: its body again and again, each round after asking whether the
/// program has been cancelled. A `break` without a label or with the label
/// of the loop ends the loop; a `continue` of that kind begins the next
/// round; any other end of the body is the end of the loop.
pub open spec fn run_loop(
    label: Option<Seq<char>>,
    body: Seq<ImperativeStmt>,
    replies: Seq<Reply>,
    c: int,
) -> Ran
    decreases replies.len() - c, 1int,
{
    if c < 0 {
        Ran { progress: ProgressV::Finished(NamedRows::nothing()), cursor: c }
    } else {
        match ask_done(ActionV::CheckPoison, replies, c) {
            (Some(p), c1) => Ran { progress: p, cursor: c1 },
            (None, c1) => {
                let sub = run_block(body, 0, NamedRows::nothing(), replies, c1);
                let c2 = later(sub.cursor, c1, replies);
                match sub.progress {
                    ProgressV::Finished(_) => run_loop(label, body, replies, c2),
                    ProgressV::Control(ControlV::Break(l, span)) => if l is None || l == label {
                        Ran { progress: ProgressV::Finished(NamedRows::nothing()), cursor: c2 }
                    } else {
                        sub
                    },
                    ProgressV::Control(ControlV::Continue(l, span)) => if l is None || l
                        == label {
                        run_loop(label, body, replies, c2)
                    } else {
                        sub
                    },
                    _ => sub,
                }
            },
        }
    }
}

/// A whole program: its result where it runs to its end or returns, a
/// failure where it fails or where a jump leaves it, else the next
/// request.
pub open spec fn run_program(ps: Seq<ImperativeStmt>, replies: Seq<Reply>) -> ProgressV {
    match run_block(ps, 0, NamedRows::nothing(), replies, 0).progress {
        ProgressV::Control(ControlV::Termination(r)) => ProgressV::Finished(r),
        ProgressV::Control(ControlV::Break(_, span)) => ProgressV::Failed(
            ImperativeError::DanglingControlFlow(span),
        ),
        ProgressV::Control(ControlV::Continue(_, span)) => ProgressV::Failed(
            ImperativeError::DanglingControlFlow(span),
        ),
        other => other,
    }
}

/// The model of how the interpreter ends instead of going on, if it does.
pub open spec fn ending(p: Option<Progress>) -> Option<ProgressV> {
    match p {
        Some(x) => Some(x.model()),
        None => None,
    }
}

/// The model of rows asked for, or of how the interpreter ends instead.
pub open spec fn asked(r: Result<NamedRows, Progress>) -> Result<RowsV, ProgressV> {
    match r {
        Ok(x) => Ok(x.model()),
        Err(p) => Err(p.model()),
    }
}

/// Takes the reply to a request that yields nothing.
fn take_done(action: Action, replies: &Vec<Reply>, c: usize) -> (r: (Option<Progress>, usize))
    requires
        c <= replies@.len(),
    ensures
        (ending(r.0), r.1 as int) == ask_done(action.model(), replies@, c as int),
        c <= r.1 <= replies@.len(),
        r.0 is None ==> r.1 == c + 1,
{
    if c < replies.len() {
        match &replies[c] {
            Reply::Done => (None, c + 1),
            Reply::Failed(e) => (Some(Progress::Failed(ImperativeError::Host(*e))), c + 1),
            Reply::Rows(_) => (Some(Progress::Failed(ImperativeError::UnexpectedReply)), c + 1),
        }
    } else {
        (Some(Progress::Need(action)), c)
    }
}

/// Takes the reply to a request for rows.
fn take_rows(action: Action, replies: &Vec<Reply>, c: usize) -> (r: (
    Result<NamedRows, Progress>,
    usize,
))
    requires
        c <= replies@.len(),
    ensures
        (asked(r.0), r.1 as int) == ask_rows(action.model(), replies@, c as int),
        c <= r.1 <= replies@.len(),
        r.0 is Ok ==> r.1 == c + 1,
{
    if c < replies.len() {
        match &replies[c] {
            Reply::Rows(rows) => (Ok(rows.clone()), c + 1),
            Reply::Failed(e) => (Err(Progress::Failed(ImperativeError::Host(*e))), c + 1),
            Reply::Done => (Err(Progress::Failed(ImperativeError::UnexpectedReply)), c + 1),
        }
    } else {
        (Err(Progress::Need(action)), c)
    }
}

/// The request that gives the rows of a source.
fn action_for(s: &Source) -> (r: Action)
    ensures
        r.model() == source_action(*s),
{
    match s {
        Source::Relation(n) => Action::ReadRelation(n.clone()),
        Source::Program(p) => Action::RunProgram(*p),
    }
}

/// A copy of a label.
fn clone_label(l: &Option<String>) -> (r: Option<String>)
    ensures
        label_of(r) == label_of(*l),
{
    match l {
        Some(s) => Some(s.clone()),
        None => None,
    }
}

/// Whether a jump with the label `jump` is for the loop with the label
/// `label`: it has no label, or the label of the loop.
fn jump_is_for(jump: &Option<String>, label: &Option<String>) -> (r: bool)
    ensures
        r == (label_of(*jump) is None || label_of(*jump) == label_of(*label)),
{
    match jump {
        None => true,
        Some(j) => match label {
            None => false,
            Some(l) => *j == *l,
        },
    }
}

/// Runs a return: asks for the rows of each source, the last first, and
/// chains them in the order of the sources.
fn run_return(sources: &Vec<Source>, replies: &Vec<Reply>, c: usize) -> (r: (Progress, usize))
    requires
        c <= replies@.len(),
    ensures
        r.0.model() == run_returns(sources@, sources@.len() as int, None, replies@, c as int).progress,
        r.1 == run_returns(sources@, sources@.len() as int, None, replies@, c as int).cursor,
        c <= r.1 <= replies@.len(),
{
    let mut current: Option<NamedRows> = None;
    let mut n: usize = sources.len();
    let mut cur: usize = c;
    while n > 0
        invariant
            0 <= n <= sources@.len(),
            c <= cur <= replies@.len(),
            run_returns(sources@, sources@.len() as int, None, replies@, c as int) == run_returns(
                sources@,
                n as int,
                match current {
                    Some(x) => Some(x.model()),
                    None => None,
                },
                replies@,
                cur as int,
            ),
        decreases n,
    {
        let (got, c1) = take_rows(action_for(&sources[n - 1]), replies, cur);
        match got {
            Err(p) => {
                return (p, c1);
            },
            Ok(rows) => {
                let next = match current {
                    Some(x) => Some(Box::new(x)),
                    None => None,
                };
                current = Some(NamedRows { headers: rows.headers, rows: rows.rows, next });
                cur = c1;
                n = n - 1;
            },
        }
    }
    let out = match current {
        Some(x) => x,
        None => NamedRows::empty(),
    };
    (Progress::Control(ControlCode::Termination(out)), cur)
}

/// Runs a swap of the names of two relations.
fn run_temp_swap(left: &String, right: &String, replies: &Vec<Reply>, c: usize) -> (r: (
    Progress,
    usize,
))
    requires
        c <= replies@.len(),
    ensures
        r.0.model() == run_swap(left@, right@, replies@, c as int).progress,
        r.1 == run_swap(left@, right@, replies@, c as int).cursor,
        c <= r.1 <= replies@.len(),
{
    let (end, c1) = take_done(
        Action::Rename(left.clone(), "_*temp*".to_string()),
        replies,
        c,
    );
    if let Some(p) = end {
        return (p, c1);
    }
    let (end, c2) = take_done(Action::Rename(right.clone(), left.clone()), replies, c1);
    if let Some(p) = end {
        return (p, c2);
    }
    let (end, c3) = take_done(
        Action::Rename("_*temp*".to_string(), right.clone()),
        replies,
        c2,
    );
    if let Some(p) = end {
        return (p, c3);
    }
    (Progress::Finished(NamedRows::empty()), c3)
}

/// Runs a loop from the reply `c` on.
pub fn execute_imperative_loop(
    label: &Option<String>,
    body: &Vec<ImperativeStmt>,
    replies: &Vec<Reply>,
    c: usize,
) -> (r: (Progress, usize))
    requires
        c <= replies@.len(),
    ensures
        r.0.model() == run_loop(label_of(*label), body@, replies@, c as int).progress,
        r.1 == run_loop(label_of(*label), body@, replies@, c as int).cursor,
        c <= r.1 <= replies@.len(),
    decreases replies@.len() - c, 1int,
{
    let mut cur: usize = c;
    loop
        invariant
            c <= cur <= replies@.len(),
            run_loop(label_of(*label), body@, replies@, c as int) == run_loop(
                label_of(*label),
                body@,
                replies@,
                cur as int,
            ),
        decreases replies@.len() - cur,
    {
        let (end, c1) = take_done(Action::CheckPoison, replies, cur);
        if let Some(p) = end {
            return (p, c1);
        }
        let (sub, c2) = execute_imperative_stmts(body, replies, c1);
        match sub {
            Progress::Finished(_) => {
                cur = c2;
            },
            Progress::Control(ControlCode::Break(break_label, span)) => {
                if jump_is_for(&break_label, label) {
                    return (Progress::Finished(NamedRows::empty()), c2);
                } else {
                    return (Progress::Control(ControlCode::Break(break_label, span)), c2);
                }
            },
            Progress::Control(ControlCode::Continue(cont_label, span)) => {
                if jump_is_for(&cont_label, label) {
                    cur = c2;
                } else {
                    return (Progress::Control(ControlCode::Continue(cont_label, span)), c2);
                }
            },
            other => {
                return (other, c2);
            },
        }
    }
}

/// Runs a block of statements from the reply `c` on: as far as the
/// replies go.
pub fn execute_imperative_stmts(ps: &Vec<ImperativeStmt>, replies: &Vec<Reply>, c: usize) -> (r: (
    Progress,
    usize,
))
    requires
        c <= replies@.len(),
    ensures
        r.0.model() == run_block(ps@, 0, NamedRows::nothing(), replies@, c as int).progress,
        r.1 == run_block(ps@, 0, NamedRows::nothing(), replies@, c as int).cursor,
        c <= r.1 <= replies@.len(),
    decreases replies@.len() - c, 0int,
{
    let mut ret = NamedRows::empty();
    let mut i: usize = 0;
    let mut cur: usize = c;
    while i < ps.len()
        invariant
            0 <= i <= ps@.len(),
            c <= cur <= replies@.len(),
            run_block(ps@, 0, NamedRows::nothing(), replies@, c as int) == run_block(
                ps@,
                i as int,
                ret.model(),
                replies@,
                cur as int,
            ),
        decreases ps@.len() - i,
    {
        let (end, c1) = take_done(Action::CheckPoison, replies, cur);
        if let Some(p) = end {
            return (p, c1);
        }
        match &ps[i] {
            ImperativeStmt::Break { target, span } => {
                return (Progress::Control(ControlCode::Break(clone_label(target), *span)), c1);
            },
            ImperativeStmt::Continue { target, span } => {
                return (
                    Progress::Control(ControlCode::Continue(clone_label(target), *span)),
                    c1,
                );
            },
            ImperativeStmt::Return { returns: sources } => {
                return run_return(sources, replies, c1);
            },
            ImperativeStmt::TempDebug { temp } => {
                let (end, c2) = take_done(Action::Debug(temp.clone()), replies, c1);
                if let Some(p) = end {
                    return (p, c2);
                }
                ret = NamedRows::empty();
                cur = c2;
            },
            ImperativeStmt::Program { prog } => {
                let (got, c2) = take_rows(Action::RunProgram(*prog), replies, c1);
                match got {
                    Err(p) => {
                        return (p, c2);
                    },
                    Ok(rows) => {
                        ret = rows;
                        cur = c2;
                    },
                }
            },
            ImperativeStmt::IgnoreErrorProgram { prog } => {
                if c1 < replies.len() {
                    match &replies[c1] {
                        Reply::Rows(rows) => {
                            ret = rows.clone();
                        },
                        Reply::Failed(_) => {
                            ret = NamedRows::failed();
                        },
                        Reply::Done => {
                            return (Progress::Failed(ImperativeError::UnexpectedReply), c1 + 1);
                        },
                    }
                    cur = c1 + 1;
                } else {
                    return (Progress::Need(Action::RunProgram(*prog)), c1);
                }
            },
            ImperativeStmt::If { condition, then_branch, else_branch, span, negated } => {
                let (got, c2) = take_rows(action_for(condition), replies, c1);
                match got {
                    Err(p) => {
                        return (p, c2);
                    },
                    Ok(rows) => {
                        let cond_val = execute_imperative_condition(&rows);
                        let cond_val = if *negated {
                            !cond_val
                        } else {
                            cond_val
                        };
                        let to_execute = if cond_val {
                            then_branch
                        } else {
                            else_branch
                        };
                        let (sub, c3) = execute_imperative_stmts(to_execute, replies, c2);
                        match sub {
                            Progress::Finished(rows) => {
                                ret = rows;
                                cur = c3;
                            },
                            other => {
                                return (other, c3);
                            },
                        }
                    },
                }
            },
            ImperativeStmt::Loop { label, body } => {
                let (sub, c2) = execute_imperative_loop(label, body, replies, c1);
                match sub {
                    Progress::Finished(_) => {
                        ret = NamedRows::empty();
                        cur = c2;
                    },
                    other => {
                        return (other, c2);
                    },
                }
            },
            ImperativeStmt::TempSwap { left, right } => {
                return run_temp_swap(left, right, replies, c1);
            },
        }
        i = i + 1;
    }
    (Progress::Finished(ret), cur)
}

/// Runs a program as far as the replies of the host go: to its result, to
/// its failure, or to the next request.
pub fn execute_imperative(ps: &Vec<ImperativeStmt>, replies: &Vec<Reply>) -> (r: Progress)
    ensures
        r.model() == run_program(ps@, replies@),
{
    let (out, _) = execute_imperative_stmts(ps, replies, 0);
    match out {
        Progress::Control(ControlCode::Termination(res)) => Progress::Finished(res),
        Progress::Control(ControlCode::Break(_, span)) => Progress::Failed(
            ImperativeError::DanglingControlFlow(span),
        ),
        Progress::Control(ControlCode::Continue(_, span)) => Progress::Failed(
            ImperativeError::DanglingControlFlow(span),
        ),
        other => other,
    }
}

/// The truth of a result.
pub fn execute_imperative_condition(res: &NamedRows) -> (r: bool)
    ensures
        r == holds_of(res.model().rows),
{
    proof {
        lemma_rows_view(&res.rows);
    }
    if res.rows.len() == 0 {
        return false;
    }
    let row = &res.rows[0];
    proof {
        lemma_tuple_view(row);
    }
    if row.len() == 0 {
        false
    } else {
        op_to_bool(&row[row.len() - 1])
    }
}

} // verus!
