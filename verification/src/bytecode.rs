//! The linear form of an expression and the stack machine that runs it.
//!
//! `compile` lays a term out in postfix order; `run` executes the
//! instructions one by one on a stack of values. The two agree with the
//! value of the term: see [`lemma_compile_correct`].

use vstd::prelude::*;

use crate::error::EvalError;
use crate::expr::{
    apply_op, args_values, lemma_apply_view, lemma_exprs_view, op_value, term_value, value_result,
    Expr, Op, Term,
};
use crate::symbol::{as_position, SourceSpan};
use crate::value::{lemma_tuple_view, DataValue, Row, Tuple, Value};

verus! {

broadcast use vstd::std_specs::vec::group_vec_axioms;

/// The mathematical model of an instruction.
pub enum Instr {
    /// Push the value of a column.
    Binding { pos: Option<int>, span: SourceSpan },
    /// Push a constant.
    Const { val: Value },
    /// Replace the topmost `arity` values by the operator's value on them.
    Apply { op: Op, arity: int, span: SourceSpan },
}

/// An executable instruction.
#[derive(Debug, PartialEq, Eq)]
pub enum Bytecode {
    Binding { tuple_pos: Option<usize>, span: SourceSpan },
    Const { val: DataValue },
    Apply { op: Op, arity: usize, span: SourceSpan },
}

impl DeepView for Bytecode {
    type V = Instr;

    open spec fn deep_view(&self) -> Instr {
        match self {
            Bytecode::Binding { tuple_pos, span } => Instr::Binding {
                pos: as_position(*tuple_pos),
                span: *span,
            },
            Bytecode::Const { val } => Instr::Const { val: val.deep_view() },
            Bytecode::Apply { op, arity, span } => Instr::Apply {
                op: *op,
                arity: *arity as int,
                span: *span,
            },
        }
    }
}

impl Clone for Bytecode {
    fn clone(&self) -> (r: Bytecode)
        ensures
            r.deep_view() == self.deep_view(),
    {
        match self {
            Bytecode::Binding { tuple_pos, span } => Bytecode::Binding {
                tuple_pos: *tuple_pos,
                span: *span,
            },
            Bytecode::Const { val } => Bytecode::Const { val: val.clone() },
            Bytecode::Apply { op, arity, span } => Bytecode::Apply {
                op: *op,
                arity: *arity,
                span: *span,
            },
        }
    }
}

/// A program in the model.
pub type Code = Seq<Instr>;

/// The stack after one instruction, or the failure of that instruction.
pub open spec fn step(instr: Instr, row: Row, stack: Seq<Value>) -> Result<Seq<Value>, EvalError> {
    match instr {
        Instr::Binding { pos, span } => match pos {
            Some(i) => if 0 <= i < row.len() {
                Ok(stack.push(row[i]))
            } else {
                Err(EvalError::UnboundVariable(span))
            },
            None => Err(EvalError::UnboundVariable(span)),
        },
        Instr::Const { val } => Ok(stack.push(val)),
        Instr::Apply { op, arity, span } => if 0 <= arity <= stack.len() {
            match op_value(op, stack.subrange(stack.len() - arity, stack.len() as int), span) {
                Ok(v) => Ok(stack.take(stack.len() - arity).push(v)),
                Err(e) => Err(e),
            }
        } else {
            Err(EvalError::MalformedBytecode)
        },
    }
}

/// The stack after the first `n` instructions of `code`, started on
/// `init`; the first failure ends the run.
pub open spec fn run(code: Code, row: Row, init: Seq<Value>, n: int) -> Result<
    Seq<Value>,
    EvalError,
>
    decreases n,
{
    if n <= 0 || n > code.len() {
        Ok(init)
    } else {
        match run(code, row, init, n - 1) {
            Ok(stack) => step(code[n - 1], row, stack),
            Err(e) => Err(e),
        }
    }
}

/// The value that a program computes on a row: what is on top of the stack
/// when it has run on an empty one.
pub open spec fn code_value(code: Code, row: Row) -> Result<Value, EvalError> {
    match run(code, row, Seq::empty(), code.len() as int) {
        Ok(stack) => if stack.len() > 0 {
            Ok(stack.last())
        } else {
            Err(EvalError::MalformedBytecode)
        },
        Err(e) => Err(e),
    }
}

/// Whether a predicate program holds on a row; a value that is no boolean
/// is a failure at `span`.
pub open spec fn code_holds(code: Code, row: Row, span: SourceSpan) -> Result<bool, EvalError> {
    match code_value(code, row) {
        Ok(Value::Bool(b)) => Ok(b),
        Ok(_) => Err(EvalError::PredicateType(span)),
        Err(e) => Err(e),
    }
}

/// The program of a term: its arguments from left to right, then the
/// operator.
pub open spec fn compile(t: Term) -> Code
    decreases t, 0int,
{
    match t {
        Term::Binding { var, pos, span } => seq![Instr::Binding { pos, span }],
        Term::Const { val, span } => seq![Instr::Const { val }],
        Term::Apply { op, args, span } => compile_args(args, args.len() as int).push(
            Instr::Apply { op, arity: args.len() as int, span },
        ),
    }
}

/// The programs of the first `n` terms of `args`, one after the other.
pub open spec fn compile_args(args: Seq<Term>, n: int) -> Code
    decreases args, n,
{
    if n <= 0 || n > args.len() {
        Seq::empty()
    } else {
        compile_args(args, n - 1) + compile(args[n - 1])
    }
}

/// What a run makes of a stack when the next instructions compute `v`.
pub open spec fn pushed(
    before: Result<Seq<Value>, EvalError>,
    v: Result<Value, EvalError>,
) -> Result<Seq<Value>, EvalError> {
    match before {
        Ok(stack) => match v {
            Ok(x) => Ok(stack.push(x)),
            Err(e) => Err(e),
        },
        Err(e) => Err(e),
    }
}

/// What a run makes of a stack when the next instructions compute `vs`.
pub open spec fn appended(
    before: Result<Seq<Value>, EvalError>,
    vs: Result<Seq<Value>, EvalError>,
) -> Result<Seq<Value>, EvalError> {
    match before {
        Ok(stack) => match vs {
            Ok(xs) => Ok(stack + xs),
            Err(e) => Err(e),
        },
        Err(e) => Err(e),
    }
}

/// Where a program holds the compiled form of `t` from position `n` on,
/// running it from there pushes the value of `t`, or fails as `t` does.
pub proof fn lemma_compile_at(code: Code, row: Row, init: Seq<Value>, n: int, t: Term)
    requires
        0 <= n,
        n + compile(t).len() <= code.len(),
        code.subrange(n, n + compile(t).len()) == compile(t),
    ensures
        run(code, row, init, n + compile(t).len()) == pushed(
            run(code, row, init, n),
            term_value(t, row),
        ),
    decreases t, 0int,
{
    let m = compile(t).len() as int;
    let sub = code.subrange(n, n + m);
    match t {
        Term::Binding { var, pos, span } => {
            assert(code[n] == sub[0]);
        },
        Term::Const { val, span } => {
            assert(code[n] == sub[0]);
        },
        Term::Apply { op, args, span } => {
            let k = args.len() as int;
            let ca = compile_args(args, k);
            assert(m == ca.len() + 1);
            assert(code[n + ca.len()] == sub[ca.len() as int]);
            assert(code.subrange(n, n + ca.len()) =~= ca) by {
                assert forall|i: int| 0 <= i < ca.len() implies code.subrange(n, n + ca.len())[i]
                    == ca[i] by {
                    assert(sub[i] == code[n + i]);
                }
            }
            lemma_compile_args_at(code, row, init, n, args, k);
            let before = run(code, row, init, n);
            let mid = run(code, row, init, n + ca.len());
            assert(mid == appended(before, args_values(args, row, k)));
            if before is Ok && args_values(args, row, k) is Ok {
                let st = before->Ok_0;
                let vs = args_values(args, row, k)->Ok_0;
                lemma_args_values_len(args, row, k);
                let full = st + vs;
                assert(full.subrange(full.len() - k, full.len() as int) =~= vs);
                assert(full.take(full.len() - k) =~= st);
            }
        },
    }
}

/// The number of values of the first `n` arguments, when all have a value.
pub proof fn lemma_args_values_len(args: Seq<Term>, row: Row, n: int)
    requires
        0 <= n <= args.len(),
    ensures
        args_values(args, row, n) matches Ok(vs) ==> vs.len() == n,
    decreases n,
{
    if n > 0 {
        lemma_args_values_len(args, row, n - 1);
    }
}

/// Where a program holds the compiled forms of the first `k` terms of
/// `args` from position `n` on, running it from there appends their values.
pub proof fn lemma_compile_args_at(
    code: Code,
    row: Row,
    init: Seq<Value>,
    n: int,
    args: Seq<Term>,
    k: int,
)
    requires
        0 <= n,
        0 <= k <= args.len(),
        n + compile_args(args, k).len() <= code.len(),
        code.subrange(n, n + compile_args(args, k).len()) == compile_args(args, k),
    ensures
        run(code, row, init, n + compile_args(args, k).len()) == appended(
            run(code, row, init, n),
            args_values(args, row, k),
        ),
    decreases args, k,
{
    let before = run(code, row, init, n);
    if k == 0 {
        if before is Ok {
            assert(before->Ok_0 + Seq::<Value>::empty() =~= before->Ok_0);
        }
    } else {
        let head = compile_args(args, k - 1);
        let last = compile(args[k - 1]);
        let all = compile_args(args, k);
        assert(all == head + last);
        assert(code.subrange(n, n + head.len()) =~= head) by {
            assert forall|i: int| 0 <= i < head.len() implies code.subrange(n, n + head.len())[i]
                == head[i] by {
                assert(code.subrange(n, n + all.len())[i] == code[n + i]);
                assert(all[i] == head[i]);
            }
        }
        assert(code.subrange(n + head.len(), n + head.len() + last.len()) =~= last) by {
            assert forall|i: int| 0 <= i < last.len() implies code.subrange(
                n + head.len(),
                n + head.len() + last.len(),
            )[i] == last[i] by {
                assert(code.subrange(n, n + all.len())[head.len() + i] == code[n + head.len() + i]);
                assert(all[head.len() + i] == last[i]);
            }
        }
        lemma_compile_args_at(code, row, init, n, args, k - 1);
        lemma_compile_at(code, row, init, n + head.len(), args[k - 1]);
        let mid = run(code, row, init, n + head.len());
        if before is Ok && args_values(args, row, k - 1) is Ok && term_value(args[k - 1], row) is Ok {
            let st = before->Ok_0;
            let vs = args_values(args, row, k - 1)->Ok_0;
            let v = term_value(args[k - 1], row)->Ok_0;
            assert((st + vs).push(v) =~= st + vs.push(v));
        }
    }
}

/// A compiled term computes the value of the term, and fails where and as
/// the term fails.
pub proof fn lemma_compile_correct(t: Term, row: Row)
    ensures
        code_value(compile(t), row) == term_value(t, row),
{
    let code = compile(t);
    assert(code.subrange(0, code.len() as int) =~= code);
    lemma_compile_at(code, row, Seq::empty(), 0, t);
}

/// The view of a program, instruction by instruction.
pub proof fn lemma_code_view(v: &Vec<Bytecode>)
    ensures
        v.deep_view().len() == v@.len(),
        forall|i: int| 0 <= i < v@.len() ==> #[trigger] v.deep_view()[i] == v@[i].deep_view(),
{
}

impl Expr {
    /// The program of the expression.
    pub fn compile(&self) -> (r: Vec<Bytecode>)
        ensures
            r.deep_view() == compile(self.deep_view()),
    {
        let mut out: Vec<Bytecode> = Vec::new();
        self.compile_into(&mut out);
        assert(out.deep_view() =~= compile(self.deep_view()));
        out
    }

    /// Appends the program of the expression to `coll`.
    pub fn compile_into(&self, coll: &mut Vec<Bytecode>)
        ensures
            final(coll).deep_view() == old(coll).deep_view() + compile(self.deep_view()),
        decreases self, 0int,
    {
        let ghost before = coll.deep_view();
        match self {
            Expr::Binding { var, tuple_pos } => {
                let b = Bytecode::Binding { tuple_pos: *tuple_pos, span: var.span };
                coll.push(b);
                assert(coll.deep_view() =~= before + compile(self.deep_view()));
            },
            Expr::Const { val, span } => {
                let b = Bytecode::Const { val: val.clone() };
                coll.push(b);
                assert(coll.deep_view() =~= before + compile(self.deep_view()));
            },
            Expr::Apply { op, args, span } => {
                proof {
                    lemma_apply_view(*op, args, *span);
                }
                compile_all_into(args, coll);
                let ghost mid = coll.deep_view();
                let b = Bytecode::Apply { op: *op, arity: args.len(), span: *span };
                coll.push(b);
                assert(coll.deep_view() =~= mid.push(b.deep_view()));
                assert(coll.deep_view() =~= before + compile(self.deep_view()));
            },
        }
    }
}

/// Appends the programs of `args`, one after the other, to `coll`.
pub fn compile_all_into(args: &Vec<Expr>, coll: &mut Vec<Bytecode>)
    ensures
        final(coll).deep_view() == old(coll).deep_view() + compile_args(
            args.deep_view(),
            args@.len() as int,
        ),
    decreases args, 1int,
{
    let ghost before = coll.deep_view();
    let mut i: usize = 0;
    assert(coll.deep_view() =~= before + compile_args(args.deep_view(), 0));
    while i < args.len()
        invariant
            0 <= i <= args@.len(),
            coll.deep_view() == before + compile_args(args.deep_view(), i as int),
        decreases args@.len() - i,
    {
        args[i].compile_into(coll);
        proof {
            lemma_exprs_view(args);
            assert(coll.deep_view() =~= before + compile_args(args.deep_view(), i as int + 1));
        }
        i = i + 1;
    }
}

/// Runs one instruction on the stack.
fn exec_step(instr: &Bytecode, tuple: &Tuple, stack: &mut Vec<DataValue>) -> (r: Result<
    (),
    EvalError,
>)
    ensures
        match r {
            Ok(_) => step(instr.deep_view(), tuple.deep_view(), old(stack).deep_view()) == Ok::<
                Seq<Value>,
                EvalError,
            >(final(stack).deep_view()),
            Err(e) => step(instr.deep_view(), tuple.deep_view(), old(stack).deep_view()) == Err::<
                Seq<Value>,
                EvalError,
            >(e),
        },
{
    let ghost before = stack.deep_view();
    proof {
        lemma_tuple_view(tuple);
    }
    match instr {
        Bytecode::Binding { tuple_pos, span } => {
            match tuple_pos {
                Some(i) => {
                    if *i < tuple.len() {
                        let v = tuple[*i].clone();
                        stack.push(v);
                        assert(stack.deep_view() =~= before.push(v.deep_view()));
                        Ok(())
                    } else {
                        Err(EvalError::UnboundVariable(*span))
                    }
                },
                None => Err(EvalError::UnboundVariable(*span)),
            }
        },
        Bytecode::Const { val } => {
            let v = val.clone();
            stack.push(v);
            assert(stack.deep_view() =~= before.push(v.deep_view()));
            Ok(())
        },
        Bytecode::Apply { op, arity, span } => {
            if *arity <= stack.len() {
                let at = stack.len() - *arity;
                let args = stack.split_off(at);
                proof {
                    assert(args.deep_view() =~= before.subrange(
                        before.len() - *arity as int,
                        before.len() as int,
                    ));
                    assert(stack.deep_view() =~= before.take(before.len() - *arity as int));
                }
                match apply_op(*op, &args, *span) {
                    Ok(v) => {
                        let ghost mid = stack.deep_view();
                        stack.push(v);
                        assert(stack.deep_view() =~= mid.push(v.deep_view()));
                        Ok(())
                    },
                    Err(e) => Err(e),
                }
            } else {
                Err(EvalError::MalformedBytecode)
            }
        },
    }
}

/// Runs a program on a row. The stack is scratch space: whatever it holds
/// is discarded first, and it is left empty.
pub fn eval_bytecode(bytecodes: &Vec<Bytecode>, bindings: &Tuple, stack: &mut Vec<DataValue>) -> (r:
    Result<DataValue, EvalError>)
    ensures
        value_result(r) == code_value(bytecodes.deep_view(), bindings.deep_view()),
        final(stack)@.len() == 0,
{
    stack.clear();
    let mut i: usize = 0;
    assert(stack.deep_view() =~= Seq::<Value>::empty());
    while i < bytecodes.len()
        invariant
            0 <= i <= bytecodes@.len(),
            run(bytecodes.deep_view(), bindings.deep_view(), Seq::empty(), i as int) == Ok::<
                Seq<Value>,
                EvalError,
            >(stack.deep_view()),
        decreases bytecodes@.len() - i,
    {
        proof {
            lemma_code_view(bytecodes);
        }
        match exec_step(&bytecodes[i], bindings, stack) {
            Ok(_) => {},
            Err(e) => {
                proof {
                    lemma_run_failed(
                        bytecodes.deep_view(),
                        bindings.deep_view(),
                        Seq::empty(),
                        i as int + 1,
                        bytecodes@.len() as int,
                    );
                }
                stack.clear();
                return Err(e);
            },
        }
        i = i + 1;
    }
    proof {
        lemma_code_view(bytecodes);
    }
    let r = match stack.pop() {
        Some(v) => Ok(v),
        None => Err(EvalError::MalformedBytecode),
    };
    stack.clear();
    r
}

/// A run that has failed stays failed.
pub proof fn lemma_run_failed(code: Code, row: Row, init: Seq<Value>, n: int, m: int)
    requires
        0 <= n <= m <= code.len(),
        run(code, row, init, n) is Err,
    ensures
        run(code, row, init, m) == run(code, row, init, n),
    decreases m - n,
{
    if n < m {
        lemma_run_failed(code, row, init, n, m - 1);
    }
}

/// Runs a predicate program on a row.
pub fn eval_bytecode_pred(
    bytecodes: &Vec<Bytecode>,
    bindings: &Tuple,
    stack: &mut Vec<DataValue>,
    span: SourceSpan,
) -> (r: Result<bool, EvalError>)
    ensures
        r == code_holds(bytecodes.deep_view(), bindings.deep_view(), span),
        final(stack)@.len() == 0,
{
    match eval_bytecode(bytecodes, bindings, stack) {
        Ok(DataValue::Bool(b)) => Ok(b),
        Ok(_) => Err(EvalError::PredicateType(span)),
        Err(e) => Err(e),
    }
}

} // verus!
