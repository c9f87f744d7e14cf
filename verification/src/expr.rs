//! Expressions over the bindings of a row, and what they evaluate to.
//!
//! A [`Term`] is the mathematical model of an [`Expr`]. A binding carries,
//! next to its name, the column that the name was resolved to; evaluation
//! reads only the column.

use vstd::prelude::*;

use crate::error::EvalError;
use crate::symbol::{as_position, position_of, resolve, Name, SourceSpan, Symbol, SymbolSet};
use crate::value::{compare_values, lemma_tuple_view, Comparison, DataValue, Row, Value};

verus! {

broadcast use vstd::std_specs::vec::group_vec_axioms;

/// The operators of the expression language.
#[derive(Clone, Copy, Debug, PartialEq, Eq, Structural)]
pub enum Op {
    Eq,
    Neq,
    Gt,
    Ge,
    Lt,
    Le,
    And,
    Or,
    Not,
}

/// The mathematical model of an expression.
pub enum Term {
    Binding { var: Name, pos: Option<int>, span: SourceSpan },
    Const { val: Value, span: SourceSpan },
    Apply { op: Op, args: Seq<Term>, span: SourceSpan },
}

/// An executable expression.
#[derive(Debug, PartialEq, Eq)]
pub enum Expr {
    Binding { var: Symbol, tuple_pos: Option<usize> },
    Const { val: DataValue, span: SourceSpan },
    Apply { op: Op, args: Vec<Expr>, span: SourceSpan },
}

impl Expr {
    /// The term that this expression stands for.
    pub open spec fn model(&self) -> Term
        decreases self,
    {
        match self {
            Expr::Binding { var, tuple_pos } => Term::Binding {
                var: var.deep_view(),
                pos: as_position(*tuple_pos),
                span: var.span,
            },
            Expr::Const { val, span } => Term::Const { val: val.deep_view(), span: *span },
            Expr::Apply { op, args, span } => Term::Apply {
                op: *op,
                args: Seq::new(
                    args@.len(),
                    |i: int|
                        if 0 <= i < args@.len() {
                            args@[i].model()
                        } else {
                            Term::Const { val: Value::Null, span: SourceSpan(0, 0) }
                        },
                ),
                span: *span,
            },
        }
    }
}

impl DeepView for Expr {
    type V = Term;

    open spec fn deep_view(&self) -> Term {
        self.model()
    }
}

/// The view of a list of expressions, element by element.
pub proof fn lemma_exprs_view(v: &Vec<Expr>)
    ensures
        v.deep_view().len() == v@.len(),
        forall|i: int| 0 <= i < v@.len() ==> #[trigger] v.deep_view()[i] == v@[i].deep_view(),
{
}

/// The view of an application is the application of the views.
pub proof fn lemma_apply_view(op: Op, args: &Vec<Expr>, span: SourceSpan)
    ensures
        (Expr::Apply { op, args: *args, span }).deep_view() == (Term::Apply {
            op,
            args: args.deep_view(),
            span,
        }),
{
    assert((Expr::Apply { op, args: *args, span }).deep_view()->Apply_args =~= args.deep_view());
}

/// A result of evaluation in the model.
pub open spec fn value_result(r: Result<DataValue, EvalError>) -> Result<Value, EvalError> {
    match r {
        Ok(v) => Ok(v.deep_view()),
        Err(e) => Err(e),
    }
}

/// Every value is a boolean.
pub open spec fn all_bools(vs: Seq<Value>) -> bool {
    forall|i: int| 0 <= i < vs.len() ==> (#[trigger] vs[i]) is Bool
}

/// Every value is `true`.
pub open spec fn all_true(vs: Seq<Value>) -> bool {
    forall|i: int| 0 <= i < vs.len() ==> (#[trigger] vs[i]) == Value::Bool(true)
}

/// Some value is `true`.
pub open spec fn any_true(vs: Seq<Value>) -> bool {
    exists|i: int| 0 <= i < vs.len() && (#[trigger] vs[i]) == Value::Bool(true)
}

/// What a comparison operator makes of the outcome of a comparison.
pub open spec fn holds(op: Op, c: Comparison) -> bool {
    match op {
        Op::Eq => c == Comparison::Equal,
        Op::Neq => c != Comparison::Equal,
        Op::Gt => c == Comparison::Greater,
        Op::Ge => c != Comparison::Less,
        Op::Lt => c == Comparison::Less,
        Op::Le => c != Comparison::Greater,
        _ => false,
    }
}

/// Whether `op` compares two values.
pub open spec fn is_comparison(op: Op) -> bool {
    op == Op::Eq || op == Op::Neq || op == Op::Gt || op == Op::Ge || op == Op::Lt || op == Op::Le
}

/// The value of an operator applied to argument values. Comparisons take
/// two values of any kind and go by the total order; the connectives take
/// booleans, `Not` exactly one.
pub open spec fn op_value(op: Op, args: Seq<Value>, span: SourceSpan) -> Result<Value, EvalError> {
    if is_comparison(op) {
        if args.len() == 2 {
            Ok(Value::Bool(holds(op, compare_values(args[0], args[1]))))
        } else {
            Err(EvalError::TypeMismatch(span))
        }
    } else if !all_bools(args) {
        Err(EvalError::TypeMismatch(span))
    } else if op == Op::And {
        Ok(Value::Bool(all_true(args)))
    } else if op == Op::Or {
        Ok(Value::Bool(any_true(args)))
    } else if args.len() == 1 {
        Ok(Value::Bool(args[0] != Value::Bool(true)))
    } else {
        Err(EvalError::TypeMismatch(span))
    }
}

/// The value of a term on a row. Arguments are evaluated from left to
/// right, and the first failure is the failure of the whole.
pub open spec fn term_value(t: Term, row: Row) -> Result<Value, EvalError>
    decreases t, 0int,
{
    match t {
        Term::Binding { var, pos, span } => match pos {
            Some(i) => if 0 <= i < row.len() {
                Ok(row[i])
            } else {
                Err(EvalError::UnboundVariable(span))
            },
            None => Err(EvalError::UnboundVariable(span)),
        },
        Term::Const { val, span } => Ok(val),
        Term::Apply { op, args, span } => match args_values(args, row, args.len() as int) {
            Ok(vs) => op_value(op, vs, span),
            Err(e) => Err(e),
        },
    }
}

/// The values of the first `n` terms of `args` on a row.
pub open spec fn args_values(args: Seq<Term>, row: Row, n: int) -> Result<Seq<Value>, EvalError>
    decreases args, n,
{
    if n <= 0 || n > args.len() {
        Ok(Seq::empty())
    } else {
        match args_values(args, row, n - 1) {
            Ok(vs) => match term_value(args[n - 1], row) {
                Ok(v) => Ok(vs.push(v)),
                Err(e) => Err(e),
            },
            Err(e) => Err(e),
        }
    }
}

/// The names that a term mentions.
pub open spec fn free_vars(t: Term) -> Set<Name>
    decreases t, 0int,
{
    match t {
        Term::Binding { var, pos, span } => set![var],
        Term::Const { val, span } => Set::empty(),
        Term::Apply { op, args, span } => args_free_vars(args, args.len() as int),
    }
}

/// The names that the first `n` terms of `args` mention.
pub open spec fn args_free_vars(args: Seq<Term>, n: int) -> Set<Name>
    decreases args, n,
{
    if n <= 0 || n > args.len() {
        Set::empty()
    } else {
        args_free_vars(args, n - 1).union(free_vars(args[n - 1]))
    }
}

/// The term with every binding resolved against `names`.
pub open spec fn resolved(t: Term, names: Seq<Name>) -> Term
    decreases t,
{
    match t {
        Term::Binding { var, pos, span } => Term::Binding { var, pos: resolve(names, var), span },
        Term::Const { val, span } => t,
        Term::Apply { op, args, span } => Term::Apply {
            op,
            args: Seq::new(
                args.len(),
                |i: int|
                    if 0 <= i < args.len() {
                        resolved(args[i], names)
                    } else {
                        t
                    },
            ),
            span,
        },
    }
}

/// The span of the first binding of `t`, from left to right, whose name is
/// not in `names`.
pub open spec fn first_unbound(t: Term, names: Seq<Name>) -> Option<SourceSpan>
    decreases t, 0int,
{
    match t {
        Term::Binding { var, pos, span } => if resolve(names, var) is None {
            Some(span)
        } else {
            None
        },
        Term::Const { val, span } => None,
        Term::Apply { op, args, span } => args_first_unbound(args, names, args.len() as int),
    }
}

/// The first unresolvable binding among the first `n` terms of `args`.
pub open spec fn args_first_unbound(args: Seq<Term>, names: Seq<Name>, n: int) -> Option<
    SourceSpan,
>
    decreases args, n,
{
    if n <= 0 || n > args.len() {
        None
    } else {
        match args_first_unbound(args, names, n - 1) {
            Some(s) => Some(s),
            None => first_unbound(args[n - 1], names),
        }
    }
}

/// The conjuncts of a term: the arguments of a conjunction, or the term
/// itself.
pub open spec fn conjuncts(t: Term) -> Seq<Term> {
    match t {
        Term::Apply { op: Op::And, args, span } => args,
        _ => seq![t],
    }
}

/// Applies a comparison operator to the outcome of a comparison.
fn comparison_holds(op: Op, c: Comparison) -> (r: bool)
    requires
        is_comparison(op),
    ensures
        r == holds(op, c),
{
    match op {
        Op::Eq => c == Comparison::Equal,
        Op::Neq => c != Comparison::Equal,
        Op::Gt => c == Comparison::Greater,
        Op::Ge => c != Comparison::Less,
        Op::Lt => c == Comparison::Less,
        _ => c != Comparison::Greater,
    }
}

fn op_is_comparison(op: Op) -> (r: bool)
    ensures
        r == is_comparison(op),
{
    match op {
        Op::And => false,
        Op::Or => false,
        Op::Not => false,
        _ => true,
    }
}

/// Applies `op` to the values `args`.
pub fn apply_op(op: Op, args: &Vec<DataValue>, span: SourceSpan) -> (r: Result<
    DataValue,
    EvalError,
>)
    ensures
        value_result(r) == op_value(op, args.deep_view(), span),
{
    proof {
        lemma_tuple_view(args);
    }
    if op_is_comparison(op) {
        if args.len() == 2 {
            let c = args[0].compare(&args[1]);
            return Ok(DataValue::Bool(comparison_holds(op, c)));
        } else {
            return Err(EvalError::TypeMismatch(span));
        }
    }
    let mut all: bool = true;
    let mut any: bool = false;
    let mut i: usize = 0;
    while i < args.len()
        invariant
            0 <= i <= args@.len(),
            !is_comparison(op),
            args.deep_view().len() == args@.len(),
            forall|j: int| 0 <= j < args@.len() ==> #[trigger] args.deep_view()[j] == args@[j].deep_view(),
            all_bools(args.deep_view().take(i as int)),
            all == all_true(args.deep_view().take(i as int)),
            any == any_true(args.deep_view().take(i as int)),
        decreases args@.len() - i,
    {
        let ghost vs = args.deep_view();
        match &args[i] {
            DataValue::Bool(b) => {
                proof {
                    let cur = vs.take(i as int);
                    let nxt = vs.take(i as int + 1);
                    assert(nxt =~= cur.push(vs[i as int]));
                    assert forall|j: int| 0 <= j < nxt.len() implies (#[trigger] nxt[j]) is Bool by {
                        if j < i {
                            assert(cur[j] is Bool);
                        }
                    }
                    if all_true(cur) && *b {
                        assert forall|j: int| 0 <= j < nxt.len() implies (#[trigger] nxt[j])
                            == Value::Bool(true) by {
                            if j < i {
                                assert(cur[j] == Value::Bool(true));
                            }
                        }
                    }
                    if !all_true(cur) {
                        let j = choose|j: int|
                            0 <= j < cur.len() && (#[trigger] cur[j]) != Value::Bool(true);
                        assert(nxt[j] != Value::Bool(true));
                    }
                    if !*b {
                        assert(nxt[i as int] != Value::Bool(true));
                    }
                    if any_true(cur) {
                        let j = choose|j: int|
                            0 <= j < cur.len() && (#[trigger] cur[j]) == Value::Bool(true);
                        assert(nxt[j] == Value::Bool(true));
                    }
                    if *b {
                        assert(nxt[i as int] == Value::Bool(true));
                    }
                    if any_true(nxt) && !*b {
                        let j = choose|j: int|
                            0 <= j < nxt.len() && (#[trigger] nxt[j]) == Value::Bool(true);
                        assert(cur[j] == Value::Bool(true));
                    }
                }
                all = all && *b;
                any = any || *b;
            },
            _ => {
                assert(!(vs[i as int] is Bool));
                return Err(EvalError::TypeMismatch(span));
            },
        }
        i = i + 1;
    }
    assert(args.deep_view().take(i as int) =~= args.deep_view());
    match op {
        Op::And => Ok(DataValue::Bool(all)),
        Op::Or => Ok(DataValue::Bool(any)),
        _ => {
            if args.len() == 1 {
                match &args[0] {
                    DataValue::Bool(b) => Ok(DataValue::Bool(!*b)),
                    _ => Err(EvalError::TypeMismatch(span)),
                }
            } else {
                Err(EvalError::TypeMismatch(span))
            }
        },
    }
}

impl Clone for Expr {
    fn clone(&self) -> (r: Expr)
        ensures
            r.deep_view() == self.deep_view(),
        decreases self, 0int,
    {
        match self {
            Expr::Binding { var, tuple_pos } => Expr::Binding {
                var: var.clone(),
                tuple_pos: *tuple_pos,
            },
            Expr::Const { val, span } => Expr::Const { val: val.clone(), span: *span },
            Expr::Apply { op, args, span } => {
                let out = clone_exprs(args);
                proof {
                    lemma_apply_view(*op, &out, *span);
                    lemma_apply_view(*op, args, *span);
                }
                Expr::Apply { op: *op, args: out, span: *span }
            },
        }
    }
}

/// A copy of a list of expressions.
pub fn clone_exprs(v: &Vec<Expr>) -> (r: Vec<Expr>)
    ensures
        r.deep_view() == v.deep_view(),
    decreases v, 1int,
{
    let mut out: Vec<Expr> = Vec::new();
    let mut i: usize = 0;
    while i < v.len()
        invariant
            0 <= i <= v@.len(),
            out@.len() == i,
            forall|j: int| 0 <= j < i ==> out@[j].deep_view() == v@[j].deep_view(),
        decreases v@.len() - i,
    {
        out.push(v[i].clone());
        i = i + 1;
    }
    assert(out.deep_view() =~= v.deep_view());
    out
}

impl Expr {
    /// Where the expression was written.
    pub fn span(&self) -> (r: SourceSpan)
        ensures
            r == self.deep_view().span(),
    {
        match self {
            Expr::Binding { var, .. } => var.span,
            Expr::Const { span, .. } => *span,
            Expr::Apply { span, .. } => *span,
        }
    }

    /// The names that the expression mentions.
    pub fn bindings(&self) -> (r: SymbolSet)
        ensures
            r@ == free_vars(self.deep_view()),
    {
        let mut out = SymbolSet::new();
        self.collect_bindings(&mut out);
        assert(out@ =~= free_vars(self.deep_view()));
        out
    }

    /// Adds the names that the expression mentions to `coll`.
    pub fn collect_bindings(&self, coll: &mut SymbolSet)
        ensures
            final(coll)@ == old(coll)@.union(free_vars(self.deep_view())),
        decreases self, 0int,
    {
        match self {
            Expr::Binding { var, .. } => {
                coll.insert(var.clone());
                assert(coll@ =~= old(coll)@.union(free_vars(self.deep_view())));
            },
            Expr::Const { .. } => {
                assert(coll@ =~= old(coll)@.union(free_vars(self.deep_view())));
            },
            Expr::Apply { op, args, span } => {
                proof {
                    lemma_apply_view(*op, args, *span);
                }
                collect_all_bindings(args, coll);
            },
        }
    }

    /// The conjuncts of the expression.
    pub fn to_conjunction(&self) -> (r: Vec<Expr>)
        ensures
            r.deep_view() == conjuncts(self.deep_view()),
    {
        match self {
            Expr::Apply { op: Op::And, args, span } => {
                proof {
                    lemma_apply_view(Op::And, args, *span);
                }
                clone_exprs(args)
            },
            _ => {
                let mut out: Vec<Expr> = Vec::new();
                out.push(self.clone());
                assert(out.deep_view() =~= seq![self.deep_view()]);
                out
            },
        }
    }
}

/// Adds the names that the expressions of `args` mention to `coll`.
pub fn collect_all_bindings(args: &Vec<Expr>, coll: &mut SymbolSet)
    ensures
        final(coll)@ == old(coll)@.union(args_free_vars(args.deep_view(), args@.len() as int)),
    decreases args, 1int,
{
    let mut i: usize = 0;
    assert(coll@ =~= old(coll)@.union(args_free_vars(args.deep_view(), 0)));
    while i < args.len()
        invariant
            0 <= i <= args@.len(),
            coll@ == old(coll)@.union(args_free_vars(args.deep_view(), i as int)),
        decreases args@.len() - i,
    {
        args[i].collect_bindings(coll);
        proof {
            lemma_exprs_view(args);
            assert(coll@ =~= old(coll)@.union(args_free_vars(args.deep_view(), i as int + 1)));
        }
        i = i + 1;
    }
}

impl Expr {
    /// Resolves every binding of the expression to its column among
    /// `bindings`. Fails with the first binding, from left to right, whose
    /// name is not among them; the others are resolved all the same.
    pub fn fill_binding_indices(&mut self, bindings: &Vec<Symbol>) -> (r: Result<(), EvalError>)
        ensures
            final(self).deep_view() == resolved(old(self).deep_view(), bindings.deep_view()),
            match first_unbound(old(self).deep_view(), bindings.deep_view()) {
                Some(s) => r == Err::<(), EvalError>(EvalError::UnboundVariable(s)),
                None => r is Ok,
            },
        decreases *old(self), 0int,
    {
        match self {
            Expr::Binding { var, tuple_pos } => {
                let p = position_of(bindings, var);
                *tuple_pos = p;
                if p.is_none() {
                    Err(EvalError::UnboundVariable(var.span))
                } else {
                    Ok(())
                }
            },
            Expr::Const { .. } => Ok(()),
            Expr::Apply { op, args, span } => {
                proof {
                    lemma_apply_view(*op, args, *span);
                }
                let ghost before = args.deep_view();
                let r = fill_all_binding_indices(args, bindings);
                proof {
                    lemma_apply_view(*op, args, *span);
                    assert(args.deep_view() =~= resolved(
                        old(self).deep_view(),
                        bindings.deep_view(),
                    )->Apply_args);
                }
                r
            },
        }
    }
}

/// The terms of `args`, each resolved against `names`.
pub open spec fn all_resolved(args: Seq<Term>, names: Seq<Name>) -> Seq<Term> {
    Seq::new(args.len(), |i: int| resolved(args[i], names))
}

/// Resolves every binding of every expression of `args`.
pub fn fill_all_binding_indices(args: &mut Vec<Expr>, bindings: &Vec<Symbol>) -> (r: Result<
    (),
    EvalError,
>)
    ensures
        final(args).deep_view() == all_resolved(old(args).deep_view(), bindings.deep_view()),
        match args_first_unbound(
            old(args).deep_view(),
            bindings.deep_view(),
            old(args)@.len() as int,
        ) {
            Some(s) => r == Err::<(), EvalError>(EvalError::UnboundVariable(s)),
            None => r is Ok,
        },
    decreases *old(args), 1int,
{
    let mut outcome: Result<(), EvalError> = Ok(());
    let mut i: usize = 0;
    let ghost names = bindings.deep_view();
    while i < args.len()
        invariant
            0 <= i <= args@.len(),
            names == bindings.deep_view(),
            args@.len() == old(args)@.len(),
            forall|j: int| 0 <= j < i ==> (#[trigger] args@[j]).deep_view() == resolved(old(args)@[j].deep_view(), names),
            forall|j: int| i <= j < args@.len() ==> (#[trigger] args@[j]) == old(args)@[j],
            match args_first_unbound(old(args).deep_view(), names, i as int) {
                Some(s) => outcome == Err::<(), EvalError>(EvalError::UnboundVariable(s)),
                None => outcome is Ok,
            },
        decreases args@.len() - i,
    {
        let ghost cur = args@;
        proof {
            lemma_exprs_view(old(args));
        }
        let r = args[i].fill_binding_indices(bindings);
        assert(forall|j: int| 0 <= j < args@.len() && j != i ==> args@[j] == cur[j]);
        if outcome.is_ok() {
            outcome = r;
        }
        i = i + 1;
    }
    proof {
        lemma_exprs_view(old(args));
        assert(args.deep_view() =~= all_resolved(old(args).deep_view(), names));
    }
    outcome
}

/// Resolution leaves the place of a term as it is.
pub proof fn lemma_resolved_span(t: Term, names: Seq<Name>)
    ensures
        resolved(t, names).span() == t.span(),
{
}

impl Term {
    /// Where the term was written.
    pub open spec fn span(self) -> SourceSpan {
        match self {
            Term::Binding { var, pos, span } => span,
            Term::Const { val, span } => span,
            Term::Apply { op, args, span } => span,
        }
    }
}

} // verus!
