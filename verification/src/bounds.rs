//! Range bounds that a list of filters puts on named columns.
//!
//! A filter that compares a binding with a constant bounds that binding
//! from below, from above or both. The bounds of a list of filters are the
//! tightest that its members give; a binding that no filter constrains has
//! the bounds `Null` and `Bot`.

use vstd::prelude::*;

use crate::expr::{lemma_apply_view, lemma_exprs_view, Expr, Op, Term};
use crate::symbol::{Name, Symbol};
use crate::value::{compare_values, Comparison, DataValue, Value};

verus! {

broadcast use vstd::std_specs::vec::group_vec_axioms;

/// The greater of two values.
pub open spec fn max_value(a: Value, b: Value) -> Value {
    if compare_values(a, b) == Comparison::Less {
        b
    } else {
        a
    }
}

/// The lesser of two values.
pub open spec fn min_value(a: Value, b: Value) -> Value {
    if compare_values(a, b) == Comparison::Greater {
        b
    } else {
        a
    }
}

/// The operator that holds of `(b, a)` exactly when `op` holds of `(a, b)`.
pub open spec fn mirrored(op: Op) -> Op {
    match op {
        Op::Gt => Op::Lt,
        Op::Ge => Op::Le,
        Op::Lt => Op::Gt,
        Op::Le => Op::Ge,
        _ => op,
    }
}

/// The bounds that `x op c` puts on `x`. A strict comparison bounds as the
/// weak one does.
pub open spec fn bound_for(op: Op, c: Value) -> (Value, Value) {
    match op {
        Op::Eq => (c, c),
        Op::Gt => (c, Value::Bot),
        Op::Ge => (c, Value::Bot),
        Op::Lt => (Value::Null, c),
        Op::Le => (Value::Null, c),
        _ => (Value::Null, Value::Bot),
    }
}

/// The bounds that a single filter puts on the binding `target`.
pub open spec fn term_bound(t: Term, target: Name) -> (Value, Value) {
    if t is Apply && t->Apply_args.len() == 2 {
        let a = t->Apply_args[0];
        let b = t->Apply_args[1];
        if a is Binding && b is Const && a->Binding_var == target {
            bound_for(t->Apply_op, b->Const_val)
        } else if a is Const && b is Binding && b->Binding_var == target {
            bound_for(mirrored(t->Apply_op), a->Const_val)
        } else {
            (Value::Null, Value::Bot)
        }
    } else {
        (Value::Null, Value::Bot)
    }
}

/// The bounds that the first `n` filters put on the binding `target`.
pub open spec fn bounds_upto(filters: Seq<Term>, target: Name, n: int) -> (Value, Value)
    decreases n,
{
    if n <= 0 || n > filters.len() {
        (Value::Null, Value::Bot)
    } else {
        let (l, u) = bounds_upto(filters, target, n - 1);
        let (l2, u2) = term_bound(filters[n - 1], target);
        (max_value(l, l2), min_value(u, u2))
    }
}

/// The lower bounds that `filters` put on each of `symbols`.
pub open spec fn lower_bounds(filters: Seq<Term>, symbols: Seq<Name>) -> Seq<Value> {
    Seq::new(symbols.len(), |i: int| bounds_upto(filters, symbols[i], filters.len() as int).0)
}

/// The upper bounds that `filters` put on each of `symbols`.
pub open spec fn upper_bounds(filters: Seq<Term>, symbols: Seq<Name>) -> Seq<Value> {
    Seq::new(symbols.len(), |i: int| bounds_upto(filters, symbols[i], filters.len() as int).1)
}

/// Every value is `v`.
pub open spec fn all_are(vs: Seq<Value>, v: Value) -> bool {
    forall|i: int| 0 <= i < vs.len() ==> (#[trigger] vs[i]) == v
}

fn mirror(op: Op) -> (r: Op)
    ensures
        r == mirrored(op),
{
    match op {
        Op::Gt => Op::Lt,
        Op::Ge => Op::Le,
        Op::Lt => Op::Gt,
        Op::Le => Op::Ge,
        _ => op,
    }
}

fn bound_of(op: Op, c: &DataValue) -> (r: (DataValue, DataValue))
    ensures
        (r.0.deep_view(), r.1.deep_view()) == bound_for(op, c.deep_view()),
{
    match op {
        Op::Eq => (c.clone(), c.clone()),
        Op::Gt => (c.clone(), DataValue::Bot),
        Op::Ge => (c.clone(), DataValue::Bot),
        Op::Lt => (DataValue::Null, c.clone()),
        Op::Le => (DataValue::Null, c.clone()),
        _ => (DataValue::Null, DataValue::Bot),
    }
}

impl Expr {
    /// The bounds that this filter puts on the binding `target`.
    pub fn extract_bound(&self, target: &Symbol) -> (r: (DataValue, DataValue))
        ensures
            (r.0.deep_view(), r.1.deep_view()) == term_bound(
                self.deep_view(),
                target.deep_view(),
            ),
    {
        match self {
            Expr::Apply { op, args, span } => {
                proof {
                    lemma_apply_view(*op, args, *span);
                    lemma_exprs_view(args);
                }
                if args.len() == 2 {
                    match &args[0] {
                        Expr::Binding { var, .. } => {
                            if var.same_name(target) {
                                match &args[1] {
                                    Expr::Const { val, .. } => {
                                        return bound_of(*op, val);
                                    },
                                    _ => {},
                                }
                            }
                        },
                        Expr::Const { val, .. } => {
                            match &args[1] {
                                Expr::Binding { var, .. } => {
                                    if var.same_name(target) {
                                        return bound_of(mirror(*op), val);
                                    }
                                },
                                _ => {},
                            }
                        },
                        _ => {},
                    }
                }
                (DataValue::Null, DataValue::Bot)
            },
            _ => (DataValue::Null, DataValue::Bot),
        }
    }
}

/// The lower and upper bounds that `filters` put on each of `symbols`.
pub fn compute_bounds(filters: &Vec<Expr>, symbols: &[Symbol]) -> (r: (
    Vec<DataValue>,
    Vec<DataValue>,
))
    ensures
        r.0.deep_view() == lower_bounds(filters.deep_view(), symbols.deep_view()),
        r.1.deep_view() == upper_bounds(filters.deep_view(), symbols.deep_view()),
{
    let mut lowers: Vec<DataValue> = Vec::new();
    let mut uppers: Vec<DataValue> = Vec::new();
    let ghost fs = filters.deep_view();
    let ghost names = symbols.deep_view();
    let mut i: usize = 0;
    while i < symbols.len()
        invariant
            0 <= i <= symbols@.len(),
            fs == filters.deep_view(),
            names == symbols.deep_view(),
            lowers@.len() == i,
            uppers@.len() == i,
            forall|j: int| 0 <= j < i ==> (#[trigger] lowers@[j]).deep_view() == bounds_upto(fs, names[j], fs.len() as int).0,
            forall|j: int| 0 <= j < i ==> (#[trigger] uppers@[j]).deep_view() == bounds_upto(fs, names[j], fs.len() as int).1,
        decreases symbols@.len() - i,
    {
        let mut lower = DataValue::Null;
        let mut upper = DataValue::Bot;
        let mut k: usize = 0;
        while k < filters.len()
            invariant
                0 <= k <= filters@.len(),
                0 <= i < symbols@.len(),
                fs == filters.deep_view(),
                names == symbols.deep_view(),
                (lower.deep_view(), upper.deep_view()) == bounds_upto(fs, names[i as int], k as int),
            decreases filters@.len() - k,
        {
            proof {
                lemma_exprs_view(filters);
            }
            let (l2, u2) = filters[k].extract_bound(&symbols[i]);
            match lower.compare(&l2) {
                Comparison::Less => {
                    lower = l2;
                },
                _ => {},
            }
            match upper.compare(&u2) {
                Comparison::Greater => {
                    upper = u2;
                },
                _ => {},
            }
            k = k + 1;
        }
        proof {
            lemma_exprs_view(filters);
        }
        lowers.push(lower);
        uppers.push(upper);
        i = i + 1;
    }
    assert(lowers.deep_view() =~= lower_bounds(fs, names));
    assert(uppers.deep_view() =~= upper_bounds(fs, names));
    (lowers, uppers)
}

/// Whether every value of `vs` is `Null`.
pub fn all_null(vs: &Vec<DataValue>) -> (r: bool)
    ensures
        r == all_are(vs.deep_view(), Value::Null),
{
    let mut i: usize = 0;
    while i < vs.len()
        invariant
            0 <= i <= vs@.len(),
            forall|j: int| 0 <= j < i ==> (#[trigger] vs.deep_view()[j]) == Value::Null,
        decreases vs@.len() - i,
    {
        if !vs[i].is_null() {
            assert(vs.deep_view()[i as int] != Value::Null);
            return false;
        }
        assert(vs.deep_view()[i as int] == Value::Null);
        i = i + 1;
    }
    true
}

/// Whether every value of `vs` is `Bot`.
pub fn all_bot(vs: &Vec<DataValue>) -> (r: bool)
    ensures
        r == all_are(vs.deep_view(), Value::Bot),
{
    let mut i: usize = 0;
    while i < vs.len()
        invariant
            0 <= i <= vs@.len(),
            forall|j: int| 0 <= j < i ==> (#[trigger] vs.deep_view()[j]) == Value::Bot,
        decreases vs@.len() - i,
    {
        if !vs[i].is_bot() {
            assert(vs.deep_view()[i as int] != Value::Bot);
            return false;
        }
        assert(vs.deep_view()[i as int] == Value::Bot);
        i = i + 1;
    }
    true
}

} // verus!
