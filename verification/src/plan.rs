//! The mathematical model of an operator tree, and the planning passes
//! stated on it.
//!
//! A [`Plan`] holds what an operator tree holds, with names for symbols,
//! terms for expressions and sets for sets. The passes that rewrite a tree
//! (elimination of unused bindings, resolution and compilation of
//! expressions) are functions from plans to plans.

use vstd::prelude::*;

use crate::bytecode::{compile, Code};
use crate::expr::{
    all_resolved, args_first_unbound, args_free_vars, conjuncts, first_unbound, free_vars, resolved,
    Term,
};
use crate::symbol::{Name, SourceSpan};
use crate::value::Row;

verus! {

/// Compiled predicates, each with the place of its source.
pub type Codes = Seq<(Code, SourceSpan)>;

/// What a plan knows of a stored relation.
pub struct Storage {
    pub id: u64,
    pub key_len: int,
    pub val_len: int,
}

/// The mathematical model of an operator tree.
pub enum Plan {
    Fixed { bindings: Seq<Name>, data: Seq<Row>, to_eliminate: Set<Name>, span: SourceSpan },
    TempStore {
        bindings: Seq<Name>,
        storage_key: u64,
        filters: Seq<Term>,
        codes: Codes,
        span: SourceSpan,
    },
    Stored {
        bindings: Seq<Name>,
        storage: Storage,
        filters: Seq<Term>,
        codes: Codes,
        span: SourceSpan,
    },
    StoredWithValidity {
        bindings: Seq<Name>,
        storage: Storage,
        filters: Seq<Term>,
        codes: Codes,
        valid_at: int,
        span: SourceSpan,
    },
    Join {
        left: Box<Plan>,
        right: Box<Plan>,
        left_keys: Seq<Name>,
        right_keys: Seq<Name>,
        to_eliminate: Set<Name>,
        span: SourceSpan,
    },
    NegJoin {
        left: Box<Plan>,
        right: Box<Plan>,
        left_keys: Seq<Name>,
        right_keys: Seq<Name>,
        to_eliminate: Set<Name>,
        span: SourceSpan,
    },
    Reorder { relation: Box<Plan>, new_order: Seq<Name> },
    Filter {
        parent: Box<Plan>,
        filters: Seq<Term>,
        codes: Codes,
        to_eliminate: Set<Name>,
        span: SourceSpan,
    },
    Unification {
        parent: Box<Plan>,
        binding: Name,
        expr: Term,
        code: Code,
        is_multi: bool,
        to_eliminate: Set<Name>,
        span: SourceSpan,
    },
}

/// The names of `names` that are not in `gone`, in their order.
pub open spec fn retain(names: Seq<Name>, gone: Set<Name>) -> Seq<Name>
    decreases names.len(),
{
    if names.len() == 0 {
        names
    } else if gone.contains(names.last()) {
        retain(names.drop_last(), gone)
    } else {
        retain(names.drop_last(), gone).push(names.last())
    }
}

/// The names that the filters of a list mention.
pub open spec fn filters_free_vars(filters: Seq<Term>) -> Set<Name> {
    args_free_vars(filters, filters.len() as int)
}

/// The compiled forms of the filters of a list.
pub open spec fn compile_all(filters: Seq<Term>) -> Codes {
    Seq::new(filters.len(), |i: int| (compile(filters[i]), filters[i].span()))
}

/// The first of two failures, if any.
pub open spec fn first_of_two(a: Option<SourceSpan>, b: Option<SourceSpan>) -> Option<SourceSpan> {
    match a {
        Some(s) => Some(s),
        None => b,
    }
}

/// The two sides of a join with conjuncts pushed into them, and the
/// conjuncts that stay above the join.
pub struct Distributed {
    pub left: Plan,
    pub right: Plan,
    pub remaining: Seq<Term>,
}

/// The first `n` conjuncts of `cs` distributed over the two sides of a
/// join, one after the other: a conjunct that mentions only names of `lb`
/// goes on top of the left side, one that mentions only names of `rb` on top
/// of the right side, any other stays. `bound` is the nesting depth of the
/// join; both sides are nested less deeply, and stay so.
pub open spec fn distribute(
    left: Plan,
    right: Plan,
    lb: Set<Name>,
    rb: Set<Name>,
    cs: Seq<Term>,
    n: int,
    bound: nat,
) -> Distributed
    decreases bound, 0int, n,
{
    if n <= 0 || n > cs.len() {
        Distributed { left, right, remaining: Seq::empty() }
    } else {
        let d = distribute(left, right, lb, rb, cs, n - 1, bound);
        let c = cs[n - 1];
        if free_vars(c).subset_of(lb) {
            Distributed {
                left: if d.left.join_depth() < bound {
                    d.left.with_filter(c)
                } else {
                    d.left
                },
                right: d.right,
                remaining: d.remaining,
            }
        } else if free_vars(c).subset_of(rb) {
            Distributed {
                left: d.left,
                right: if d.right.join_depth() < bound {
                    d.right.with_filter(c)
                } else {
                    d.right
                },
                remaining: d.remaining,
            }
        } else {
            Distributed { left: d.left, right: d.right, remaining: d.remaining.push(c) }
        }
    }
}

/// A filter on top of a plan nests its joins no deeper.
pub proof fn lemma_with_filter_depth(p: Plan, f: Term)
    ensures
        p.with_filter(f).join_depth() <= p.join_depth(),
    decreases p.join_depth(), 1int, 0int,
{
    match p {
        Plan::Join { left, right, left_keys, right_keys, to_eliminate, span } => {
            lemma_distribute_depth(
                *left,
                *right,
                left.bindings_before().to_set(),
                right.bindings_before().to_set(),
                conjuncts(f),
                conjuncts(f).len() as int,
                p.join_depth(),
            );
        },
        _ => {},
    }
}

/// Distributing conjuncts nests the joins of either side no deeper.
pub proof fn lemma_distribute_depth(
    left: Plan,
    right: Plan,
    lb: Set<Name>,
    rb: Set<Name>,
    cs: Seq<Term>,
    n: int,
    bound: nat,
)
    requires
        left.join_depth() < bound,
        right.join_depth() < bound,
    ensures
        distribute(left, right, lb, rb, cs, n, bound).left.join_depth() <= left.join_depth(),
        distribute(left, right, lb, rb, cs, n, bound).right.join_depth() <= right.join_depth(),
    decreases bound, 0int, n,
{
    if !(n <= 0 || n > cs.len()) {
        lemma_distribute_depth(left, right, lb, rb, cs, n - 1, bound);
        let d = distribute(left, right, lb, rb, cs, n - 1, bound);
        let c = cs[n - 1];
        if free_vars(c).subset_of(lb) {
            lemma_with_filter_depth(d.left, c);
        } else if free_vars(c).subset_of(rb) {
            lemma_with_filter_depth(d.right, c);
        }
    }
}

impl Plan {
    /// Where the operator was written.
    pub open spec fn span(self) -> SourceSpan
        decreases self,
    {
        match self {
            Plan::Fixed { span, .. } => span,
            Plan::TempStore { span, .. } => span,
            Plan::Stored { span, .. } => span,
            Plan::StoredWithValidity { span, .. } => span,
            Plan::Join { span, .. } => span,
            Plan::NegJoin { span, .. } => span,
            Plan::Reorder { relation, .. } => relation.span(),
            Plan::Filter { span, .. } => span,
            Plan::Unification { span, .. } => span,
        }
    }

    /// Whether this is the relation of one row without columns.
    pub open spec fn is_unit(self) -> bool {
        self matches Plan::Fixed { bindings, data, .. } && bindings.len() == 0 && data.len() == 1
    }

    /// Whether this reads a source directly.
    pub open spec fn is_scan(self) -> bool {
        self is TempStore || self is Stored || self is StoredWithValidity
    }

    /// The set of bindings that the operator drops, where it has one.
    pub open spec fn eliminate_set(self) -> Option<Set<Name>> {
        match self {
            Plan::Fixed { to_eliminate, .. } => Some(to_eliminate),
            Plan::Join { to_eliminate, .. } => Some(to_eliminate),
            Plan::Filter { to_eliminate, .. } => Some(to_eliminate),
            Plan::NegJoin { to_eliminate, .. } => Some(to_eliminate),
            Plan::Unification { to_eliminate, .. } => Some(to_eliminate),
            _ => None,
        }
    }

    /// The bindings that the operator has before it drops any.
    pub open spec fn bindings_before(self) -> Seq<Name>
        decreases self, 0int,
    {
        match self {
            Plan::Fixed { bindings, .. } => bindings,
            Plan::TempStore { bindings, .. } => bindings,
            Plan::Stored { bindings, .. } => bindings,
            Plan::StoredWithValidity { bindings, .. } => bindings,
            Plan::Join { left, right, .. } => left.bindings_after() + right.bindings_after(),
            Plan::Reorder { new_order, .. } => new_order,
            Plan::Filter { parent, .. } => parent.bindings_after(),
            Plan::NegJoin { left, .. } => left.bindings_after(),
            Plan::Unification { parent, binding, .. } => parent.bindings_after().push(binding),
        }
    }

    /// The bindings of the rows that the operator yields.
    pub open spec fn bindings_after(self) -> Seq<Name>
        decreases self, 1int,
    {
        match self.eliminate_set() {
            Some(gone) => retain(self.bindings_before(), gone),
            None => self.bindings_before(),
        }
    }

    /// The number of columns of the rows that the operator yields.
    pub open spec fn width(self) -> int {
        self.bindings_after().len() as int
    }

    /// What the consumer of the left side of a join needs besides what the
    /// join's own consumer needs: the left keys and, where the right side
    /// is an in-memory store, what its filters mention.
    pub open spec fn join_left_needs(right: Plan, left_keys: Seq<Name>) -> Set<Name> {
        match right {
            Plan::TempStore { filters, .. } => left_keys.to_set().union(filters_free_vars(filters)),
            _ => left_keys.to_set(),
        }
    }

    /// The plan after the elimination pass for a consumer that needs the
    /// bindings `used`: every operator that drops bindings also drops
    /// those of its bindings that are not in `used`, and passes on to its
    /// inputs what it needs itself.
    pub open spec fn eliminated(self, used: Set<Name>) -> Plan
        decreases self,
    {
        match self {
            Plan::Fixed { bindings, data, to_eliminate, span } => Plan::Fixed {
                bindings,
                data,
                to_eliminate: to_eliminate.union(bindings.to_set().difference(used)),
                span,
            },
            Plan::TempStore { .. } => self,
            Plan::Stored { .. } => self,
            Plan::StoredWithValidity { .. } => self,
            Plan::Join { left, right, left_keys, right_keys, to_eliminate, span } => Plan::Join {
                left: Box::new(
                    left.eliminated(used.union(Plan::join_left_needs(*right, left_keys))),
                ),
                right: Box::new(right.eliminated(used.union(right_keys.to_set()))),
                left_keys,
                right_keys,
                to_eliminate: to_eliminate.union(self.bindings_before().to_set().difference(used)),
                span,
            },
            Plan::NegJoin { left, right, left_keys, right_keys, to_eliminate, span } => {
                Plan::NegJoin {
                    left: Box::new(left.eliminated(used.union(left_keys.to_set()))),
                    right,
                    left_keys,
                    right_keys,
                    to_eliminate: to_eliminate.union(
                        left.bindings_after().to_set().difference(used),
                    ),
                    span,
                }
            },
            Plan::Reorder { relation, new_order } => Plan::Reorder {
                relation: Box::new(relation.eliminated(used)),
                new_order,
            },
            Plan::Filter { parent, filters, codes, to_eliminate, span } => Plan::Filter {
                parent: Box::new(parent.eliminated(used.union(filters_free_vars(filters)))),
                filters,
                codes,
                to_eliminate: to_eliminate.union(
                    parent.bindings_before().to_set().difference(used),
                ),
                span,
            },
            Plan::Unification { parent, binding, expr, code, is_multi, to_eliminate, span } => {
                Plan::Unification {
                    parent: Box::new(parent.eliminated(used.union(free_vars(expr)))),
                    binding,
                    expr,
                    code,
                    is_multi,
                    to_eliminate: to_eliminate.union(
                        parent.bindings_before().to_set().difference(used),
                    ),
                    span,
                }
            },
        }
    }

    /// The plan after resolution and compilation: every expression is
    /// resolved against the bindings of the rows that it is evaluated on,
    /// and its compiled form is stored beside it.
    pub open spec fn filled(self) -> Plan
        decreases self,
    {
        match self {
            Plan::Fixed { .. } => self,
            Plan::TempStore { bindings, storage_key, filters, codes, span } => Plan::TempStore {
                bindings,
                storage_key,
                filters: all_resolved(filters, bindings),
                codes: compile_all(all_resolved(filters, bindings)),
                span,
            },
            Plan::Stored { bindings, storage, filters, codes, span } => Plan::Stored {
                bindings,
                storage,
                filters: all_resolved(filters, bindings),
                codes: compile_all(all_resolved(filters, bindings)),
                span,
            },
            Plan::StoredWithValidity { bindings, storage, filters, codes, valid_at, span } => {
                Plan::StoredWithValidity {
                    bindings,
                    storage,
                    filters: all_resolved(filters, bindings),
                    codes: compile_all(all_resolved(filters, bindings)),
                    valid_at,
                    span,
                }
            },
            Plan::Join { left, right, left_keys, right_keys, to_eliminate, span } => Plan::Join {
                left: Box::new(left.filled()),
                right: Box::new(right.filled()),
                left_keys,
                right_keys,
                to_eliminate,
                span,
            },
            Plan::NegJoin { left, right, left_keys, right_keys, to_eliminate, span } => {
                Plan::NegJoin {
                    left: Box::new(left.filled()),
                    right,
                    left_keys,
                    right_keys,
                    to_eliminate,
                    span,
                }
            },
            Plan::Reorder { relation, new_order } => Plan::Reorder {
                relation: Box::new(relation.filled()),
                new_order,
            },
            Plan::Filter { parent, filters, codes, to_eliminate, span } => Plan::Filter {
                parent: Box::new(parent.filled()),
                filters: all_resolved(filters, parent.bindings_after()),
                codes: compile_all(all_resolved(filters, parent.bindings_after())),
                to_eliminate,
                span,
            },
            Plan::Unification { parent, binding, expr, code, is_multi, to_eliminate, span } => {
                Plan::Unification {
                    parent: Box::new(parent.filled()),
                    binding,
                    expr: resolved(expr, parent.bindings_after()),
                    code: compile(resolved(expr, parent.bindings_after())),
                    is_multi,
                    to_eliminate,
                    span,
                }
            },
        }
    }

    /// How deeply joins are nested at the root of the plan, through the
    /// inputs of joins only.
    pub open spec fn join_depth(self) -> nat
        decreases self,
    {
        match self {
            Plan::Join { left, right, .. } => 1 + if left.join_depth() >= right.join_depth() {
                left.join_depth()
            } else {
                right.join_depth()
            },
            _ => 0,
        }
    }

    /// The plan with the filter `f` on top of it.
    ///
    /// A filter or a scan takes `f` into its own list of filters. A join
    /// splits `f` into its conjuncts and hands each to the side whose
    /// bindings cover what it mentions; the conjuncts that neither side
    /// covers stay in a filter above the join. Any other operator gets a
    /// filter above it.
    pub open spec fn with_filter(self, f: Term) -> Plan
        decreases self.join_depth(), 1int, 0int,
    {
        match self {
            Plan::Filter { parent, filters, codes, to_eliminate, span } => Plan::Filter {
                parent,
                filters: filters.push(f),
                codes,
                to_eliminate,
                span,
            },
            Plan::TempStore { bindings, storage_key, filters, codes, span } => Plan::TempStore {
                bindings,
                storage_key,
                filters: filters.push(f),
                codes,
                span,
            },
            Plan::Stored { bindings, storage, filters, codes, span } => Plan::Stored {
                bindings,
                storage,
                filters: filters.push(f),
                codes,
                span,
            },
            Plan::StoredWithValidity { bindings, storage, filters, codes, valid_at, span } => {
                Plan::StoredWithValidity {
                    bindings,
                    storage,
                    filters: filters.push(f),
                    codes,
                    valid_at,
                    span,
                }
            },
            Plan::Join { left, right, left_keys, right_keys, to_eliminate, span } => {
                let d = distribute(
                    *left,
                    *right,
                    left.bindings_before().to_set(),
                    right.bindings_before().to_set(),
                    conjuncts(f),
                    conjuncts(f).len() as int,
                    self.join_depth(),
                );
                let joined = Plan::Join {
                    left: Box::new(d.left),
                    right: Box::new(d.right),
                    left_keys,
                    right_keys,
                    to_eliminate,
                    span,
                };
                if d.remaining.len() > 0 {
                    Plan::Filter {
                        parent: Box::new(joined),
                        filters: d.remaining,
                        codes: Seq::empty(),
                        to_eliminate: Set::empty(),
                        span,
                    }
                } else {
                    joined
                }
            },
            _ => Plan::Filter {
                parent: Box::new(self),
                filters: seq![f],
                codes: Seq::empty(),
                to_eliminate: Set::empty(),
                span: f.span(),
            },
        }
    }

    /// The first binding, in the order in which the pass visits them, that
    /// resolution cannot resolve: inputs before the operator itself, the
    /// left input before the right.
    pub open spec fn first_unresolved(self) -> Option<SourceSpan>
        decreases self,
    {
        match self {
            Plan::Fixed { .. } => None,
            Plan::TempStore { bindings, filters, .. } => args_first_unbound(
                filters,
                bindings,
                filters.len() as int,
            ),
            Plan::Stored { bindings, filters, .. } => args_first_unbound(
                filters,
                bindings,
                filters.len() as int,
            ),
            Plan::StoredWithValidity { bindings, filters, .. } => args_first_unbound(
                filters,
                bindings,
                filters.len() as int,
            ),
            Plan::Join { left, right, .. } => first_of_two(
                left.first_unresolved(),
                right.first_unresolved(),
            ),
            Plan::NegJoin { left, .. } => left.first_unresolved(),
            Plan::Reorder { relation, .. } => relation.first_unresolved(),
            Plan::Filter { parent, filters, .. } => first_of_two(
                parent.first_unresolved(),
                args_first_unbound(filters, parent.bindings_after(), filters.len() as int),
            ),
            Plan::Unification { parent, expr, .. } => first_of_two(
                parent.first_unresolved(),
                first_unbound(expr, parent.bindings_after()),
            ),
        }
    }
}

} // verus!
