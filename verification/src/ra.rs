//! The operator tree of the relational algebra: its node kinds, their
//! models, and how a planner builds them.

use vstd::prelude::*;

use crate::bytecode::{Bytecode, Code};
use crate::error::EvalError;
use crate::expr::{Expr, Term};
use crate::plan::{retain, Codes, Plan, Storage};
use crate::store::{ColType, NullableColType, RelationHandle};
use crate::symbol::{clone_symbols, Name, SourceSpan, Symbol, SymbolSet};
use crate::value::DataValue;

verus! {

broadcast use vstd::std_specs::vec::group_vec_axioms;

/// A point in time at which a time-travel scan reads.
#[derive(Clone, Copy, Debug, PartialEq, Eq, Structural)]
pub struct ValidityTs(pub i64);

/// A literal relation.
#[derive(Debug)]
pub struct InlineFixedRA {
    pub bindings: Vec<Symbol>,
    pub data: Vec<Vec<DataValue>>,
    pub to_eliminate: SymbolSet,
    pub span: SourceSpan,
}

/// A scan of an in-memory epoch store.
#[derive(Debug)]
pub struct TempStoreRA {
    pub bindings: Vec<Symbol>,
    pub storage_key: u64,
    pub filters: Vec<Expr>,
    pub filters_bytecodes: Vec<(Vec<Bytecode>, SourceSpan)>,
    pub span: SourceSpan,
}

/// A scan of a stored relation.
#[derive(Debug)]
pub struct StoredRA {
    pub bindings: Vec<Symbol>,
    pub storage: RelationHandle,
    pub filters: Vec<Expr>,
    pub filters_bytecodes: Vec<(Vec<Bytecode>, SourceSpan)>,
    pub span: SourceSpan,
}

/// A scan of a stored relation as it was at a point in time.
#[derive(Debug)]
pub struct StoredWithValidityRA {
    pub bindings: Vec<Symbol>,
    pub storage: RelationHandle,
    pub filters: Vec<Expr>,
    pub filters_bytecodes: Vec<(Vec<Bytecode>, SourceSpan)>,
    pub valid_at: ValidityTs,
    pub span: SourceSpan,
}

/// The pairs of columns that a join equates: `left_keys[i]` with
/// `right_keys[i]`.
#[derive(Debug)]
pub struct Joiner {
    pub left_keys: Vec<Symbol>,
    pub right_keys: Vec<Symbol>,
}

/// An equi-join.
#[derive(Debug)]
pub struct InnerJoin {
    pub left: RelAlgebra,
    pub right: RelAlgebra,
    pub joiner: Joiner,
    pub to_eliminate: SymbolSet,
    pub span: SourceSpan,
}

/// An anti-join.
#[derive(Debug)]
pub struct NegJoin {
    pub left: RelAlgebra,
    pub right: RelAlgebra,
    pub joiner: Joiner,
    pub to_eliminate: SymbolSet,
    pub span: SourceSpan,
}

/// A selection and permutation of columns by name.
#[derive(Debug)]
pub struct ReorderRA {
    pub relation: Box<RelAlgebra>,
    pub new_order: Vec<Symbol>,
}

/// A conjunction of predicates over the rows of its input.
#[derive(Debug)]
pub struct FilteredRA {
    pub parent: Box<RelAlgebra>,
    pub filters: Vec<Expr>,
    pub filters_bytecodes: Vec<(Vec<Bytecode>, SourceSpan)>,
    pub to_eliminate: SymbolSet,
    pub span: SourceSpan,
}

/// An extension of each row by the value of an expression.
#[derive(Debug)]
pub struct UnificationRA {
    pub parent: Box<RelAlgebra>,
    pub binding: Symbol,
    pub expr: Expr,
    pub expr_bytecode: Vec<Bytecode>,
    pub is_multi: bool,
    pub to_eliminate: SymbolSet,
    pub span: SourceSpan,
}

/// A tree of operators.
#[derive(Debug)]
pub enum RelAlgebra {
    Fixed(InlineFixedRA),
    TempStore(TempStoreRA),
    Stored(StoredRA),
    StoredWithValidity(StoredWithValidityRA),
    Join(Box<InnerJoin>),
    NegJoin(Box<NegJoin>),
    Reorder(ReorderRA),
    Filter(FilteredRA),
    Unification(UnificationRA),
}

/// The model of a list of compiled predicates.
pub open spec fn codes_model(v: Seq<(Vec<Bytecode>, SourceSpan)>) -> Codes {
    Seq::new(v.len(), |i: int| (v[i].0.deep_view(), v[i].1))
}

impl RelationHandle {
    /// What a plan knows of the relation.
    pub open spec fn model(&self) -> Storage {
        Storage { id: self.id, key_len: self.key_len(), val_len: self.val_len() }
    }
}

impl InlineFixedRA {
    pub open spec fn model(&self) -> Plan {
        Plan::Fixed {
            bindings: self.bindings.deep_view(),
            data: self.data.deep_view(),
            to_eliminate: self.to_eliminate@,
            span: self.span,
        }
    }
}

impl TempStoreRA {
    pub open spec fn model(&self) -> Plan {
        Plan::TempStore {
            bindings: self.bindings.deep_view(),
            storage_key: self.storage_key,
            filters: self.filters.deep_view(),
            codes: codes_model(self.filters_bytecodes@),
            span: self.span,
        }
    }
}

impl StoredRA {
    pub open spec fn model(&self) -> Plan {
        Plan::Stored {
            bindings: self.bindings.deep_view(),
            storage: self.storage.model(),
            filters: self.filters.deep_view(),
            codes: codes_model(self.filters_bytecodes@),
            span: self.span,
        }
    }
}

impl StoredWithValidityRA {
    pub open spec fn model(&self) -> Plan {
        Plan::StoredWithValidity {
            bindings: self.bindings.deep_view(),
            storage: self.storage.model(),
            filters: self.filters.deep_view(),
            codes: codes_model(self.filters_bytecodes@),
            valid_at: self.valid_at.0 as int,
            span: self.span,
        }
    }
}

impl InnerJoin {
    pub open spec fn model(&self) -> Plan
        decreases self,
    {
        Plan::Join {
            left: Box::new(self.left.model()),
            right: Box::new(self.right.model()),
            left_keys: self.joiner.left_keys.deep_view(),
            right_keys: self.joiner.right_keys.deep_view(),
            to_eliminate: self.to_eliminate@,
            span: self.span,
        }
    }
}

impl NegJoin {
    pub open spec fn model(&self) -> Plan
        decreases self,
    {
        Plan::NegJoin {
            left: Box::new(self.left.model()),
            right: Box::new(self.right.model()),
            left_keys: self.joiner.left_keys.deep_view(),
            right_keys: self.joiner.right_keys.deep_view(),
            to_eliminate: self.to_eliminate@,
            span: self.span,
        }
    }
}

impl ReorderRA {
    pub open spec fn model(&self) -> Plan
        decreases self,
    {
        Plan::Reorder {
            relation: Box::new(self.relation.model()),
            new_order: self.new_order.deep_view(),
        }
    }
}

impl FilteredRA {
    pub open spec fn model(&self) -> Plan
        decreases self,
    {
        Plan::Filter {
            parent: Box::new(self.parent.model()),
            filters: self.filters.deep_view(),
            codes: codes_model(self.filters_bytecodes@),
            to_eliminate: self.to_eliminate@,
            span: self.span,
        }
    }
}

impl UnificationRA {
    pub open spec fn model(&self) -> Plan
        decreases self,
    {
        Plan::Unification {
            parent: Box::new(self.parent.model()),
            binding: self.binding.deep_view(),
            expr: self.expr.deep_view(),
            code: self.expr_bytecode.deep_view(),
            is_multi: self.is_multi,
            to_eliminate: self.to_eliminate@,
            span: self.span,
        }
    }
}

impl RelAlgebra {
    /// The plan that this tree stands for.
    pub open spec fn model(&self) -> Plan
        decreases self,
    {
        match self {
            RelAlgebra::Fixed(r) => r.model(),
            RelAlgebra::TempStore(r) => r.model(),
            RelAlgebra::Stored(r) => r.model(),
            RelAlgebra::StoredWithValidity(r) => r.model(),
            RelAlgebra::Join(r) => r.model(),
            RelAlgebra::NegJoin(r) => r.model(),
            RelAlgebra::Reorder(r) => r.model(),
            RelAlgebra::Filter(r) => r.model(),
            RelAlgebra::Unification(r) => r.model(),
        }
    }
}

impl View for RelAlgebra {
    type V = Plan;

    open spec fn view(&self) -> Plan {
        self.model()
    }
}

/// The names of `bindings` that are not in `gone`, in their order.
pub fn retain_symbols(bindings: Vec<Symbol>, gone: &SymbolSet) -> (r: Vec<Symbol>)
    ensures
        r.deep_view() == retain(bindings.deep_view(), gone@),
{
    let mut out: Vec<Symbol> = Vec::new();
    let mut i: usize = 0;
    let ghost names = bindings.deep_view();
    assert(names.take(0) =~= Seq::<Name>::empty());
    assert(out.deep_view() =~= Seq::<Name>::empty());
    while i < bindings.len()
        invariant
            0 <= i <= bindings@.len(),
            names == bindings.deep_view(),
            out.deep_view() == retain(names.take(i as int), gone@),
        decreases bindings@.len() - i,
    {
        proof {
            assert(names.take(i as int + 1).drop_last() =~= names.take(i as int));
            assert(names.take(i as int + 1).last() == bindings@[i as int].deep_view());
        }
        if !gone.contains(&bindings[i]) {
            let ghost before = out.deep_view();
            let s = bindings[i].clone();
            out.push(s);
            assert(out.deep_view() =~= before.push(s.deep_view()));
        }
        i = i + 1;
    }
    assert(names.take(i as int) =~= names);
    out
}

impl InlineFixedRA {
    /// The relation of one row without columns.
    pub fn unit(span: SourceSpan) -> (r: InlineFixedRA)
        ensures
            r.model() == (Plan::Fixed {
                bindings: Seq::empty(),
                data: seq![Seq::empty()],
                to_eliminate: Set::empty(),
                span,
            }),
    {
        let mut data: Vec<Vec<DataValue>> = Vec::new();
        let row: Vec<DataValue> = Vec::new();
        assert(row.deep_view() =~= Seq::<crate::value::Value>::empty());
        data.push(row);
        let r = InlineFixedRA { bindings: Vec::new(), data, to_eliminate: SymbolSet::new(), span };
        assert(r.bindings.deep_view() =~= Seq::<Name>::empty());
        assert(r.data.deep_view() =~= seq![Seq::<crate::value::Value>::empty()]);
        r
    }
}

impl ReorderRA {
    /// The bindings of the rows that the operator yields.
    pub fn bindings(&self) -> (r: Vec<Symbol>)
        ensures
            r.deep_view() == self.new_order.deep_view(),
    {
        clone_symbols(&self.new_order)
    }
}

impl InnerJoin {
    /// The bindings of the left side followed by those of the right side.
    pub fn bindings(&self) -> (r: Vec<Symbol>)
        ensures
            r.deep_view() == self.model().bindings_before(),
        decreases self, 0int,
    {
        let mut ret = self.left.bindings_after_eliminate();
        let right = self.right.bindings_after_eliminate();
        let ghost l = ret.deep_view();
        let mut i: usize = 0;
        assert(ret.deep_view() =~= l + right.deep_view().take(0));
        while i < right.len()
            invariant
                0 <= i <= right@.len(),
                ret.deep_view() == l + right.deep_view().take(i as int),
            decreases right@.len() - i,
        {
            let ghost before = ret.deep_view();
            let s = right[i].clone();
            ret.push(s);
            proof {
                assert(ret.deep_view() =~= before.push(s.deep_view()));
                assert(right.deep_view().take(i as int + 1) =~= right.deep_view().take(
                    i as int,
                ).push(right@[i as int].deep_view()));
                assert(ret.deep_view() =~= l + right.deep_view().take(i as int + 1));
            }
            i = i + 1;
        }
        assert(right.deep_view().take(i as int) =~= right.deep_view());
        ret
    }
}

impl RelAlgebra {
    /// Where the operator was written.
    pub fn span(&self) -> (r: SourceSpan)
        ensures
            r == self@.span(),
        decreases self,
    {
        match self {
            RelAlgebra::Fixed(i) => i.span,
            RelAlgebra::TempStore(i) => i.span,
            RelAlgebra::Stored(i) => i.span,
            RelAlgebra::Join(i) => i.span,
            RelAlgebra::NegJoin(i) => i.span,
            RelAlgebra::Reorder(i) => i.relation.span(),
            RelAlgebra::Filter(i) => i.span,
            RelAlgebra::Unification(i) => i.span,
            RelAlgebra::StoredWithValidity(i) => i.span,
        }
    }

    /// The relation of one row without columns.
    pub fn unit(span: SourceSpan) -> (r: RelAlgebra)
        ensures
            r@ == (Plan::Fixed {
                bindings: Seq::empty(),
                data: seq![Seq::empty()],
                to_eliminate: Set::empty(),
                span,
            }),
            r@.is_unit(),
    {
        RelAlgebra::Fixed(InlineFixedRA::unit(span))
    }

    /// Whether this is the relation of one row without columns.
    pub fn is_unit(&self) -> (r: bool)
        ensures
            r == self@.is_unit(),
    {
        if let RelAlgebra::Fixed(r) = self {
            r.bindings.len() == 0 && r.data.len() == 1
        } else {
            false
        }
    }

    /// A scan of the epoch store `storage_key`.
    pub fn derived(bindings: Vec<Symbol>, storage_key: u64, span: SourceSpan) -> (r: RelAlgebra)
        ensures
            r@ == (Plan::TempStore {
                bindings: bindings.deep_view(),
                storage_key,
                filters: Seq::empty(),
                codes: Seq::empty(),
                span,
            }),
    {
        let r = TempStoreRA {
            bindings,
            storage_key,
            filters: Vec::new(),
            filters_bytecodes: Vec::new(),
            span,
        };
        assert(r.filters.deep_view() =~= Seq::<Term>::empty());
        assert(codes_model(r.filters_bytecodes@) =~= Seq::<(Code, SourceSpan)>::empty());
        RelAlgebra::TempStore(r)
    }

    /// A scan of a stored relation, as it is now or as it was at
    /// `validity`. A scan in time needs a relation whose last key column
    /// is a validity that cannot be null.
    pub fn relation(
        bindings: Vec<Symbol>,
        storage: RelationHandle,
        span: SourceSpan,
        validity: Option<ValidityTs>,
    ) -> (r: Result<RelAlgebra, EvalError>)
        ensures
            match validity {
                None => r matches Ok(ra) && ra@ == (Plan::Stored {
                    bindings: bindings.deep_view(),
                    storage: storage.model(),
                    filters: Seq::empty(),
                    codes: Seq::empty(),
                    span,
                }),
                Some(vld) => if storage.has_validity() {
                    r matches Ok(ra) && ra@ == (Plan::StoredWithValidity {
                        bindings: bindings.deep_view(),
                        storage: storage.model(),
                        filters: Seq::empty(),
                        codes: Seq::empty(),
                        valid_at: vld.0 as int,
                        span,
                    })
                } else {
                    r matches Err(e) && e == EvalError::InvalidTimeTravelScanning(span)
                },
            },
    {
        match validity {
            None => {
                let r = StoredRA {
                    bindings,
                    storage,
                    filters: Vec::new(),
                    filters_bytecodes: Vec::new(),
                    span,
                };
                assert(r.filters.deep_view() =~= Seq::<Term>::empty());
                assert(codes_model(r.filters_bytecodes@) =~= Seq::<(Code, SourceSpan)>::empty());
                Ok(RelAlgebra::Stored(r))
            },
            Some(vld) => {
                if !storage.last_key_is_validity() {
                    return Err(EvalError::InvalidTimeTravelScanning(span));
                }
                let r = StoredWithValidityRA {
                    bindings,
                    storage,
                    filters: Vec::new(),
                    filters_bytecodes: Vec::new(),
                    valid_at: vld,
                    span,
                };
                assert(r.filters.deep_view() =~= Seq::<Term>::empty());
                assert(codes_model(r.filters_bytecodes@) =~= Seq::<(Code, SourceSpan)>::empty());
                Ok(RelAlgebra::StoredWithValidity(r))
            },
        }
    }

    /// The columns `new_order` of this relation.
    pub fn reorder(self, new_order: Vec<Symbol>) -> (r: RelAlgebra)
        ensures
            r@ == (Plan::Reorder { relation: Box::new(self@), new_order: new_order.deep_view() }),
    {
        RelAlgebra::Reorder(ReorderRA { relation: Box::new(self), new_order })
    }

    /// This relation with each row extended by the value of `expr` under
    /// the name `binding`, or by each element of that value in turn where
    /// `is_multi` is set.
    pub fn unify(self, binding: Symbol, expr: Expr, is_multi: bool, span: SourceSpan) -> (r:
        RelAlgebra)
        ensures
            r@ == (Plan::Unification {
                parent: Box::new(self@),
                binding: binding.deep_view(),
                expr: expr.deep_view(),
                code: Seq::empty(),
                is_multi,
                to_eliminate: Set::empty(),
                span,
            }),
    {
        let u = UnificationRA {
            parent: Box::new(self),
            binding,
            expr,
            expr_bytecode: Vec::new(),
            is_multi,
            to_eliminate: SymbolSet::new(),
            span,
        };
        assert(u.expr_bytecode.deep_view() =~= Seq::<crate::bytecode::Instr>::empty());
        RelAlgebra::Unification(u)
    }

    /// The join of this relation with `right` on the given pairs of keys.
    pub fn join(
        self,
        right: RelAlgebra,
        left_keys: Vec<Symbol>,
        right_keys: Vec<Symbol>,
        span: SourceSpan,
    ) -> (r: RelAlgebra)
        ensures
            r@ == (Plan::Join {
                left: Box::new(self@),
                right: Box::new(right@),
                left_keys: left_keys.deep_view(),
                right_keys: right_keys.deep_view(),
                to_eliminate: Set::empty(),
                span,
            }),
    {
        RelAlgebra::Join(
            Box::new(
                InnerJoin {
                    left: self,
                    right,
                    joiner: Joiner { left_keys, right_keys },
                    to_eliminate: SymbolSet::new(),
                    span,
                },
            ),
        )
    }

    /// The product of this relation with `right`.
    pub fn cartesian_join(self, right: RelAlgebra, span: SourceSpan) -> (r: RelAlgebra)
        ensures
            r@ == (Plan::Join {
                left: Box::new(self@),
                right: Box::new(right@),
                left_keys: Seq::empty(),
                right_keys: Seq::empty(),
                to_eliminate: Set::empty(),
                span,
            }),
    {
        let l: Vec<Symbol> = Vec::new();
        let r: Vec<Symbol> = Vec::new();
        assert(l.deep_view() =~= Seq::<Name>::empty());
        assert(r.deep_view() =~= Seq::<Name>::empty());
        self.join(right, l, r, span)
    }

    /// The rows of this relation that have no partner in `right` on the
    /// given pairs of keys.
    pub fn neg_join(
        self,
        right: RelAlgebra,
        left_keys: Vec<Symbol>,
        right_keys: Vec<Symbol>,
        span: SourceSpan,
    ) -> (r: RelAlgebra)
        ensures
            r@ == (Plan::NegJoin {
                left: Box::new(self@),
                right: Box::new(right@),
                left_keys: left_keys.deep_view(),
                right_keys: right_keys.deep_view(),
                to_eliminate: Set::empty(),
                span,
            }),
    {
        RelAlgebra::NegJoin(
            Box::new(
                NegJoin {
                    left: self,
                    right,
                    joiner: Joiner { left_keys, right_keys },
                    to_eliminate: SymbolSet::new(),
                    span,
                },
            ),
        )
    }

    /// The set of bindings that the operator drops, where it has one.
    pub fn eliminate_set(&self) -> (r: Option<&SymbolSet>)
        ensures
            match r {
                Some(s) => self@.eliminate_set() == Some(s@),
                None => self@.eliminate_set() is None,
            },
    {
        match self {
            RelAlgebra::Fixed(r) => Some(&r.to_eliminate),
            RelAlgebra::TempStore(_) => None,
            RelAlgebra::Stored(_) => None,
            RelAlgebra::StoredWithValidity(_) => None,
            RelAlgebra::Join(r) => Some(&r.to_eliminate),
            RelAlgebra::Reorder(_) => None,
            RelAlgebra::Filter(r) => Some(&r.to_eliminate),
            RelAlgebra::NegJoin(r) => Some(&r.to_eliminate),
            RelAlgebra::Unification(u) => Some(&u.to_eliminate),
        }
    }

    /// The bindings of the rows that the operator yields.
    pub fn bindings_after_eliminate(&self) -> (r: Vec<Symbol>)
        ensures
            r.deep_view() == self@.bindings_after(),
        decreases self, 2int,
    {
        let ret = self.bindings_before_eliminate();
        if let Some(to_eliminate) = self.eliminate_set() {
            retain_symbols(ret, to_eliminate)
        } else {
            ret
        }
    }

    /// The bindings that the operator has before it drops any.
    pub fn bindings_before_eliminate(&self) -> (r: Vec<Symbol>)
        ensures
            r.deep_view() == self@.bindings_before(),
        decreases self, 1int,
    {
        match self {
            RelAlgebra::Fixed(f) => clone_symbols(&f.bindings),
            RelAlgebra::TempStore(d) => clone_symbols(&d.bindings),
            RelAlgebra::Stored(v) => clone_symbols(&v.bindings),
            RelAlgebra::StoredWithValidity(v) => clone_symbols(&v.bindings),
            RelAlgebra::Join(j) => j.bindings(),
            RelAlgebra::Reorder(r) => r.bindings(),
            RelAlgebra::Filter(r) => r.parent.bindings_after_eliminate(),
            RelAlgebra::NegJoin(j) => j.left.bindings_after_eliminate(),
            RelAlgebra::Unification(u) => {
                let mut bindings = u.parent.bindings_after_eliminate();
                let ghost before = bindings.deep_view();
                let s = u.binding.clone();
                bindings.push(s);
                assert(bindings.deep_view() =~= before.push(s.deep_view()));
                bindings
            },
        }
    }
}

impl RelationHandle {
    /// Whether the last key column is a validity that cannot be null.
    pub open spec fn has_validity(&self) -> bool {
        self.metadata.keys@.len() > 0 && self.metadata.keys@.last().typing == (NullableColType {
            coltype: ColType::Validity,
            nullable: false,
        })
    }

    /// Whether the last key column is a validity that cannot be null.
    pub fn last_key_is_validity(&self) -> (r: bool)
        ensures
            r == self.has_validity(),
    {
        let n = self.metadata.keys.len();
        if n == 0 {
            return false;
        }
        let t = self.metadata.keys[n - 1].typing;
        t.coltype == ColType::Validity && !t.nullable
    }
}

} // verus!
