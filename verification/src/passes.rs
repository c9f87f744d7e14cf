//! The planning passes over an operator tree: elimination of the bindings
//! that no consumer needs, and resolution and compilation of expressions.

use vstd::prelude::*;

use crate::bytecode::Bytecode;
use crate::error::EvalError;
use crate::expr::{
    args_first_unbound, collect_all_bindings, fill_all_binding_indices, lemma_exprs_view, Expr,
};
use crate::plan::{compile_all, Plan};
use crate::ra::{
    codes_model, FilteredRA, InlineFixedRA, InnerJoin, NegJoin, RelAlgebra, StoredRA,
    StoredWithValidityRA, TempStoreRA, UnificationRA,
};
use crate::symbol::{clone_symbols, lemma_to_set_push, Name, SourceSpan, Symbol, SymbolSet};

verus! {

broadcast use vstd::std_specs::vec::group_vec_axioms;

/// Adds to `target` the names of `bindings` that are not in `used`.
pub fn add_unused(target: &mut SymbolSet, bindings: &Vec<Symbol>, used: &SymbolSet)
    ensures
        final(target)@ == old(target)@.union(bindings.deep_view().to_set().difference(used@)),
{
    let ghost names = bindings.deep_view();
    let mut i: usize = 0;
    assert(names.take(0).to_set() =~= Set::<Name>::empty());
    assert(target@ =~= old(target)@.union(names.take(0).to_set().difference(used@)));
    while i < bindings.len()
        invariant
            0 <= i <= bindings@.len(),
            names == bindings.deep_view(),
            target@ == old(target)@.union(names.take(i as int).to_set().difference(used@)),
        decreases bindings@.len() - i,
    {
        proof {
            assert(names.take(i as int + 1) =~= names.take(i as int).push(names[i as int]));
            lemma_to_set_push(names.take(i as int), names[i as int]);
        }
        if !used.contains(&bindings[i]) {
            target.insert(bindings[i].clone());
        }
        assert(target@ =~= old(target)@.union(
            names.take(i as int + 1).to_set().difference(used@),
        ));
        i = i + 1;
    }
    assert(names.take(i as int) =~= names);
}

/// Resolves the filters against `bindings` and stores their compiled forms
/// in `codes`, in place of what it held.
pub fn compile_filters(
    filters: &mut Vec<Expr>,
    bindings: &Vec<Symbol>,
    codes: &mut Vec<(Vec<Bytecode>, SourceSpan)>,
) -> (r: Result<(), EvalError>)
    ensures
        final(filters).deep_view() == crate::expr::all_resolved(
            old(filters).deep_view(),
            bindings.deep_view(),
        ),
        codes_model(final(codes)@) == compile_all(final(filters).deep_view()),
        match args_first_unbound(
            old(filters).deep_view(),
            bindings.deep_view(),
            old(filters)@.len() as int,
        ) {
            Some(s) => r == Err::<(), EvalError>(EvalError::UnboundVariable(s)),
            None => r is Ok,
        },
{
    let r = fill_all_binding_indices(filters, bindings);
    codes.clear();
    let mut i: usize = 0;
    while i < filters.len()
        invariant
            0 <= i <= filters@.len(),
            codes@.len() == i,
            forall|j: int|
                0 <= j < i ==> (#[trigger] codes@[j]).0.deep_view() == crate::bytecode::compile(
                    filters@[j].deep_view(),
                ) && codes@[j].1 == filters@[j].deep_view().span(),
        decreases filters@.len() - i,
    {
        let code = filters[i].compile();
        let span = filters[i].span();
        codes.push((code, span));
        i = i + 1;
    }
    proof {
        lemma_exprs_view(filters);
        assert(codes_model(codes@) =~= compile_all(filters.deep_view()));
    }
    r
}

impl InlineFixedRA {
    /// Drops the bindings that are not in `used`.
    pub fn do_eliminate_temp_vars(&mut self, used: &SymbolSet) -> (r: Result<(), EvalError>)
        ensures
            r is Ok,
            final(self).model() == old(self).model().eliminated(used@),
    {
        let bindings = clone_symbols(&self.bindings);
        add_unused(&mut self.to_eliminate, &bindings, used);
        Ok(())
    }
}

impl UnificationRA {
    /// Drops the bindings that are not in `used`, and has the input keep
    /// what the expression mentions.
    pub fn do_eliminate_temp_vars(&mut self, used: &SymbolSet) -> (r: Result<(), EvalError>)
        ensures
            r is Ok,
            final(self).model() == old(self).model().eliminated(used@),
        decreases *old(self), 0int,
    {
        let bindings = self.parent.bindings_before_eliminate();
        add_unused(&mut self.to_eliminate, &bindings, used);
        let mut nxt = used.duplicate();
        self.expr.collect_bindings(&mut nxt);
        self.parent.eliminate_temp_vars(&nxt)
    }

    /// Resolves the expression against the bindings of the input and
    /// compiles it.
    pub fn fill_binding_indices_and_compile(&mut self) -> (r: Result<(), EvalError>)
        ensures
            final(self).parent == old(self).parent,
            final(self).binding == old(self).binding,
            final(self).is_multi == old(self).is_multi,
            final(self).to_eliminate == old(self).to_eliminate,
            final(self).span == old(self).span,
            final(self).expr.deep_view() == crate::expr::resolved(
                old(self).expr.deep_view(),
                old(self).parent@.bindings_after(),
            ),
            final(self).expr_bytecode.deep_view() == crate::bytecode::compile(
                final(self).expr.deep_view(),
            ),
            match crate::expr::first_unbound(
                old(self).expr.deep_view(),
                old(self).parent@.bindings_after(),
            ) {
                Some(s) => r == Err::<(), EvalError>(EvalError::UnboundVariable(s)),
                None => r is Ok,
            },
    {
        let parent_bindings = self.parent.bindings_after_eliminate();
        let r = self.expr.fill_binding_indices(&parent_bindings);
        self.expr_bytecode = self.expr.compile();
        r
    }
}

impl FilteredRA {
    /// Drops the bindings that are not in `used`, and has the input keep
    /// what the filters mention.
    pub fn do_eliminate_temp_vars(&mut self, used: &SymbolSet) -> (r: Result<(), EvalError>)
        ensures
            r is Ok,
            final(self).model() == old(self).model().eliminated(used@),
        decreases *old(self), 0int,
    {
        let bindings = self.parent.bindings_before_eliminate();
        add_unused(&mut self.to_eliminate, &bindings, used);
        let mut nxt = used.duplicate();
        collect_all_bindings(&self.filters, &mut nxt);
        self.parent.eliminate_temp_vars(&nxt)
    }

    /// Resolves the filters against the bindings of the input and compiles
    /// them.
    pub fn fill_binding_indices_and_compile(&mut self) -> (r: Result<(), EvalError>)
        ensures
            final(self).parent == old(self).parent,
            final(self).to_eliminate == old(self).to_eliminate,
            final(self).span == old(self).span,
            final(self).filters.deep_view() == crate::expr::all_resolved(
                old(self).filters.deep_view(),
                old(self).parent@.bindings_after(),
            ),
            codes_model(final(self).filters_bytecodes@) == compile_all(
                final(self).filters.deep_view(),
            ),
            match args_first_unbound(
                old(self).filters.deep_view(),
                old(self).parent@.bindings_after(),
                old(self).filters@.len() as int,
            ) {
                Some(s) => r == Err::<(), EvalError>(EvalError::UnboundVariable(s)),
                None => r is Ok,
            },
    {
        let parent_bindings = self.parent.bindings_after_eliminate();
        compile_filters(&mut self.filters, &parent_bindings, &mut self.filters_bytecodes)
    }
}

impl TempStoreRA {
    /// Resolves the filters against the bindings of the store and compiles
    /// them.
    pub fn fill_binding_indices_and_compile(&mut self) -> (r: Result<(), EvalError>)
        ensures
            final(self).model() == old(self).model().filled(),
            match old(self).model().first_unresolved() {
                Some(s) => r == Err::<(), EvalError>(EvalError::UnboundVariable(s)),
                None => r is Ok,
            },
    {
        let bindings = clone_symbols(&self.bindings);
        compile_filters(&mut self.filters, &bindings, &mut self.filters_bytecodes)
    }
}

impl StoredRA {
    /// Resolves the filters against the bindings of the relation and
    /// compiles them.
    pub fn fill_binding_indices_and_compile(&mut self) -> (r: Result<(), EvalError>)
        ensures
            final(self).model() == old(self).model().filled(),
            match old(self).model().first_unresolved() {
                Some(s) => r == Err::<(), EvalError>(EvalError::UnboundVariable(s)),
                None => r is Ok,
            },
    {
        let bindings = clone_symbols(&self.bindings);
        compile_filters(&mut self.filters, &bindings, &mut self.filters_bytecodes)
    }
}

impl StoredWithValidityRA {
    /// Resolves the filters against the bindings of the relation and
    /// compiles them.
    pub fn fill_binding_indices_and_compile(&mut self) -> (r: Result<(), EvalError>)
        ensures
            final(self).model() == old(self).model().filled(),
            match old(self).model().first_unresolved() {
                Some(s) => r == Err::<(), EvalError>(EvalError::UnboundVariable(s)),
                None => r is Ok,
            },
    {
        let bindings = clone_symbols(&self.bindings);
        compile_filters(&mut self.filters, &bindings, &mut self.filters_bytecodes)
    }
}

impl NegJoin {
    /// Drops the bindings that are not in `used`, and has the left side
    /// keep the left keys. The right side only decides which rows pass, so
    /// nothing is eliminated there.
    pub fn do_eliminate_temp_vars(&mut self, used: &SymbolSet) -> (r: Result<(), EvalError>)
        ensures
            r is Ok,
            final(self).model() == old(self).model().eliminated(used@),
        decreases *old(self), 0int,
    {
        let bindings = self.left.bindings_after_eliminate();
        add_unused(&mut self.to_eliminate, &bindings, used);
        let mut left = used.duplicate();
        left.extend(&self.joiner.left_keys);
        self.left.eliminate_temp_vars(&left)
    }
}

impl InnerJoin {
    /// Drops the bindings that are not in `used`, and has either side keep
    /// its keys; the left side also keeps what the filters of an in-memory
    /// store on the right mention.
    pub fn do_eliminate_temp_vars(&mut self, used: &SymbolSet) -> (r: Result<(), EvalError>)
        ensures
            r is Ok,
            final(self).model() == old(self).model().eliminated(used@),
        decreases *old(self), 0int,
    {
        let bindings = self.bindings();
        add_unused(&mut self.to_eliminate, &bindings, used);
        let mut left = used.duplicate();
        left.extend(&self.joiner.left_keys);
        match &self.right {
            RelAlgebra::TempStore(r) => {
                collect_all_bindings(&r.filters, &mut left);
            },
            _ => {},
        }
        assert(left@ =~= used@.union(
            Plan::join_left_needs(old(self).right@, old(self).joiner.left_keys.deep_view()),
        ));
        let _ = self.left.eliminate_temp_vars(&left);
        let mut right = used.duplicate();
        right.extend(&self.joiner.right_keys);
        self.right.eliminate_temp_vars(&right)
    }
}

/// The first of two outcomes that failed, if any.
fn first_failure(a: Result<(), EvalError>, b: Result<(), EvalError>) -> (r: Result<(), EvalError>)
    ensures
        r == (if a is Err {
            a
        } else {
            b
        }),
{
    match a {
        Err(e) => Err(e),
        Ok(_) => b,
    }
}

impl RelAlgebra {
    /// The elimination pass for a consumer that needs the bindings `used`.
    pub fn eliminate_temp_vars(&mut self, used: &SymbolSet) -> (r: Result<(), EvalError>)
        ensures
            r is Ok,
            final(self)@ == old(self)@.eliminated(used@),
        decreases *old(self), 1int,
    {
        match self {
            RelAlgebra::Fixed(r) => r.do_eliminate_temp_vars(used),
            RelAlgebra::TempStore(_r) => Ok(()),
            RelAlgebra::Stored(_v) => Ok(()),
            RelAlgebra::StoredWithValidity(_v) => Ok(()),
            RelAlgebra::Join(r) => r.do_eliminate_temp_vars(used),
            RelAlgebra::Reorder(r) => r.relation.eliminate_temp_vars(used),
            RelAlgebra::Filter(r) => r.do_eliminate_temp_vars(used),
            RelAlgebra::NegJoin(r) => r.do_eliminate_temp_vars(used),
            RelAlgebra::Unification(r) => r.do_eliminate_temp_vars(used),
        }
    }

    /// Resolves every expression of the tree against the bindings of the
    /// rows that it is evaluated on, and compiles it. Fails with the first
    /// binding that cannot be resolved; the rest of the tree is resolved
    /// and compiled all the same.
    pub fn fill_binding_indices_and_compile(&mut self) -> (r: Result<(), EvalError>)
        ensures
            final(self)@ == old(self)@.filled(),
            match old(self)@.first_unresolved() {
                Some(s) => r == Err::<(), EvalError>(EvalError::UnboundVariable(s)),
                None => r is Ok,
            },
        decreases *old(self),
    {
        match self {
            RelAlgebra::Fixed(_) => Ok(()),
            RelAlgebra::TempStore(d) => d.fill_binding_indices_and_compile(),
            RelAlgebra::Stored(v) => v.fill_binding_indices_and_compile(),
            RelAlgebra::StoredWithValidity(v) => v.fill_binding_indices_and_compile(),
            RelAlgebra::Reorder(r) => r.relation.fill_binding_indices_and_compile(),
            RelAlgebra::Filter(f) => {
                let a = f.parent.fill_binding_indices_and_compile();
                proof {
                    lemma_filled_bindings(*old(self)@->Filter_parent);
                }
                let b = f.fill_binding_indices_and_compile();
                first_failure(a, b)
            },
            RelAlgebra::NegJoin(r) => r.left.fill_binding_indices_and_compile(),
            RelAlgebra::Unification(u) => {
                let a = u.parent.fill_binding_indices_and_compile();
                proof {
                    lemma_filled_bindings(*old(self)@->Unification_parent);
                }
                let b = u.fill_binding_indices_and_compile();
                first_failure(a, b)
            },
            RelAlgebra::Join(r) => {
                let a = r.left.fill_binding_indices_and_compile();
                let b = r.right.fill_binding_indices_and_compile();
                first_failure(a, b)
            },
        }
    }
}

/// Resolution and compilation leave the bindings of a plan as they are.
pub proof fn lemma_filled_bindings(p: Plan)
    ensures
        p.filled().bindings_before() == p.bindings_before(),
        p.filled().bindings_after() == p.bindings_after(),
        p.filled().eliminate_set() == p.eliminate_set(),
    decreases p,
{
    match p {
        Plan::Join { left, right, .. } => {
            lemma_filled_bindings(*left);
            lemma_filled_bindings(*right);
        },
        Plan::NegJoin { left, .. } => {
            lemma_filled_bindings(*left);
        },
        Plan::Reorder { relation, .. } => {
            lemma_filled_bindings(*relation);
        },
        Plan::Filter { parent, .. } => {
            lemma_filled_bindings(*parent);
        },
        Plan::Unification { parent, .. } => {
            lemma_filled_bindings(*parent);
        },
        _ => {},
    }
}

} // verus!
