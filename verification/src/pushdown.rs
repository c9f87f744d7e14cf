//! Putting a filter on top of an operator tree.
//!
//! Filters fuse with filters, sink into scans, and are split over the two
//! sides of a join as far as the bindings of each side allow.

use vstd::prelude::*;

use crate::bytecode::Code;
use crate::expr::{lemma_exprs_view, Expr, Term};
use crate::plan::{distribute, lemma_distribute_depth, Distributed, Plan};
use crate::ra::{codes_model, FilteredRA, InnerJoin, RelAlgebra};
use crate::symbol::{SourceSpan, SymbolSet};

verus! {

broadcast use vstd::std_specs::vec::group_vec_axioms;

/// A list of expressions with one more.
fn push_filter(filters: &mut Vec<Expr>, filter: Expr)
    ensures
        final(filters).deep_view() == old(filters).deep_view().push(filter.deep_view()),
{
    let ghost before = filters.deep_view();
    filters.push(filter);
    assert(filters.deep_view() =~= before.push(filter.deep_view()));
}

/// A filter, not yet compiled and dropping nothing, above `parent`.
fn filter_above(parent: RelAlgebra, filters: Vec<Expr>, span: SourceSpan) -> (r: RelAlgebra)
    ensures
        r@ == (Plan::Filter {
            parent: Box::new(parent@),
            filters: filters.deep_view(),
            codes: Seq::empty(),
            to_eliminate: Set::empty(),
            span,
        }),
{
    let f = FilteredRA {
        parent: Box::new(parent),
        filters,
        filters_bytecodes: Vec::new(),
        to_eliminate: SymbolSet::new(),
        span,
    };
    assert(codes_model(f.filters_bytecodes@) =~= Seq::<(Code, SourceSpan)>::empty());
    RelAlgebra::Filter(f)
}

impl RelAlgebra {
    /// This relation with the filter `filter` on top of it.
    pub fn filter(self, filter: Expr) -> (r: RelAlgebra)
        ensures
            r@ == self@.with_filter(filter.deep_view()),
        decreases self@.join_depth(),
    {
        match self {
            RelAlgebra::Filter(mut f) => {
                push_filter(&mut f.filters, filter);
                RelAlgebra::Filter(f)
            },
            RelAlgebra::TempStore(mut t) => {
                push_filter(&mut t.filters, filter);
                RelAlgebra::TempStore(t)
            },
            RelAlgebra::Stored(mut t) => {
                push_filter(&mut t.filters, filter);
                RelAlgebra::Stored(t)
            },
            RelAlgebra::StoredWithValidity(mut t) => {
                push_filter(&mut t.filters, filter);
                RelAlgebra::StoredWithValidity(t)
            },
            RelAlgebra::Join(inner) => {
                let ghost whole = self@;
                let ghost bound = self@.join_depth();
                let filters = filter.to_conjunction();
                let left_bindings = SymbolSet::from_symbols(
                    &inner.left.bindings_before_eliminate(),
                );
                let right_bindings = SymbolSet::from_symbols(
                    &inner.right.bindings_before_eliminate(),
                );
                let InnerJoin { left, right, joiner, to_eliminate, span } = *inner;
                let ghost left0 = left@;
                let ghost right0 = right@;
                let ghost cs = filters.deep_view();
                let mut left = left;
                let mut right = right;
                let mut remaining: Vec<Expr> = Vec::new();
                let mut i: usize = 0;
                assert(remaining.deep_view() =~= Seq::<Term>::empty());
                while i < filters.len()
                    invariant
                        0 <= i <= filters@.len(),
                        cs == filters.deep_view(),
                        bound == self@.join_depth(),
                        left0.join_depth() < bound,
                        right0.join_depth() < bound,
                        (Distributed {
                            left: left@,
                            right: right@,
                            remaining: remaining.deep_view(),
                        }) == distribute(
                            left0,
                            right0,
                            left_bindings@,
                            right_bindings@,
                            cs,
                            i as int,
                            bound,
                        ),
                    decreases filters@.len() - i,
                {
                    proof {
                        lemma_exprs_view(&filters);
                        lemma_distribute_depth(
                            left0,
                            right0,
                            left_bindings@,
                            right_bindings@,
                            cs,
                            i as int,
                            bound,
                        );
                    }
                    let c = filters[i].clone();
                    let f_bindings = c.bindings();
                    if f_bindings.is_subset(&left_bindings) {
                        left = left.filter(c);
                    } else if f_bindings.is_subset(&right_bindings) {
                        right = right.filter(c);
                    } else {
                        push_filter(&mut remaining, c);
                    }
                    i = i + 1;
                }
                let joined = RelAlgebra::Join(
                    Box::new(InnerJoin { left, right, joiner, to_eliminate, span }),
                );
                if remaining.len() > 0 {
                    filter_above(joined, remaining, span)
                } else {
                    joined
                }
            },
            s => {
                let span = filter.span();
                let mut filters: Vec<Expr> = Vec::new();
                filters.push(filter);
                assert(filters.deep_view() =~= seq![filter.deep_view()]);
                filter_above(s, filters, span)
            },
        }
    }
}

} // verus!
