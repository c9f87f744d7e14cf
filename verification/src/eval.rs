//! Evaluation of an operator tree: the rows that it yields from the
//! sources it reads.

use std::collections::BTreeMap;
use std::collections::BTreeSet;
use vstd::pervasive::unreached;
use vstd::prelude::*;

use crate::error::EvalError;
use crate::join::{join_is_prefix, resolve_all};
use crate::join_scan::relation_rows;
use crate::materialize::materialized_join_rows;
use crate::ra::{
    codes_model, FilteredRA, InnerJoin, NegJoin, RelAlgebra, ReorderRA, StoredWithValidityRA,
    UnificationRA,
};
use crate::rows::rows_result;
use crate::scan::{filter_rows, reorder_rows, scan_iter, unify_rows};
use crate::semantics::{is_prefix, materialized, positions, scan_rows, visible};
use crate::store::{EpochStore, SessionTx};
use crate::tuple::{get_eliminate_indices, has_width, lemma_rows_view};
use crate::skip_scan::{scannable, skip_scan};
use crate::value::{Row, Tuple};
use crate::widths::{lemma_fits, lemma_rows_width};

verus! {

broadcast use {
    vstd::std_specs::btree::group_btree_axioms,
    vstd::laws_cmp::group_laws_cmp,
    vstd::std_specs::vec::group_vec_axioms,
};

impl StoredWithValidityRA {
    /// The rows of the relation that are visible at the time of the scan,
    /// filtered where the scan has filters.
    pub fn iter(&self, tx: &SessionTx) -> (r: Result<Vec<Tuple>, EvalError>)
        requires
            scannable(tx.rows_of(self.storage.id), self.storage.key_len()),
        ensures
            rows_result(r) == scan_rows(
                self.filters.deep_view(),
                codes_model(self.filters_bytecodes@),
                visible(
                    tx.rows_of(self.storage.id),
                    self.storage.key_len(),
                    self.valid_at.0 as int,
                ),
            ),
    {
        let all = relation_rows(tx, self.storage.id);
        let it = skip_scan(&all, self.storage.metadata.keys.len(), self.valid_at.0);
        proof {
            crate::expr::lemma_exprs_view(&self.filters);
        }
        scan_iter(self.filters.len() == 0, &self.filters_bytecodes, it)
    }
}

impl ReorderRA {
    /// The rows of the input with their columns in the new order.
    pub fn iter(
        &self,
        tx: &SessionTx,
        delta_rule: Option<u64>,
        stores: &BTreeMap<u64, EpochStore>,
    ) -> (r: Result<Vec<Tuple>, EvalError>)
        requires
            self.model().wf(tx, stores@),
        ensures
            rows_result(r) == self.model().rows(tx, delta_rule, stores@),
        decreases self, 0int,
    {
        let old_order = self.relation.bindings_after_eliminate();
        let reorder_indices = resolve_all(&old_order, &self.new_order);
        match self.relation.iter(tx, delta_rule, stores) {
            Ok(input) => {
                proof {
                    lemma_rows_width(self.relation@, tx, delta_rule, stores@);
                }
                Ok(reorder_rows(&reorder_indices, input, old_order.len()))
            },
            Err(e) => Err(e),
        }
    }
}

impl FilteredRA {
    /// The rows of the input that pass every filter, without the
    /// eliminated columns.
    pub fn iter(
        &self,
        tx: &SessionTx,
        delta_rule: Option<u64>,
        stores: &BTreeMap<u64, EpochStore>,
    ) -> (r: Result<Vec<Tuple>, EvalError>)
        requires
            self.model().wf(tx, stores@),
        ensures
            rows_result(r) == self.model().rows(tx, delta_rule, stores@),
        decreases self, 0int,
    {
        let bindings = self.parent.bindings_after_eliminate();
        let eliminate_indices = get_eliminate_indices(bindings.as_slice(), &self.to_eliminate);
        match self.parent.iter(tx, delta_rule, stores) {
            Ok(input) => filter_rows(&self.filters_bytecodes, input, &eliminate_indices),
            Err(e) => Err(e),
        }
    }
}

impl UnificationRA {
    /// The rows of the input, each extended by the value of the
    /// expression, without the eliminated columns.
    pub fn iter(
        &self,
        tx: &SessionTx,
        delta_rule: Option<u64>,
        stores: &BTreeMap<u64, EpochStore>,
    ) -> (r: Result<Vec<Tuple>, EvalError>)
        requires
            self.model().wf(tx, stores@),
        ensures
            rows_result(r) == self.model().rows(tx, delta_rule, stores@),
        decreases self, 0int,
    {
        let mut bindings = self.parent.bindings_after_eliminate();
        let ghost before = bindings.deep_view();
        let s = self.binding.clone();
        bindings.push(s);
        assert(bindings.deep_view() =~= before.push(s.deep_view()));
        let eliminate_indices = get_eliminate_indices(bindings.as_slice(), &self.to_eliminate);
        match self.parent.iter(tx, delta_rule, stores) {
            Ok(input) => unify_rows(
                &self.expr_bytecode,
                self.is_multi,
                self.span,
                input,
                &eliminate_indices,
            ),
            Err(e) => Err(e),
        }
    }
}

impl NegJoin {
    /// The name of the strategy of this anti-join.
    pub fn join_type(&self) -> (r: &'static str)
        requires
            self.right is TempStore || self.right is Stored,
            self.joiner.left_keys@.len() == self.joiner.right_keys@.len(),
            crate::semantics::all_resolve(
                self.left@.bindings_after(),
                self.joiner.left_keys.deep_view(),
            ),
            crate::semantics::all_resolve(
                self.right@.bindings_after(),
                self.joiner.right_keys.deep_view(),
            ),
        ensures
            r@ == (if self.right is TempStore {
                if is_prefix(
                    positions(self.right@.bindings_after(), self.joiner.right_keys.deep_view()),
                ) {
                    "mem_neg_prefix_join"@
                } else {
                    "mem_neg_mat_join"@
                }
            } else {
                if is_prefix(
                    positions(self.right@.bindings_after(), self.joiner.right_keys.deep_view()),
                ) {
                    "stored_neg_prefix_join"@
                } else {
                    "stored_neg_mat_join"@
                }
            }),
    {
        let join_indices = self.joiner.join_indices(
            &self.left.bindings_after_eliminate(),
            &self.right.bindings_after_eliminate(),
        ).unwrap();
        let prefix = join_is_prefix(join_indices.1.as_slice());
        match &self.right {
            RelAlgebra::TempStore(_) => {
                if prefix {
                    "mem_neg_prefix_join"
                } else {
                    "mem_neg_mat_join"
                }
            },
            _ => {
                if prefix {
                    "stored_neg_prefix_join"
                } else {
                    "stored_neg_mat_join"
                }
            },
        }
    }

    /// The rows of the left side that have no partner on the right side,
    /// without the eliminated columns.
    #[verifier::rlimit(80)]
    pub fn iter(
        &self,
        tx: &SessionTx,
        delta_rule: Option<u64>,
        stores: &BTreeMap<u64, EpochStore>,
    ) -> (r: Result<Vec<Tuple>, EvalError>)
        requires
            self.model().wf(tx, stores@),
        ensures
            rows_result(r) == self.model().rows(tx, delta_rule, stores@),
        decreases self, 0int,
    {
        let bindings = self.left.bindings_after_eliminate();
        let eliminate_indices = get_eliminate_indices(bindings.as_slice(), &self.to_eliminate);
        let right_bindings = self.right.bindings_after_eliminate();
        let join_indices = self.joiner.join_indices(&bindings, &right_bindings).unwrap();
        let left_rows = match self.left.iter(tx, delta_rule, stores) {
            Ok(rows) => rows,
            Err(e) => {
                return Err(e);
            },
        };
        proof {
            assert(self.left@.wf(tx, stores@));
            assert(self.right@.wf(tx, stores@));
            lemma_rows_width(self.left@, tx, delta_rule, stores@);
            lemma_fits(left_rows.deep_view(), join_indices.0@, self.left@.width());
            assert(has_width(self.right@.source_rows(tx, stores@), self.right@.width()));
            lemma_fits(
                self.right@.source_rows(tx, stores@),
                join_indices.1@,
                self.right@.width(),
            );
        }
        match &self.right {
            RelAlgebra::TempStore(r) => r.neg_join(
                left_rows,
                join_indices,
                eliminate_indices,
                stores,
            ),
            RelAlgebra::Stored(v) => v.neg_join(tx, left_rows, join_indices, eliminate_indices),
            _ => unreached(),
        }
    }
}

impl InnerJoin {
    /// The name of the strategy of this join.
    pub fn join_type(&self) -> (r: &'static str)
        requires
            !(self.right is Reorder),
            !(self.right is NegJoin),
            self.joiner.left_keys@.len() == self.joiner.right_keys@.len(),
            crate::semantics::all_resolve(
                self.left@.bindings_after(),
                self.joiner.left_keys.deep_view(),
            ),
            crate::semantics::all_resolve(
                self.right@.bindings_after(),
                self.joiner.right_keys.deep_view(),
            ),
        ensures
            r@ == (match self.right {
                RelAlgebra::Fixed(f) => if f.data@.len() == 0 {
                    "null_join"@
                } else if f.data@.len() == 1 {
                    "singleton_join"@
                } else {
                    "fixed_join"@
                },
                RelAlgebra::TempStore(_) => if is_prefix(
                    positions(self.right@.bindings_after(), self.joiner.right_keys.deep_view()),
                ) {
                    "mem_prefix_join"@
                } else {
                    "mem_mat_join"@
                },
                RelAlgebra::Stored(_) => if is_prefix(
                    positions(self.right@.bindings_after(), self.joiner.right_keys.deep_view()),
                ) {
                    "stored_prefix_join"@
                } else {
                    "stored_mat_join"@
                },
                RelAlgebra::StoredWithValidity(_) => if is_prefix(
                    positions(self.right@.bindings_after(), self.joiner.right_keys.deep_view()),
                ) {
                    "stored_prefix_join"@
                } else {
                    "stored_mat_join"@
                },
                _ => "generic_mat_join"@,
            }),
    {
        match &self.right {
            RelAlgebra::Fixed(f) => f.join_type(),
            RelAlgebra::TempStore(_) => {
                let join_indices = self.joiner.join_indices(
                    &self.left.bindings_after_eliminate(),
                    &self.right.bindings_after_eliminate(),
                ).unwrap();
                if join_is_prefix(join_indices.1.as_slice()) {
                    "mem_prefix_join"
                } else {
                    "mem_mat_join"
                }
            },
            RelAlgebra::Stored(_) => {
                let join_indices = self.joiner.join_indices(
                    &self.left.bindings_after_eliminate(),
                    &self.right.bindings_after_eliminate(),
                ).unwrap();
                if join_is_prefix(join_indices.1.as_slice()) {
                    "stored_prefix_join"
                } else {
                    "stored_mat_join"
                }
            },
            RelAlgebra::StoredWithValidity(_) => {
                let join_indices = self.joiner.join_indices(
                    &self.left.bindings_after_eliminate(),
                    &self.right.bindings_after_eliminate(),
                ).unwrap();
                if join_is_prefix(join_indices.1.as_slice()) {
                    "stored_prefix_join"
                } else {
                    "stored_mat_join"
                }
            },
            RelAlgebra::Join(_) | RelAlgebra::Filter(_) | RelAlgebra::Unification(_) => {
                "generic_mat_join"
            },
            _ => unreached(),
        }
    }

    /// The rows of the join, by the strategy that the right side calls
    /// for.
    #[verifier::rlimit(80)]
    pub fn iter(
        &self,
        tx: &SessionTx,
        delta_rule: Option<u64>,
        stores: &BTreeMap<u64, EpochStore>,
    ) -> (r: Result<Vec<Tuple>, EvalError>)
        requires
            self.model().wf(tx, stores@),
        ensures
            rows_result(r) == self.model().rows(tx, delta_rule, stores@),
        decreases self, 1int,
    {
        let bindings = self.bindings();
        let eliminate_indices = get_eliminate_indices(bindings.as_slice(), &self.to_eliminate);
        let left_bindings = self.left.bindings_after_eliminate();
        let right_bindings = self.right.bindings_after_eliminate();
        let join_indices = self.joiner.join_indices(&left_bindings, &right_bindings).unwrap();
        let prefix = join_is_prefix(join_indices.1.as_slice());
        let by_scan = match &self.right {
            RelAlgebra::Fixed(_) => true,
            RelAlgebra::TempStore(_) => prefix,
            RelAlgebra::Stored(_) => prefix,
            RelAlgebra::StoredWithValidity(_) => prefix,
            _ => false,
        };
        if !by_scan {
            return self.materialized_join(tx, eliminate_indices, delta_rule, stores);
        }
        let left_rows = match self.left.iter(tx, delta_rule, stores) {
            Ok(rows) => rows,
            Err(e) => {
                return Err(e);
            },
        };
        proof {
            assert(self.left@.wf(tx, stores@));
            assert(self.right@.wf(tx, stores@));
            lemma_rows_width(self.left@, tx, delta_rule, stores@);
            lemma_fits(left_rows.deep_view(), join_indices.0@, self.left@.width());
            lemma_rows_width(self.right@, tx, delta_rule, stores@);
        }
        match &self.right {
            RelAlgebra::Fixed(f) => {
                proof {
                    lemma_fits(
                        self.right@.rows(tx, delta_rule, stores@)->Ok_0,
                        join_indices.1@,
                        self.right@.width(),
                    );
                }
                f.join(left_rows, join_indices, eliminate_indices)
            },
            RelAlgebra::TempStore(r) => r.prefix_join(
                left_rows,
                join_indices,
                eliminate_indices,
                delta_rule,
                stores,
            ),
            RelAlgebra::Stored(r) => {
                let left_len = left_bindings.len();
                r.prefix_join(tx, left_rows, join_indices, eliminate_indices, left_len)
            },
            RelAlgebra::StoredWithValidity(r) => r.prefix_join(
                tx,
                left_rows,
                join_indices,
                eliminate_indices,
            ),
            _ => unreached(),
        }
    }

    /// The rows of the join by the materialized strategy: nothing where
    /// the left side is empty; else the right side is stored in memory and
    /// each left row finds its partners there.
    pub fn materialized_join(
        &self,
        tx: &SessionTx,
        eliminate_indices: BTreeSet<usize>,
        delta_rule: Option<u64>,
        stores: &BTreeMap<u64, EpochStore>,
    ) -> (r: Result<Vec<Tuple>, EvalError>)
        requires
            self.model().wf(tx, stores@),
        ensures
            rows_result(r) == materialized(
                self.left@.rows(tx, delta_rule, stores@),
                self.right@.rows(tx, delta_rule, stores@),
                positions(self.left@.bindings_after(), self.joiner.left_keys.deep_view()),
                positions(self.right@.bindings_after(), self.joiner.right_keys.deep_view()),
                self.right@.width(),
                eliminate_indices@,
            ),
        decreases self, 0int,
    {
        let right_bindings = self.right.bindings_after_eliminate();
        let join_indices = self.joiner.join_indices(
            &self.left.bindings_after_eliminate(),
            &right_bindings,
        ).unwrap();
        let left_rows = match self.left.iter(tx, delta_rule, stores) {
            Ok(rows) => rows,
            Err(e) => {
                return Err(e);
            },
        };
        proof {
            lemma_rows_view(&left_rows);
        }
        if left_rows.len() == 0 {
            let out: Vec<Tuple> = Vec::new();
            assert(out.deep_view() =~= Seq::<Row>::empty());
            return Ok(out);
        }
        let right_rows = match self.right.iter(tx, delta_rule, stores) {
            Ok(rows) => rows,
            Err(e) => {
                return Err(e);
            },
        };
        proof {
            lemma_rows_width(self.left@, tx, delta_rule, stores@);
            lemma_fits(left_rows.deep_view(), join_indices.0@, self.left@.width());
            lemma_rows_width(self.right@, tx, delta_rule, stores@);
        }
        Ok(
            materialized_join_rows(
                left_rows,
                right_rows,
                join_indices,
                right_bindings.len(),
                eliminate_indices,
            ),
        )
    }
}

impl RelAlgebra {
    /// The rows that the tree yields, in order, or the failure that ends
    /// its stream.
    pub fn iter(
        &self,
        tx: &SessionTx,
        delta_rule: Option<u64>,
        stores: &BTreeMap<u64, EpochStore>,
    ) -> (r: Result<Vec<Tuple>, EvalError>)
        requires
            self@.wf(tx, stores@),
        ensures
            rows_result(r) == self@.rows(tx, delta_rule, stores@),
            r matches Ok(rows) ==> has_width(rows.deep_view(), self@.width()),
        decreases self, 2int,
    {
        proof {
            lemma_rows_width(self@, tx, delta_rule, stores@);
        }
        match self {
            RelAlgebra::Fixed(f) => Ok(f.iter()),
            RelAlgebra::TempStore(r) => r.iter(delta_rule, stores),
            RelAlgebra::Stored(v) => v.iter(tx),
            RelAlgebra::StoredWithValidity(v) => v.iter(tx),
            RelAlgebra::Join(j) => j.iter(tx, delta_rule, stores),
            RelAlgebra::Reorder(r) => r.iter(tx, delta_rule, stores),
            RelAlgebra::Filter(r) => r.iter(tx, delta_rule, stores),
            RelAlgebra::NegJoin(r) => r.iter(tx, delta_rule, stores),
            RelAlgebra::Unification(r) => r.iter(tx, delta_rule, stores),
        }
    }
}

} // verus!
