//! The elimination pass settles: a second pass for the same consumer
//! changes nothing.

use vstd::prelude::*;

use crate::plan::{retain, Plan};
use crate::symbol::Name;

verus! {

/// The names retained are the names that are not gone.
pub proof fn lemma_retain_set(names: Seq<Name>, gone: Set<Name>)
    ensures
        retain(names, gone).to_set() == names.to_set().difference(gone),
    decreases names.len(),
{
    if names.len() > 0 {
        let init = names.drop_last();
        let x = names.last();
        lemma_retain_set(init, gone);
        let kept = retain(names, gone);
        assert forall|n: Name| kept.to_set().contains(n) <==> names.to_set().difference(
            gone,
        ).contains(n) by {
            if retain(init, gone).contains(n) {
                let k = choose|k: int| 0 <= k < retain(init, gone).len() && retain(init, gone)[k]
                    == n;
                assert(kept[k] == n);
                assert(retain(init, gone).to_set().contains(n));
                assert(init.to_set().difference(gone).contains(n));
                assert(init.to_set().contains(n));
                let j = choose|j: int| 0 <= j < init.len() && init[j] == n;
                assert(names[j] == n);
            }
            if n == x && !gone.contains(x) {
                assert(kept[kept.len() - 1] == n);
                assert(names[names.len() - 1] == n);
            }
            if kept.contains(n) {
                let k = choose|k: int| 0 <= k < kept.len() && kept[k] == n;
                if k < retain(init, gone).len() {
                    assert(retain(init, gone)[k] == n);
                    assert(retain(init, gone).to_set().contains(n));
                }
            }
            if names.contains(n) && !gone.contains(n) {
                let j = choose|j: int| 0 <= j < names.len() && names[j] == n;
                if j < init.len() {
                    assert(init[j] == n);
                    assert(init.to_set().difference(gone).contains(n));
                    assert(retain(init, gone).to_set().contains(n));
                }
            }
        }
        assert(kept.to_set() =~= names.to_set().difference(gone));
    } else {
        assert(retain(names, gone).to_set() =~= names.to_set().difference(gone));
    }
}

/// The names of two lists, one after the other.
pub proof fn lemma_concat_set(a: Seq<Name>, b: Seq<Name>)
    ensures
        (a + b).to_set() == a.to_set().union(b.to_set()),
{
    assert forall|n: Name| (a + b).to_set().contains(n) <==> a.to_set().union(
        b.to_set(),
    ).contains(n) by {
        if (a + b).contains(n) {
            let k = choose|k: int| 0 <= k < (a + b).len() && (a + b)[k] == n;
            if k < a.len() {
                assert(a[k] == n);
            } else {
                assert(b[k - a.len()] == n);
            }
        }
        if a.contains(n) {
            let k = choose|k: int| 0 <= k < a.len() && a[k] == n;
            assert((a + b)[k] == n);
        }
        if b.contains(n) {
            let k = choose|k: int| 0 <= k < b.len() && b[k] == n;
            assert((a + b)[a.len() + k] == n);
        }
    }
    assert((a + b).to_set() =~= a.to_set().union(b.to_set()));
}

/// The names of a list with one more.
pub proof fn lemma_push_set(a: Seq<Name>, x: Name)
    ensures
        a.push(x).to_set() == a.to_set().insert(x),
{
    crate::symbol::lemma_to_set_push(a, x);
}

/// The elimination pass keeps the kind of every operator, leaves scans as
/// they are, and leaves what the left side of a join is asked to keep.
pub proof fn lemma_eliminated_kind(p: Plan, used: Set<Name>)
    ensures
        p is TempStore ==> p.eliminated(used) == p,
        p.eliminated(used) is TempStore ==> p is TempStore,
        forall|keys: Seq<Name>| #[trigger]
            Plan::join_left_needs(p.eliminated(used), keys) == Plan::join_left_needs(p, keys),
{
    assert forall|keys: Seq<Name>| #[trigger]
        Plan::join_left_needs(p.eliminated(used), keys) == Plan::join_left_needs(p, keys) by {
        match p {
            Plan::TempStore { .. } => {},
            _ => {},
        }
    }
}

/// The elimination pass adds no binding: what an operator has, and what
/// it yields, after the pass was there before.
pub proof fn lemma_eliminated_shrinks(p: Plan, used: Set<Name>)
    ensures
        p.eliminated(used).bindings_before().to_set().subset_of(p.bindings_before().to_set()),
        p.eliminated(used).bindings_after().to_set().subset_of(p.bindings_after().to_set()),
    decreases p,
{
    let q = p.eliminated(used);
    match p {
        Plan::Fixed { bindings, data, to_eliminate, span } => {
            lemma_retain_set(bindings, to_eliminate);
            lemma_retain_set(bindings, q->Fixed_to_eliminate);
        },
        Plan::TempStore { .. } => {},
        Plan::Stored { .. } => {},
        Plan::StoredWithValidity { .. } => {},
        Plan::Join { left, right, left_keys, right_keys, to_eliminate, span } => {
            let l2 = *q->Join_left;
            let r2 = *q->Join_right;
            lemma_eliminated_shrinks(*left, used.union(Plan::join_left_needs(*right, left_keys)));
            lemma_eliminated_shrinks(*right, used.union(right_keys.to_set()));
            lemma_concat_set(left.bindings_after(), right.bindings_after());
            lemma_concat_set(l2.bindings_after(), r2.bindings_after());
            lemma_retain_set(p.bindings_before(), to_eliminate);
            lemma_retain_set(q.bindings_before(), q->Join_to_eliminate);
        },
        Plan::NegJoin { left, right, left_keys, right_keys, to_eliminate, span } => {
            lemma_eliminated_shrinks(*left, used.union(left_keys.to_set()));
            lemma_retain_set(p.bindings_before(), to_eliminate);
            lemma_retain_set(q.bindings_before(), q->NegJoin_to_eliminate);
        },
        Plan::Reorder { relation, new_order } => {},
        Plan::Filter { parent, filters, codes, to_eliminate, span } => {
            lemma_eliminated_shrinks(
                *parent,
                used.union(crate::plan::filters_free_vars(filters)),
            );
            lemma_retain_set(p.bindings_before(), to_eliminate);
            lemma_retain_set(q.bindings_before(), q->Filter_to_eliminate);
        },
        Plan::Unification { parent, binding, expr, code, is_multi, to_eliminate, span } => {
            let p2 = *q->Unification_parent;
            lemma_eliminated_shrinks(*parent, used.union(crate::expr::free_vars(expr)));
            lemma_push_set(parent.bindings_after(), binding);
            lemma_push_set(p2.bindings_after(), binding);
            lemma_retain_set(p.bindings_before(), to_eliminate);
            lemma_retain_set(q.bindings_before(), q->Unification_to_eliminate);
        },
    }
}

/// Running the elimination pass a second time for the same consumer yields
/// the plan that the first pass yielded.
pub proof fn lemma_eliminate_idempotent(p: Plan, used: Set<Name>)
    ensures
        p.eliminated(used).eliminated(used) == p.eliminated(used),
    decreases p,
{
    let q = p.eliminated(used);
    let r = q.eliminated(used);
    match p {
        Plan::Fixed { bindings, data, to_eliminate, span } => {
            assert(r->Fixed_to_eliminate =~= q->Fixed_to_eliminate);
        },
        Plan::TempStore { .. } => {},
        Plan::Stored { .. } => {},
        Plan::StoredWithValidity { .. } => {},
        Plan::Join { left, right, left_keys, right_keys, to_eliminate, span } => {
            let lu = used.union(Plan::join_left_needs(*right, left_keys));
            let ru = used.union(right_keys.to_set());
            lemma_eliminated_kind(*right, ru);
            assert(Plan::join_left_needs(right.eliminated(ru), left_keys) == Plan::join_left_needs(
                *right,
                left_keys,
            ));
            lemma_eliminate_idempotent(*left, lu);
            lemma_eliminate_idempotent(*right, ru);
            lemma_eliminated_shrinks(*left, lu);
            lemma_eliminated_shrinks(*right, ru);
            lemma_concat_set(left.bindings_after(), right.bindings_after());
            lemma_concat_set(left.eliminated(lu).bindings_after(), right.eliminated(ru).bindings_after());
            assert(r->Join_to_eliminate =~= q->Join_to_eliminate);
            assert(*r->Join_left == *q->Join_left);
            assert(*r->Join_right == *q->Join_right);
        },
        Plan::NegJoin { left, right, left_keys, right_keys, to_eliminate, span } => {
            let lu = used.union(left_keys.to_set());
            lemma_eliminate_idempotent(*left, lu);
            lemma_eliminated_shrinks(*left, lu);
            assert(r->NegJoin_to_eliminate =~= q->NegJoin_to_eliminate);
            assert(*r->NegJoin_left == *q->NegJoin_left);
        },
        Plan::Reorder { relation, new_order } => {
            lemma_eliminate_idempotent(*relation, used);
        },
        Plan::Filter { parent, filters, codes, to_eliminate, span } => {
            let pu = used.union(crate::plan::filters_free_vars(filters));
            lemma_eliminate_idempotent(*parent, pu);
            lemma_eliminated_shrinks(*parent, pu);
            assert(r->Filter_to_eliminate =~= q->Filter_to_eliminate);
            assert(*r->Filter_parent == *q->Filter_parent);
        },
        Plan::Unification { parent, binding, expr, code, is_multi, to_eliminate, span } => {
            let pu = used.union(crate::expr::free_vars(expr));
            lemma_eliminate_idempotent(*parent, pu);
            lemma_eliminated_shrinks(*parent, pu);
            assert(r->Unification_to_eliminate =~= q->Unification_to_eliminate);
            assert(*r->Unification_parent == *q->Unification_parent);
        },
    }
}

} // verus!
