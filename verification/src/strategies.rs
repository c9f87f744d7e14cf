//! The strategies of a join agree: over a scan whose join columns form a
//! prefix, the prefix join, the point lookup and the materialized join
//! yield the same rows, each as often, though not in the same order.

use vstd::prelude::*;

use crate::bounds_in_time::lemma_bounded_scan_in_time;
use crate::bounds_sound::{
    lemma_bounded_scan_sound, lemma_scan_succeeds, lemma_scan_tried, lemma_select_twice,
};
use crate::equivalences::{lemma_pass_is_select, lemma_scan_sorted, passing};
use crate::error::EvalError;
use crate::expr::Term;
use crate::materialize::{lemma_expand_one, lemma_store_order};
use crate::plan::{compile_all, Codes, Plan};
use crate::rows::{
    expand, lemma_select_agree, lemma_select_contains, lemma_select_sorted, lemma_select_width,
    select, Outcome,
};
use crate::semantics::{
    bots, chosen_bounds, drops_values, exists_step, found_rows, found_step, get_step, glue,
    glue_restored, is_prefix, lemma_partner_has_prefix, lemma_prefix_is_partner, mat_step, matching,
    materialized, pass_step, passes, prefix_columns, prefix_step, project_all, restore_order,
    scan_joined, slot_of, store_order, stored_join_step, temp_source, visible, ScanKind,
};
use crate::sorted::{gathered, lemma_gathered, strictly_sorted};
use crate::store::{with_prefix, EpochStore, SessionTx};
use crate::symbol::Name;
use crate::tuple::{eliminate_row, eliminated, has_width, in_range, project, starts_with};
use crate::unit_join::{joins_whole_groups, lemma_scan_is_expand, ready_scan};
use crate::validity::{in_force, same_group, shown, takes_precedence, validity_of, visible_at};
use crate::value::{lemma_compare_rows_equal, row_lt, Row};
use crate::widths::lemma_rows_width;

verus! {

/// Rows in strictly increasing order are all different.
pub proof fn lemma_sorted_distinct(rows: Seq<Row>)
    requires
        strictly_sorted(rows),
    ensures
        rows.no_duplicates(),
{
    assert forall|i: int, j: int| 0 <= i < rows.len() && 0 <= j < rows.len() && i != j implies rows[i]
        != rows[j] by {
        lemma_compare_rows_equal(rows[i], rows[j]);
        if i < j {
            assert(row_lt(rows[i], rows[j]));
        } else {
            assert(row_lt(rows[j], rows[i]));
            lemma_compare_rows_equal(rows[j], rows[i]);
        }
    }
}

/// A left row followed by each of the rows of one list, and by each of
/// the rows of another that holds the same rows, each once: the same rows,
/// each as often.
pub proof fn lemma_glue_permuted(l: Row, x: Seq<Row>, y: Seq<Row>, elim: Set<usize>)
    requires
        x.no_duplicates(),
        y.no_duplicates(),
        forall|r: Row| x.contains(r) <==> y.contains(r),
    ensures
        glue(l, x, elim).to_multiset() == glue(l, y, elim).to_multiset(),
    decreases x.len(),
{
    if x.len() == 0 {
        if y.len() > 0 {
            assert(y.contains(y[0]));
            assert(x.contains(y[0]));
        }
        assert(glue(l, x, elim) =~= glue(l, y, elim));
    } else {
        let last = x.last();
        let x0 = x.drop_last();
        assert(x.contains(last)) by {
            assert(x[x.len() - 1] == last);
        }
        assert(y.contains(last));
        let j = choose|j: int| 0 <= j < y.len() && y[j] == last;
        let y0 = y.remove(j);
        assert(x0.no_duplicates());
        assert(y0.no_duplicates()) by {
            assert forall|a: int, b: int| 0 <= a < y0.len() && 0 <= b < y0.len() && a
                != b implies y0[a] != y0[b] by {
                let a1 = if a < j {
                    a
                } else {
                    a + 1
                };
                let b1 = if b < j {
                    b
                } else {
                    b + 1
                };
                assert(y0[a] == y[a1] && y0[b] == y[b1]);
            }
        }
        assert forall|r: Row| x0.contains(r) <==> y0.contains(r) by {
            if x0.contains(r) {
                let a = choose|a: int| 0 <= a < x0.len() && x0[a] == r;
                assert(x[a] == r);
                assert(r != last) by {
                    if r == last {
                        assert(x[a] == x[x.len() - 1]);
                    }
                }
                assert(x.contains(r));
                assert(y.contains(r));
                let b = choose|b: int| 0 <= b < y.len() && y[b] == r;
                if b < j {
                    assert(y0[b] == r);
                } else {
                    assert(y0[b - 1] == r);
                }
            }
            if y0.contains(r) {
                let b = choose|b: int| 0 <= b < y0.len() && y0[b] == r;
                let b1 = if b < j {
                    b
                } else {
                    b + 1
                };
                assert(y[b1] == r);
                assert(r != last);
                assert(y.contains(r));
                assert(x.contains(r));
                let a = choose|a: int| 0 <= a < x.len() && x[a] == r;
                assert(x0[a] == r);
            }
        }
        lemma_glue_permuted(l, x0, y0, elim);
        let g = eliminate_row(l + last, elim);
        assert(glue(l, x, elim) =~= glue(l, x0, elim).push(g));
        assert(glue(l, y, elim) =~= glue(l, y0, elim).insert(j, g));
        vstd::seq_lib::to_multiset_build(glue(l, x0, elim), g);
        vstd::seq_lib::to_multiset_insert(glue(l, y0, elim), j, g);
    }
}

/// Two expansions whose steps yield, for every row, the same rows each as
/// often, yield the same rows each as often.
pub proof fn lemma_expand_permuted(
    rows: Seq<Row>,
    f: spec_fn(Row) -> Outcome,
    g: spec_fn(Row) -> Outcome,
)
    requires
        expand(rows, f) is Ok,
        expand(rows, g) is Ok,
        forall|i: int|
            0 <= i < rows.len() ==> f(#[trigger] rows[i])->Ok_0.to_multiset() == g(
                rows[i],
            )->Ok_0.to_multiset(),
    ensures
        expand(rows, f)->Ok_0.to_multiset() == expand(rows, g)->Ok_0.to_multiset(),
    decreases rows.len(),
{
    if rows.len() > 0 {
        let init = rows.drop_last();
        let x = rows.last();
        assert(x == rows[rows.len() - 1]);
        assert forall|i: int| 0 <= i < init.len() implies f(
            #[trigger] init[i],
        )->Ok_0.to_multiset() == g(init[i])->Ok_0.to_multiset() by {
            assert(init[i] == rows[i]);
        }
        lemma_expand_permuted(init, f, g);
        vstd::seq_lib::lemma_multiset_commutative(expand(init, f)->Ok_0, f(x)->Ok_0);
        vstd::seq_lib::lemma_multiset_commutative(expand(init, g)->Ok_0, g(x)->Ok_0);
    }
}

/// The columns of a row in the stored order, brought back, are the row.
pub proof fn lemma_restore_project(r: Row, ri: Seq<usize>, w: int)
    requires
        r.len() == w,
        0 <= w <= usize::MAX,
        ri.no_duplicates(),
        in_range(ri, w),
    ensures
        project(project(r, store_order(ri, w)), restore_order(store_order(ri, w), w)) == r,
{
    let stored = store_order(ri, w);
    let restore = restore_order(stored, w);
    lemma_store_order(ri, w);
    crate::semantics::lemma_distinct_bounded(stored, w);
    let m = project(r, stored);
    let back = project(m, restore);
    assert forall|c: int| 0 <= c < w implies back[c] == r[c] by {
        let cu = c as usize;
        assert(stored.contains(cu));
        let a = slot_of(stored, c);
        assert(0 <= a < stored.len() && stored[a] == c);
        assert(restore[c] == a as usize);
        assert(back[c] == m[restore[c] as int]);
        assert(m[a] == r[stored[a] as int]);
    }
    assert(back =~= r);
}

/// A row in the stored order begins with a key exactly when the row has
/// the key in its join columns.
pub proof fn lemma_stored_prefix(r: Row, ri: Seq<usize>, w: int, key: Row)
    requires
        key.len() == ri.len(),
    ensures
        starts_with(project(r, store_order(ri, w)), key) <==> project(r, ri) == key,
{
    let stored = store_order(ri, w);
    let m = project(r, stored);
    if starts_with(m, key) {
        assert forall|a: int| 0 <= a < ri.len() implies project(r, ri)[a] == key[a] by {
            assert(m[a] == key[a]);
            assert(stored[a] == ri[a]);
        }
        assert(project(r, ri) =~= key);
    }
    if project(r, ri) == key {
        assert forall|a: int| 0 <= a < key.len() implies m[a] == key[a] by {
            assert(stored[a] == ri[a]);
            assert(project(r, ri)[a] == r[ri[a] as int]);
        }
    }
}

/// Each of some rows with its columns brought back from the stored order.
pub open spec fn restored(ms: Seq<Row>, restore: Seq<usize>) -> Seq<Row> {
    Seq::new(ms.len(), |i: int| project(ms[i], restore))
}

/// What a materialized join finds for a left row: the rows of the right
/// side that match it, each once.
pub proof fn lemma_materialized_matches(
    rows: Seq<Row>,
    l: Row,
    li: Seq<usize>,
    ri: Seq<usize>,
    w: int,
)
    requires
        has_width(rows, w),
        0 <= w <= usize::MAX,
        ri.no_duplicates(),
        in_range(ri, w),
        li.len() == ri.len(),
    ensures
        ({
            let stored = store_order(ri, w);
            let mat = gathered(project_all(rows, stored));
            let found = restored(
                select(mat, with_prefix(project(l, li))),
                restore_order(stored, w),
            );
            &&& found.no_duplicates()
            &&& forall|r: Row| found.contains(r) <==> rows.contains(r) && matching(li, ri, l)(r)
        }),
{
    let stored = store_order(ri, w);
    let restore = restore_order(stored, w);
    let all = project_all(rows, stored);
    let mat = gathered(all);
    let key = project(l, li);
    let ms = select(mat, with_prefix(key));
    let found = restored(ms, restore);
    lemma_gathered(all);
    lemma_select_sorted(mat, with_prefix(key));
    lemma_sorted_distinct(ms);
    // every stored row is a row of the right side in the stored order
    assert forall|i: int| 0 <= i < ms.len() implies exists|k: int|
        0 <= k < rows.len() && #[trigger] ms[i] == project(#[trigger] rows[k], stored)
            && starts_with(ms[i], key) by {
        lemma_select_contains(mat, with_prefix(key), ms[i]);
        assert(ms.contains(ms[i]));
        assert(mat.contains(ms[i]));
        assert(all.contains(ms[i]));
        let k = choose|k: int| 0 <= k < all.len() && all[k] == ms[i];
        assert(all[k] == project(rows[k], stored));
    }
    assert forall|i: int, j: int| 0 <= i < found.len() && 0 <= j < found.len() && i
        != j implies found[i] != found[j] by {
        let ki = choose|k: int|
            0 <= k < rows.len() && ms[i] == project(#[trigger] rows[k], stored) && starts_with(
                ms[i],
                key,
            );
        let kj = choose|k: int|
            0 <= k < rows.len() && ms[j] == project(#[trigger] rows[k], stored) && starts_with(
                ms[j],
                key,
            );
        lemma_restore_project(rows[ki], ri, w);
        lemma_restore_project(rows[kj], ri, w);
        assert(found[i] == rows[ki]);
        assert(found[j] == rows[kj]);
        assert(ms[i] != ms[j]);
    }
    assert forall|r: Row| found.contains(r) <==> rows.contains(r) && matching(li, ri, l)(r) by {
        if found.contains(r) {
            let i = choose|i: int| 0 <= i < found.len() && found[i] == r;
            let k = choose|k: int|
                0 <= k < rows.len() && ms[i] == project(#[trigger] rows[k], stored)
                    && starts_with(ms[i], key);
            lemma_restore_project(rows[k], ri, w);
            assert(found[i] == rows[k]);
            lemma_stored_prefix(rows[k], ri, w, key);
        }
        if rows.contains(r) && matching(li, ri, l)(r) {
            let k = choose|k: int| 0 <= k < rows.len() && rows[k] == r;
            let m = project(r, stored);
            assert(all[k] == m);
            assert(all.contains(m));
            assert(mat.contains(m));
            lemma_stored_prefix(r, ri, w, key);
            lemma_select_contains(mat, with_prefix(key), m);
            assert(ms.contains(m));
            let i = choose|i: int| 0 <= i < ms.len() && ms[i] == m;
            lemma_restore_project(r, ri, w);
            assert(found[i] == r);
        }
    }
}

/// What a prefix scan of the rows of a scan finds for a left row: the
/// rows that match it, in their order.
pub proof fn lemma_prefix_matches(
    source: Seq<Row>,
    codes: Codes,
    l: Row,
    li: Seq<usize>,
    ri: Seq<usize>,
    w: int,
)
    requires
        has_width(source, w),
        is_prefix(ri),
        in_range(ri, w),
        li.len() == ri.len(),
        expand(source, pass_step(codes)) is Ok,
    ensures
        expand(
            select(source, with_prefix(project(l, prefix_columns(li, ri)))),
            pass_step(codes),
        ) == Ok::<Seq<Row>, EvalError>(
            select(expand(source, pass_step(codes))->Ok_0, matching(li, ri, l)),
        ),
{
    let p = project(l, prefix_columns(li, ri));
    let under = with_prefix(p);
    let pass = passing(codes);
    let same = matching(li, ri, l);
    let wide = select(source, under);
    lemma_scan_tried(source, codes);
    assert forall|i: int| 0 <= i < wide.len() implies crate::semantics::passes(
        codes,
        #[trigger] wide[i],
    ) is Ok by {
        lemma_select_contains(source, under, wide[i]);
        assert(wide.contains(wide[i]));
        let j = choose|j: int| 0 <= j < source.len() && source[j] == wide[i];
        assert(crate::semantics::passes(codes, source[j]) is Ok);
    }
    lemma_scan_succeeds(wide, codes);
    lemma_pass_is_select(wide, codes);
    lemma_pass_is_select(source, codes);
    lemma_select_twice(source, under, pass);
    lemma_select_twice(source, pass, same);
    assert forall|i: int| 0 <= i < source.len() implies (under(#[trigger] source[i]) && pass(
        source[i],
    )) == (pass(source[i]) && same(source[i])) by {
        let r = source[i];
        assert(r.len() == w);
        if starts_with(r, p) {
            lemma_prefix_is_partner(r, l, li, ri);
        }
        if project(r, ri) == project(l, li) {
            lemma_partner_has_prefix(r, l, li, ri);
        }
    }
    lemma_select_agree(
        source,
        |r: Row| under(r) && pass(r),
        |r: Row| pass(r) && same(r),
    );
}

/// Rows of one length that agree in every column that stays are the same
/// without the eliminated columns.
pub proof fn lemma_eliminate_agree(a: Row, b: Row, elim: Set<usize>)
    requires
        a.len() == b.len(),
        forall|i: int| 0 <= i < a.len() && !eliminated(elim, i) ==> a[i] == b[i],
    ensures
        eliminate_row(a, elim) == eliminate_row(b, elim),
    decreases a.len(),
{
    if a.len() > 0 {
        lemma_eliminate_agree(a.drop_last(), b.drop_last(), elim);
    }
}

/// Under one key a stored relation has one row at most.
pub proof fn lemma_one_under_key(source: Seq<Row>, key_len: int, key: Row)
    requires
        strictly_sorted(source),
        Plan::keys_unique(source, key_len),
        key.len() == key_len,
    ensures
        select(source, with_prefix(key)).len() <= 1,
{
    let keep = with_prefix(key);
    let s = select(source, keep);
    if s.len() >= 2 {
        lemma_select_sorted(source, keep);
        lemma_sorted_distinct(s);
        lemma_select_contains(source, keep, s[0]);
        lemma_select_contains(source, keep, s[1]);
        assert(s.contains(s[0]));
        assert(s.contains(s[1]));
        let a = choose|a: int| 0 <= a < source.len() && source[a] == s[0];
        let b = choose|b: int| 0 <= b < source.len() && source[b] == s[1];
        assert(source[a].take(key_len) =~= key);
        assert(source[b].take(key_len) =~= key);
        if a < b {
            assert(starts_with(source[b], source[a].take(key_len)));
        } else {
            assert(starts_with(source[a], source[b].take(key_len)));
        }
    }
}

/// A point lookup in a stored relation finds for a left row what a prefix
/// scan without bounds finds for it.
pub proof fn lemma_lookup_is_scan(
    source: Seq<Row>,
    key_len: int,
    val_len: int,
    filters: Seq<Term>,
    bindings: Seq<Name>,
    li: Seq<usize>,
    ri: Seq<usize>,
    l: Row,
    elim: Set<usize>,
)
    requires
        strictly_sorted(source),
        Plan::keys_unique(source, key_len),
        has_width(source, key_len + val_len),
        0 <= key_len <= ri.len(),
        0 <= val_len,
        li.len() == ri.len(),
    ensures
        stored_join_step(
            source,
            key_len,
            val_len,
            filters,
            compile_all(filters),
            bindings,
            li,
            ri,
            l.len() as int,
            elim,
        )(l) == prefix_step(
            ScanKind::Stored,
            source,
            filters,
            compile_all(filters),
            None,
            prefix_columns(li, ri),
            elim,
        )(l),
{
    let codes = compile_all(filters);
    let p = project(l, prefix_columns(li, ri));
    let key = p.take(key_len);
    let under_key = select(source, with_prefix(key));
    let under = select(source, with_prefix(p));
    lemma_one_under_key(source, key_len, key);
    lemma_select_twice(source, with_prefix(key), with_prefix(p));
    lemma_select_agree(
        source,
        |r: Row| with_prefix(key)(r) && with_prefix(p)(r),
        with_prefix(p),
    );
    assert(under == select(under_key, with_prefix(p)));
    let none = Seq::<Row>::empty();
    assert(glue(l, none, elim) =~= none);
    let looked = stored_join_step(
        source,
        key_len,
        val_len,
        filters,
        codes,
        bindings,
        li,
        ri,
        l.len() as int,
        elim,
    )(l);
    let scanned = found_step(l, expand(under, pass_step(codes)), elim);
    let quick = filters.len() == 0 && ri.len() == key_len && drops_values(
        elim,
        l.len() as int,
        key_len,
        val_len,
    );
    assert(quick ==> looked == exists_step(source, codes, prefix_columns(li, ri), val_len, elim)(l));
    assert(!quick ==> looked == get_step(source, key_len, codes, prefix_columns(li, ri), elim)(l));
    if under_key.len() == 0 {
        assert(under_key =~= none);
        assert(under == none);
        assert(expand(none, pass_step(codes)) == Ok::<Seq<Row>, EvalError>(none));
        assert(scanned == Ok::<Seq<Row>, EvalError>(none));
        assert(looked == scanned);
    } else {
        let x = under_key[0];
        assert(under_key =~= seq![x]);
        assert(seq![x].drop_last() =~= none);
        assert(seq![x].last() == x);
        assert(none.push(x) =~= seq![x]);
        assert(select(none, with_prefix(p)) == none);
        assert(select(seq![x], with_prefix(p)) == if starts_with(x, p) {
            seq![x]
        } else {
            none
        });
        lemma_expand_one(x, pass_step(codes));
        if filters.len() == 0 && ri.len() == key_len && drops_values(
            elim,
            l.len() as int,
            key_len,
            val_len,
        ) {
            assert(key =~= p);
            assert(codes =~= Seq::empty());
            lemma_select_contains(source, with_prefix(p), x);
            assert(under.contains(under[0]));
            let a = l + p + bots(val_len);
            let b = l + x;
            assert forall|i: int| 0 <= i < a.len() && !eliminated(elim, i) implies a[i] == b[i] by {
                if i >= l.len() + key_len {
                    assert(eliminated(elim, l.len() + key_len + (i - l.len() - key_len)));
                }
            }
            lemma_eliminate_agree(a, b, elim);
            assert(glue(l, seq![x], elim) =~= seq![eliminate_row(a, elim)]);
            assert(passes(codes, p) == Ok::<bool, EvalError>(true));
            assert(passes(codes, x) == Ok::<bool, EvalError>(true));
            assert(under == seq![x]);
            assert(looked == scanned);
        } else {
            if starts_with(x, p) {
                assert(under == seq![x]);
                assert(looked == scanned);
            } else {
                assert(under == none);
                assert(expand(none, pass_step(codes)) == Ok::<Seq<Row>, EvalError>(none));
                assert(looked == scanned);
            }
        }
    }
}

/// The source of a scan and the predicates that it applies.
pub open spec fn scan_source(
    right: Plan,
    tx: &SessionTx,
    delta_rule: Option<u64>,
    stores: Map<u64, EpochStore>,
) -> Seq<Row> {
    match right {
        Plan::TempStore { storage_key, .. } => temp_source(stores, storage_key, delta_rule),
        Plan::Stored { storage, .. } => tx.rows_of(storage.id),
        Plan::StoredWithValidity { storage, valid_at, .. } => visible(
            tx.rows_of(storage.id),
            storage.key_len,
            valid_at,
        ),
        _ => Seq::empty(),
    }
}

/// What is visible among the rows under a prefix that ends before the
/// validity is what is visible among all rows and stands under the
/// prefix.
pub proof fn lemma_visible_under_prefix(source: Seq<Row>, p: Row, key_len: int, valid_at: int)
    requires
        p.len() < key_len,
    ensures
        visible(select(source, with_prefix(p)), key_len, valid_at) == select(
            visible(source, key_len, valid_at),
            with_prefix(p),
        ),
{
    let under = select(source, with_prefix(p));
    let seen_under = visible_at(under, key_len, valid_at);
    let seen = visible_at(source, key_len, valid_at);
    lemma_select_twice(source, with_prefix(p), seen_under);
    lemma_select_twice(source, seen, with_prefix(p));
    assert forall|i: int| 0 <= i < source.len() implies (with_prefix(p)(#[trigger] source[i])
        && seen_under(source[i])) == (seen(source[i]) && with_prefix(p)(source[i])) by {
        let r = source[i];
        if starts_with(r, p) && in_force(r, key_len, valid_at) {
            let mine = validity_of(r, key_len)->Some_0;
            if shown(source, key_len, valid_at, r) {
                assert forall|j: int|
                    0 <= j < under.len() && same_group(#[trigger] under[j], r, key_len)
                        && in_force(under[j], key_len, valid_at) implies takes_precedence(
                    mine,
                    validity_of(under[j], key_len)->Some_0,
                ) by {
                    lemma_select_contains(source, with_prefix(p), under[j]);
                    assert(under.contains(under[j]));
                    let k = choose|k: int| 0 <= k < source.len() && source[k] == under[j];
                    assert(same_group(source[k], r, key_len));
                }
            }
            if shown(under, key_len, valid_at, r) {
                assert forall|j: int|
                    0 <= j < source.len() && same_group(#[trigger] source[j], r, key_len)
                        && in_force(source[j], key_len, valid_at) implies takes_precedence(
                    mine,
                    validity_of(source[j], key_len)->Some_0,
                ) by {
                    let q = source[j];
                    assert(starts_with(q, p));
                    lemma_select_contains(source, with_prefix(p), q);
                    assert(source.contains(q));
                    let k = choose|k: int| 0 <= k < under.len() && under[k] == q;
                    assert(same_group(under[k], r, key_len));
                }
            }
        }
    }
    lemma_select_agree(
        source,
        |r: Row| with_prefix(p)(r) && seen_under(r),
        |r: Row| seen(r) && with_prefix(p)(r),
    );
}

/// The step of the prefix join over a scan.
pub open spec fn scan_step(
    right: Plan,
    li: Seq<usize>,
    ri: Seq<usize>,
    lw: int,
    elim: Set<usize>,
    tx: &SessionTx,
    delta_rule: Option<u64>,
    stores: Map<u64, EpochStore>,
) -> spec_fn(Row) -> Outcome {
    match right {
        Plan::TempStore { bindings, storage_key, filters, codes, .. } => prefix_step(
            ScanKind::Temp,
            temp_source(stores, storage_key, delta_rule),
            filters,
            codes,
            chosen_bounds(filters, bindings, ri.len() as int),
            prefix_columns(li, ri),
            elim,
        ),
        Plan::Stored { bindings, storage, filters, codes, .. } => stored_join_step(
            tx.rows_of(storage.id),
            storage.key_len,
            storage.val_len,
            filters,
            codes,
            bindings,
            li,
            ri,
            lw,
            elim,
        ),
        Plan::StoredWithValidity { bindings, storage, filters, codes, valid_at, .. } => {
            prefix_step(
                ScanKind::AsOf { key_len: storage.key_len, valid_at },
                tx.rows_of(storage.id),
                filters,
                codes,
                chosen_bounds(filters, bindings, ri.len() as int),
                prefix_columns(li, ri),
                elim,
            )
        },
        _ => |l: Row| Ok(Seq::empty()),
    }
}

/// For one left row, the prefix join and the materialized join yield the
/// same rows, each as often.
pub proof fn lemma_steps_agree(
    right: Plan,
    l: Row,
    li: Seq<usize>,
    ri: Seq<usize>,
    lw: int,
    elim: Set<usize>,
    tx: &SessionTx,
    delta_rule: Option<u64>,
    stores: Map<u64, EpochStore>,
)
    requires
        right.is_scan(),
        right.wf(tx, stores),
        ready_scan(right),
        joins_whole_groups(right, ri),
        is_prefix(ri),
        in_range(ri, right.width()),
        li.len() == ri.len(),
        l.len() == lw,
        right.rows(tx, delta_rule, stores) is Ok,
    ensures
        ({
            let w = right.width();
            let stored = store_order(ri, w);
            let rows = right.rows(tx, delta_rule, stores)->Ok_0;
            let by_prefix = scan_step(right, li, ri, lw, elim, tx, delta_rule, stores)(l);
            let by_store = mat_step(
                gathered(project_all(rows, stored)),
                li,
                restore_order(stored, w),
                elim,
            )(l);
            by_prefix is Ok && by_prefix->Ok_0.to_multiset() == by_store->Ok_0.to_multiset()
        }),
{
    let w = right.width();
    let stored = store_order(ri, w);
    let restore = restore_order(stored, w);
    let rows = right.rows(tx, delta_rule, stores)->Ok_0;
    let source = scan_source(right, tx, delta_rule, stores);
    let p = project(l, prefix_columns(li, ri));
    lemma_rows_width(right, tx, delta_rule, stores);
    lemma_scan_sorted(right, tx, delta_rule, stores);
    let (filters, names, kind) = match right {
        Plan::TempStore { bindings, filters, .. } => (filters, bindings, ScanKind::Temp),
        Plan::Stored { bindings, filters, .. } => (filters, bindings, ScanKind::Stored),
        Plan::StoredWithValidity { bindings, filters, .. } => (filters, bindings, ScanKind::Stored),
        _ => (Seq::<Term>::empty(), Seq::<Name>::empty(), ScanKind::Temp),
    };
    let codes = compile_all(filters);
    if let Plan::StoredWithValidity { storage, valid_at, .. } = right {
        let raw = tx.rows_of(storage.id);
        lemma_select_width(raw, visible_at(raw, storage.key_len, valid_at), w);
        lemma_visible_under_prefix(raw, p, storage.key_len, valid_at);
    }
    assert(has_width(source, w));
    lemma_scan_is_expand(filters, source);
    assert(expand(source, pass_step(codes)) == Ok::<Seq<Row>, EvalError>(rows));
    lemma_prefix_matches(source, codes, l, li, ri, w);
    let hits = select(rows, matching(li, ri, l));
    lemma_scan_is_expand(filters, select(source, with_prefix(p)));
    assert(found_rows(kind, source, filters, codes, None, p) == Ok::<Seq<Row>, EvalError>(hits));
    assert(p.len() == ri.len());
    crate::semantics::lemma_distinct_bounded(ri, w);
    if let Plan::StoredWithValidity { storage, valid_at, .. } = right {
        lemma_bounded_scan_in_time(
            tx.rows_of(storage.id),
            filters,
            names,
            p,
            storage.key_len,
            valid_at,
        );
    } else {
        lemma_bounded_scan_sound(kind, source, filters, names, p);
    }
    if let Plan::Stored { storage, .. } = right {
        if ri.len() >= storage.key_len {
            lemma_lookup_is_scan(
                source,
                storage.key_len,
                storage.val_len,
                filters,
                names,
                li,
                ri,
                l,
                elim,
            );
        }
    }
    // the matches of the prefix scan are different rows of the right side
    lemma_select_sorted(rows, matching(li, ri, l));
    lemma_sorted_distinct(hits);
    lemma_materialized_matches(rows, l, li, ri, w);
    let ms = select(gathered(project_all(rows, stored)), with_prefix(project(l, li)));
    let found = restored(ms, restore);
    assert forall|r: Row| hits.contains(r) <==> found.contains(r) by {
        lemma_select_contains(rows, matching(li, ri, l), r);
    }
    lemma_glue_permuted(l, hits, found, elim);
    assert(glue(l, found, elim) =~= glue_restored(l, ms, restore, elim));
}

/// Over a scan whose join columns form a prefix, the prefix join, which
/// over a stored relation is a point lookup where the join columns make a
/// whole key, and the materialized join yield the same rows, each as
/// often, where both succeed. A scan in time is joined on columns before
/// its validity, with bounds that leave the validity free.
pub proof fn lemma_prefix_join_is_materialized(
    right: Plan,
    ls: Seq<Row>,
    li: Seq<usize>,
    ri: Seq<usize>,
    lw: int,
    elim: Set<usize>,
    tx: &SessionTx,
    delta_rule: Option<u64>,
    stores: Map<u64, EpochStore>,
)
    requires
        right.is_scan(),
        right.wf(tx, stores),
        ready_scan(right),
        joins_whole_groups(right, ri),
        is_prefix(ri),
        in_range(ri, right.width()),
        li.len() == ri.len(),
        has_width(ls, lw),
        scan_joined(right, Ok(ls), li, ri, lw, elim, tx, delta_rule, stores) is Ok,
        materialized(
            Ok(ls),
            right.rows(tx, delta_rule, stores),
            li,
            ri,
            right.width(),
            elim,
        ) is Ok,
    ensures
        scan_joined(
            right,
            Ok(ls),
            li,
            ri,
            lw,
            elim,
            tx,
            delta_rule,
            stores,
        )->Ok_0.to_multiset() == materialized(
            Ok(ls),
            right.rows(tx, delta_rule, stores),
            li,
            ri,
            right.width(),
            elim,
        )->Ok_0.to_multiset(),
{
    let w = right.width();
    let stored = store_order(ri, w);
    let by_prefix = scan_step(right, li, ri, lw, elim, tx, delta_rule, stores);
    assert(scan_joined(right, Ok(ls), li, ri, lw, elim, tx, delta_rule, stores) == expand(
        ls,
        by_prefix,
    ));
    if ls.len() > 0 {
        let rows = right.rows(tx, delta_rule, stores)->Ok_0;
        let by_store = mat_step(
            gathered(project_all(rows, stored)),
            li,
            restore_order(stored, w),
            elim,
        );
        assert forall|i: int| 0 <= i < ls.len() implies by_prefix(
            #[trigger] ls[i],
        )->Ok_0.to_multiset() == by_store(ls[i])->Ok_0.to_multiset() by {
            lemma_steps_agree(right, ls[i], li, ri, lw, elim, tx, delta_rule, stores);
        }
        lemma_expand_permuted(ls, by_prefix, by_store);
    } else {
        assert(ls =~= Seq::<Row>::empty());
    }
}

} // verus!
