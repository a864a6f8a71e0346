//! Re-factoring a canonical form into an evaluation plan: greedily pull out
//! the cell that occurs in the most monomials, and recurse.
use vstd::prelude::*;
use vstd::seq_lib::group_to_multiset_ensures;
use vstd::multiset::group_multiset_axioms;
use crate::canonical::{is_canonical, lemma_keys_cells, lookup, monos_value, mview, normal_form_of, MonoView, Monomial};
use crate::monomial::{canonical_assignment, cell_product};
use crate::eval::{cell_at, eval_at, eval_with, lemma_covers_occurs, occurs, ys_value, Columns};
use crate::expression::ProveExpression;
use crate::field::{fadd_spec, fmul_spec, lemma_fadd_laws, lemma_fmul_laws, MODULUS};
use crate::monomial::lemma_sorted_unique;
use crate::unit::{lemma_unit_order_total, sorted_units, unit_le, ProveExpressionUnit};

verus! {

broadcast use group_to_multiset_ensures, group_multiset_axioms;

/// `u` multiplied by itself: a single cell for `c == 1`, else `u * u^(c-1)`.
pub open spec fn unit_pow(u: ProveExpressionUnit, c: nat) -> ProveExpression
    decreases c,
{
    if c <= 1 {
        ProveExpression::Unit(u)
    } else {
        ProveExpression::Product(
            Box::new(ProveExpression::Unit(u)),
            Box::new(unit_pow(u, (c - 1) as nat)),
        )
    }
}

/// Number of leading cells of `k` equal to its first one.
pub open spec fn run_len(k: Seq<ProveExpressionUnit>) -> nat
    decreases k.len(),
{
    if k.len() == 0 {
        0
    } else if k.len() >= 2 && k[1] == k[0] {
        1 + run_len(k.drop_first())
    } else {
        1
    }
}

/// `t` multiplies out monomial `k` with terms `ys`: the terms at the bottom,
/// then each run of equal cells, smallest last, as a power.
pub open spec fn is_mono_tree(k: Seq<ProveExpressionUnit>, ys: Seq<(u32, u64)>, t: ProveExpression) -> bool
    decreases k.len(),
{
    if k.len() == 0 {
        t is Y && t->Y_0@ == ys
    } else {
        let c = run_len(k);
        &&& 0 < c <= k.len()
        &&& t is Product
        &&& *t->Product_1 == unit_pow(k[0], c)
        &&& is_mono_tree(k.subrange(c as int, k.len() as int), ys, *t->Product_0)
    }
}

/// `s` with its first occurrence of `u` removed.
pub open spec fn remove_first(s: Seq<ProveExpressionUnit>, u: ProveExpressionUnit) -> Seq<ProveExpressionUnit>
    decreases s.len(),
{
    if s.len() == 0 {
        s
    } else if s[0] == u {
        s.drop_first()
    } else {
        seq![s[0]] + remove_first(s.drop_first(), u)
    }
}

/// The monomials that hold `u`, each with one `u` taken out, in order.
pub open spec fn take_u(t: Seq<MonoView>, u: ProveExpressionUnit) -> Seq<MonoView>
    decreases t.len(),
{
    if t.len() == 0 {
        t
    } else {
        let rest = take_u(t.drop_last(), u);
        if t.last().0.contains(u) {
            rest.push((remove_first(t.last().0, u), t.last().1))
        } else {
            rest
        }
    }
}

/// The monomials that do not hold `u`, in order.
pub open spec fn drop_u(t: Seq<MonoView>, u: ProveExpressionUnit) -> Seq<MonoView>
    decreases t.len(),
{
    if t.len() == 0 {
        t
    } else {
        let rest = drop_u(t.drop_last(), u);
        if t.last().0.contains(u) {
            rest
        } else {
            rest.push(t.last())
        }
    }
}

/// Number of monomials that hold `u`.
pub open spec fn count(t: Seq<MonoView>, u: ProveExpressionUnit) -> nat {
    take_u(t, u).len()
}

/// `u` occurs in the most monomials, and is the smallest such cell.
pub open spec fn is_greedy(t: Seq<MonoView>, u: ProveExpressionUnit) -> bool {
    &&& count(t, u) >= 1
    &&& forall|v: ProveExpressionUnit| #[trigger] count(t, v) <= count(t, u)
    &&& forall|v: ProveExpressionUnit| #[trigger] count(t, v) == count(t, u) ==> unit_le(u, v)
}

/// Total size of a list of monomials: cells plus one per monomial.
pub open spec fn weight(t: Seq<MonoView>) -> nat
    decreases t.len(),
{
    if t.len() == 0 {
        0
    } else {
        weight(t.drop_last()) + t.last().0.len() + 1
    }
}

/// The evaluation plan for a non-empty list of monomials: a single monomial
/// is multiplied out; otherwise, with `u` the greedy cell, the plan is
/// `u * plan(take_u) + plan(drop_u)`, or `u * plan(take_u)` when no monomial
/// lacks `u`.
pub open spec fn is_plan(t: Seq<MonoView>, e: ProveExpression) -> bool
    decreases weight(t),
{
    if t.len() == 0 {
        false
    } else if t.len() == 1 {
        is_mono_tree(t[0].0, t[0].1, e)
    } else if exists|u: ProveExpressionUnit| is_greedy(t, u) {
        let u = choose|u: ProveExpressionUnit| is_greedy(t, u);
        let l = take_u(t, u);
        let r = drop_u(t, u);
        if weight(l) < weight(t) && weight(r) < weight(t) {
            if r.len() == 0 {
                &&& e is Product
                &&& *e->Product_0 == ProveExpression::Unit(u)
                &&& is_plan(l, *e->Product_1)
            } else {
                &&& e is Sum
                &&& (*e->Sum_0) is Product
                &&& *(*e->Sum_0)->Product_0 == ProveExpression::Unit(u)
                &&& is_plan(l, *(*e->Sum_0)->Product_1)
                &&& is_plan(r, *e->Sum_1)
            }
        } else {
            false
        }
    } else {
        false
    }
}

/// Keys are sorted and pairwise distinct.
pub open spec fn keys_ok(t: Seq<MonoView>) -> bool {
    &&& forall|i: int| 0 <= i < t.len() ==> sorted_units((#[trigger] t[i]).0)
    &&& forall|i: int, j: int| 0 <= i < j < t.len() ==> (#[trigger] t[i]).0 != (#[trigger] t[j]).0
}

proof fn lemma_remove_first(s: Seq<ProveExpressionUnit>, i: int, u: ProveExpressionUnit)
    requires
        0 <= i < s.len(),
        s[i] == u,
        forall|p: int| 0 <= p < i ==> s[p] != u,
    ensures
        remove_first(s, u) == s.remove(i),
    decreases s.len(),
{
    if i == 0 {
        assert(s.remove(0) =~= s.drop_first());
    } else {
        assert(s[0] != u);
        lemma_remove_first(s.drop_first(), i - 1, u);
        assert(seq![s[0]] + s.drop_first().remove(i - 1) =~= s.remove(i));
    }
}

proof fn lemma_first_index(s: Seq<ProveExpressionUnit>, u: ProveExpressionUnit) -> (i: int)
    requires
        s.contains(u),
    ensures
        0 <= i < s.len(),
        s[i] == u,
        forall|p: int| 0 <= p < i ==> s[p] != u,
    decreases s.len(),
{
    if s[0] == u {
        0
    } else {
        assert(s.drop_first().contains(u)) by {
            let j = choose|j: int| 0 <= j < s.len() && s[j] == u;
            assert(s.drop_first()[j - 1] == u);
        }
        let i = lemma_first_index(s.drop_first(), u);
        assert forall|p: int| 0 <= p < i + 1 implies s[p] != u by {
            if p > 0 {
                assert(s[p] == s.drop_first()[p - 1]);
            }
        }
        i + 1
    }
}

/// Taking one `u` out of a sequence that holds it removes one cell, keeps
/// the order, and removes `u` once from the multiset.
proof fn lemma_remove_first_facts(s: Seq<ProveExpressionUnit>, u: ProveExpressionUnit)
    requires
        s.contains(u),
    ensures
        remove_first(s, u).len() == s.len() - 1,
        remove_first(s, u).to_multiset() == s.to_multiset().remove(u),
        sorted_units(s) ==> sorted_units(remove_first(s, u)),
{
    let i = lemma_first_index(s, u);
    lemma_remove_first(s, i, u);
    let r = s.remove(i);
    if sorted_units(s) {
        assert forall|a: int, b: int| 0 <= a < b < r.len() implies unit_le(#[trigger] r[a], #[trigger] r[b]) by {
            let a2 = if a < i { a } else { a + 1 };
            let b2 = if b < i { b } else { b + 1 };
            assert(r[a] == s[a2] && r[b] == s[b2]);
        }
    }
}

/// Each monomial of `take_u` comes from one of `t` that holds `u`.
proof fn lemma_take_source(t: Seq<MonoView>, u: ProveExpressionUnit, q: int)
    requires
        0 <= q < take_u(t, u).len(),
    ensures
        exists|p: int| 0 <= p < t.len() && (#[trigger] t[p]).0.contains(u) && take_u(t, u)[q] == (
        remove_first(t[p].0, u), t[p].1),
    decreases t.len(),
{
    let rest = take_u(t.drop_last(), u);
    if q < rest.len() {
        lemma_take_source(t.drop_last(), u, q);
        let p = choose|p: int| 0 <= p < t.drop_last().len() && (#[trigger] t.drop_last()[p]).0.contains(u)
            && rest[q] == (remove_first(t.drop_last()[p].0, u), t.drop_last()[p].1);
        assert(t[p] == t.drop_last()[p]);
    } else {
        assert(t[t.len() - 1] == t.last());
    }
}

/// Each monomial of `drop_u` is one of `t` that lacks `u`; later ones come
/// from later positions.
proof fn lemma_drop_source(t: Seq<MonoView>, u: ProveExpressionUnit, q: int)
    requires
        0 <= q < drop_u(t, u).len(),
    ensures
        exists|p: int| 0 <= p < t.len() && !(#[trigger] t[p]).0.contains(u) && drop_u(t, u)[q] == t[p],
    decreases t.len(),
{
    let rest = drop_u(t.drop_last(), u);
    if q < rest.len() {
        lemma_drop_source(t.drop_last(), u, q);
        let p = choose|p: int| 0 <= p < t.drop_last().len() && !(#[trigger] t.drop_last()[p]).0.contains(u)
            && rest[q] == t.drop_last()[p];
        assert(t[p] == t.drop_last()[p]);
    } else {
        assert(t[t.len() - 1] == t.last());
    }
}

proof fn lemma_split_weight(t: Seq<MonoView>, u: ProveExpressionUnit)
    ensures
        weight(take_u(t, u)) + weight(drop_u(t, u)) + take_u(t, u).len() == weight(t),
    decreases t.len(),
{
    if t.len() > 0 {
        lemma_split_weight(t.drop_last(), u);
        let rt = take_u(t.drop_last(), u);
        let rd = drop_u(t.drop_last(), u);
        if t.last().0.contains(u) {
            lemma_remove_first_facts(t.last().0, u);
            let m = (remove_first(t.last().0, u), t.last().1);
            assert(rt.push(m).drop_last() =~= rt);
        } else {
            assert(rd.push(t.last()).drop_last() =~= rd);
        }
    }
}

proof fn lemma_count_contains(t: Seq<MonoView>, u: ProveExpressionUnit)
    ensures
        count(t, u) > 0 <==> exists|p: int| 0 <= p < t.len() && (#[trigger] t[p]).0.contains(u),
    decreases t.len(),
{
    if t.len() > 0 {
        lemma_count_contains(t.drop_last(), u);
        if exists|p: int| 0 <= p < t.drop_last().len() && (#[trigger] t.drop_last()[p]).0.contains(u) {
            let p = choose|p: int| 0 <= p < t.drop_last().len() && (#[trigger] t.drop_last()[p]).0.contains(u);
            assert(t[p] == t.drop_last()[p]);
        }
        if exists|p: int| 0 <= p < t.len() && (#[trigger] t[p]).0.contains(u) {
            let p = choose|p: int| 0 <= p < t.len() && (#[trigger] t[p]).0.contains(u);
            if p < t.len() - 1 {
                assert(t.drop_last()[p] == t[p]);
            }
        }
    }
}

proof fn lemma_greedy_unique(t: Seq<MonoView>, u: ProveExpressionUnit, v: ProveExpressionUnit)
    requires
        is_greedy(t, u),
        is_greedy(t, v),
    ensures
        u == v,
{
    assert(count(t, v) <= count(t, u));
    assert(count(t, u) <= count(t, v));
    lemma_unit_order_total(u, v);
}

proof fn lemma_keys_ok_split(t: Seq<MonoView>, u: ProveExpressionUnit)
    requires
        keys_ok(t),
    ensures
        keys_ok(take_u(t, u)),
        keys_ok(drop_u(t, u)),
    decreases t.len(),
{
    if t.len() > 0 {
        let t0 = t.drop_last();
        assert(keys_ok(t0)) by {
            assert forall|i: int| 0 <= i < t0.len() implies sorted_units((#[trigger] t0[i]).0) by {
                assert(t0[i] == t[i]);
            }
            assert forall|i: int, j: int| 0 <= i < j < t0.len() implies (#[trigger] t0[i]).0 != (#[trigger] t0[j]).0 by {
                assert(t0[i] == t[i] && t0[j] == t[j]);
            }
        }
        lemma_keys_ok_split(t0, u);
        let last = t.last();
        assert(last == t[t.len() - 1]);
        let rt = take_u(t0, u);
        let rd = drop_u(t0, u);
        if last.0.contains(u) {
            lemma_remove_first_facts(last.0, u);
            let nk = remove_first(last.0, u);
            let tt = rt.push((nk, last.1));
            assert forall|i: int| 0 <= i < tt.len() implies sorted_units((#[trigger] tt[i]).0) by {
                if i < rt.len() {
                    assert(tt[i] == rt[i]);
                }
            }
            assert forall|i: int, j: int| 0 <= i < j < tt.len() implies (#[trigger] tt[i]).0 != (#[trigger] tt[j]).0 by {
                if j < rt.len() {
                    assert(tt[i] == rt[i] && tt[j] == rt[j]);
                } else {
                    assert(tt[i] == rt[i]);
                    lemma_take_source(t0, u, i);
                    let p = choose|p: int| 0 <= p < t0.len() && (#[trigger] t0[p]).0.contains(u) && rt[i] == (
                        remove_first(t0[p].0, u), t0[p].1);
                    assert(t0[p] == t[p]);
                    lemma_remove_first_facts(t0[p].0, u);
                    if rt[i].0 == nk {
                        assert(t[p].0.to_multiset() =~= rt[i].0.to_multiset().insert(u));
                        assert(last.0.to_multiset() =~= nk.to_multiset().insert(u));
                        lemma_sorted_unique(t[p].0, last.0);
                        assert(t[p].0 != t[t.len() - 1].0);
                    }
                }
            }
        } else {
            let dd = rd.push(last);
            assert forall|i: int| 0 <= i < dd.len() implies sorted_units((#[trigger] dd[i]).0) by {
                if i < rd.len() {
                    assert(dd[i] == rd[i]);
                }
            }
            assert forall|i: int, j: int| 0 <= i < j < dd.len() implies (#[trigger] dd[i]).0 != (#[trigger] dd[j]).0 by {
                if j < rd.len() {
                    assert(dd[i] == rd[i] && dd[j] == rd[j]);
                } else {
                    assert(dd[i] == rd[i]);
                    lemma_drop_source(t0, u, i);
                    let p = choose|p: int| 0 <= p < t0.len() && !(#[trigger] t0[p]).0.contains(u) && rd[i] == t0[p];
                    assert(t0[p] == t[p]);
                }
            }
        }
    }
}

proof fn lemma_run_len(k: Seq<ProveExpressionUnit>, c: int)
    requires
        0 < c <= k.len(),
        forall|p: int| 0 <= p < c ==> #[trigger] k[p] == k[0],
        c == k.len() || k[c] != k[0],
    ensures
        run_len(k) == c,
    decreases k.len(),
{
    if c > 1 {
        assert(k[1] == k[0]);
        let d = k.drop_first();
        assert forall|p: int| 0 <= p < c - 1 implies #[trigger] d[p] == d[0] by {
            assert(d[p] == k[p + 1]);
        }
        lemma_run_len(d, c - 1);
    }
}

/// Whether a key holds a cell.
fn key_contains(k: &Vec<ProveExpressionUnit>, u: &ProveExpressionUnit) -> (r: bool)
    ensures
        r == k@.contains(*u),
{
    let mut i: usize = 0;
    while i < k.len()
        invariant
            0 <= i <= k.len(),
            forall|p: int| 0 <= p < i ==> k@[p] != *u,
        decreases k.len() - i,
    {
        if k[i] == *u {
            return true;
        }
        i += 1;
    }
    false
}

/// Number of monomials of `tree` that hold `u`.
fn count_with(tree: &Vec<Monomial>, u: &ProveExpressionUnit) -> (r: usize)
    ensures
        r == count(mview(tree@), *u),
{
    let mut r: usize = 0;
    let mut i: usize = 0;
    while i < tree.len()
        invariant
            0 <= i <= tree.len(),
            r == count(mview(tree@.subrange(0, i as int)), *u),
            r <= i,
        decreases tree.len() - i,
    {
        proof {
            let a = mview(tree@.subrange(0, i as int + 1));
            assert(a.drop_last() =~= mview(tree@.subrange(0, i as int)));
            assert(a.last() == (tree@[i as int].0@, tree@[i as int].1@));
        }
        if key_contains(&tree[i].0, u) {
            r += 1;
        }
        i += 1;
    }
    assert(tree@.subrange(0, tree.len() as int) =~= tree@);
    r
}

/// The cell that occurs in the most monomials, the smallest one on a tie.
fn greedy_unit(tree: &Vec<Monomial>) -> (u: ProveExpressionUnit)
    requires
        exists|p: int| 0 <= p < tree@.len() && (#[trigger] tree@[p]).0@.len() > 0,
    ensures
        is_greedy(mview(tree@), u),
{
    let ghost t = mview(tree@);
    let mut best: Option<ProveExpressionUnit> = None;
    let mut best_c: usize = 0;
    let mut i: usize = 0;
    while i < tree.len()
        invariant
            0 <= i <= tree.len(),
            t == mview(tree@),
            best is None ==> forall|p: int| 0 <= p < i ==> (#[trigger] tree@[p]).0@.len() == 0,
            best matches Some(b) ==> best_c == count(t, b) && best_c >= 1,
            forall|p: int, q: int| 0 <= p < i && 0 <= q < tree@[p].0@.len() ==> best is Some && count(
                t,
                #[trigger] tree@[p].0@[q],
            ) <= best_c && (count(t, tree@[p].0@[q]) == best_c ==> unit_le(best->0, tree@[p].0@[q])),
        decreases tree.len() - i,
    {
        let mut j: usize = 0;
        while j < tree[i].0.len()
            invariant
                0 <= i < tree.len(),
                0 <= j <= tree@[i as int].0@.len(),
                t == mview(tree@),
                best is None ==> forall|p: int| 0 <= p < i ==> (#[trigger] tree@[p]).0@.len() == 0,
                best is None ==> j == 0,
                best matches Some(b) ==> best_c == count(t, b) && best_c >= 1,
                forall|p: int, q: int| 0 <= p < i && 0 <= q < tree@[p].0@.len() ==> best is Some && count(
                    t,
                    #[trigger] tree@[p].0@[q],
                ) <= best_c && (count(t, tree@[p].0@[q]) == best_c ==> unit_le(best->0, tree@[p].0@[q])),
                forall|q: int| 0 <= q < j ==> best is Some && count(t, #[trigger] tree@[i as int].0@[q])
                    <= best_c && (count(t, tree@[i as int].0@[q]) == best_c ==> unit_le(
                    best->0,
                    tree@[i as int].0@[q],
                )),
            decreases tree@[i as int].0@.len() - j,
        {
            let v = tree[i].0[j];
            let c = count_with(tree, &v);
            proof {
                assert(t[i as int] == (tree@[i as int].0@, tree@[i as int].1@));
                assert(t[i as int].0.contains(v)) by {
                    assert(t[i as int].0[j as int] == v);
                }
                lemma_count_contains(t, v);
            }
            let take = match best {
                None => true,
                Some(b) => c > best_c || (c == best_c && v.less_than(&b)),
            };
            if take {
                proof {
                    if best is Some {
                        let b = best->0;
                        assert forall|p: int, q: int| 0 <= p < i && 0 <= q < tree@[p].0@.len() implies count(
                            t,
                            #[trigger] tree@[p].0@[q],
                        ) <= c && (count(t, tree@[p].0@[q]) == c ==> unit_le(v, tree@[p].0@[q])) by {
                            let w = tree@[p].0@[q];
                            if c == best_c && count(t, w) == c {
                                crate::unit::lemma_unit_le_trans(v, b, w);
                            }
                        }
                        assert forall|q: int| 0 <= q < j implies count(t, #[trigger] tree@[i as int].0@[q])
                            <= c && (count(t, tree@[i as int].0@[q]) == c ==> unit_le(
                            v,
                            tree@[i as int].0@[q],
                        )) by {
                            let w = tree@[i as int].0@[q];
                            if c == best_c && count(t, w) == c {
                                crate::unit::lemma_unit_le_trans(v, b, w);
                            }
                        }
                    }
                }
                best = Some(v);
                best_c = c;
            } else {
                proof {
                    lemma_unit_order_total(v, best->0);
                }
            }
            j += 1;
        }
        i += 1;
    }
    proof {
        let p0 = choose|p: int| 0 <= p < tree@.len() && (#[trigger] tree@[p]).0@.len() > 0;
        assert(tree@[p0].0@.len() > 0);
    }
    let u = match best {
        Some(b) => b,
        None => {
            proof {
                assert(false);
            }
            tree[0].0[0]
        },
    };
    proof {
        assert forall|v: ProveExpressionUnit| #[trigger] count(t, v) <= count(t, u) && (count(t, v) == count(t, u) ==> unit_le(u, v)) by {
            lemma_count_contains(t, v);
            if count(t, v) > 0 {
                let p = choose|p: int| 0 <= p < t.len() && (#[trigger] t[p]).0.contains(v);
                assert(t[p] == (tree@[p].0@, tree@[p].1@));
                let q = choose|q: int| 0 <= q < t[p].0.len() && t[p].0[q] == v;
                assert(tree@[p].0@[q] == v);
            }
        }
    }
    u
}

/// Number of operations (sums and products) that evaluating a tree performs.
pub open spec fn ops(e: ProveExpression) -> nat
    decreases e,
{
    match e {
        ProveExpression::Unit(_) => 0,
        ProveExpression::Y(_) => 0,
        ProveExpression::Sum(l, r) => 1 + ops(*l) + ops(*r),
        ProveExpression::Product(l, r) => 1 + ops(*l) + ops(*r),
    }
}

/// Operations of the naive plan: one product per cell of each monomial
/// (joining it to its terms in `y`), and one sum between consecutive monomials.
pub open spec fn naive_ops(t: Seq<MonoView>) -> int {
    weight(t) - 1
}

proof fn lemma_unit_pow_ops(u: ProveExpressionUnit, c: nat)
    requires
        c >= 1,
    ensures
        ops(unit_pow(u, c)) == c - 1,
    decreases c,
{
    if c > 1 {
        lemma_unit_pow_ops(u, (c - 1) as nat);
        let e = unit_pow(u, c);
        assert(ops(*e->Product_0) == 0);
        assert(ops(e) == 1 + ops(*e->Product_0) + ops(*e->Product_1));
    }
}

proof fn lemma_mono_tree_ops(k: Seq<ProveExpressionUnit>, ys: Seq<(u32, u64)>, e: ProveExpression)
    requires
        is_mono_tree(k, ys, e),
    ensures
        ops(e) == k.len(),
    decreases k.len(),
{
    if k.len() > 0 {
        let c = run_len(k);
        lemma_unit_pow_ops(k[0], c);
        lemma_mono_tree_ops(k.subrange(c as int, k.len() as int), ys, *e->Product_0);
    }
}

/// The greedy plan of a list of monomials performs no more operations than
/// the naive sum of per-monomial products.
pub proof fn lemma_plan_ops(t: Seq<MonoView>, e: ProveExpression)
    requires
        is_plan(t, e),
    ensures
        ops(e) <= naive_ops(t),
    decreases weight(t),
{
    if t.len() == 1 {
        lemma_mono_tree_ops(t[0].0, t[0].1, e);
        assert(weight(t.drop_last()) == 0);
        assert(t.last() == t[0]);
    } else {
        let u = choose|u: ProveExpressionUnit| is_greedy(t, u);
        let l = take_u(t, u);
        let r = drop_u(t, u);
        lemma_split_weight(t, u);
        assert(l.len() >= 1);
        if r.len() == 0 {
            lemma_plan_ops(l, *e->Product_1);
            assert(ops(*e->Product_0) == 0);
            assert(ops(e) == 1 + ops(*e->Product_0) + ops(*e->Product_1));
        } else {
            let h = *e->Sum_0;
            lemma_plan_ops(l, *h->Product_1);
            lemma_plan_ops(r, *e->Sum_1);
            assert(ops(*h->Product_0) == 0);
            assert(ops(h) == 1 + ops(*h->Product_0) + ops(*h->Product_1));
            assert(ops(e) == 1 + ops(h) + ops(*e->Sum_1));
        }
    }
}

/// `x` multiplied by itself `c` times.
pub open spec fn fpow_n(x: u64, c: nat) -> u64
    decreases c,
{
    if c <= 1 {
        x
    } else {
        fmul_spec(x, fpow_n(x, (c - 1) as nat))
    }
}

proof fn lemma_canonical_values(t: Seq<MonoView>, k: Seq<ProveExpressionUnit>, ys: Seq<(u32, u64)>, a: spec_fn(ProveExpressionUnit) -> u64, y: u64)
    ensures
        monos_value(t, a, y) < MODULUS,
        cell_product(k, a) < MODULUS,
        ys_value(ys, y) < MODULUS,
{
    if t.len() > 0 {
        assert(monos_value(t, a, y) == fadd_spec(monos_value(t.drop_last(), a, y), fmul_spec(ys_value(t.last().1, y), cell_product(t.last().0, a))));
    }
    if k.len() > 0 {
        assert(cell_product(k, a) == fmul_spec(a(k[0]), cell_product(k.drop_first(), a)));
    }
    if ys.len() > 0 {
        assert(ys_value(ys, y) == fadd_spec(ys_value(ys.drop_last(), y), fmul_spec(crate::eval::fpow(y, ys.last().0 as nat), ys.last().1)));
    }
}

proof fn lemma_cell_product_remove(k: Seq<ProveExpressionUnit>, u: ProveExpressionUnit, a: spec_fn(ProveExpressionUnit) -> u64)
    requires
        k.contains(u),
    ensures
        cell_product(k, a) == fmul_spec(a(u), cell_product(remove_first(k, u), a)),
    decreases k.len(),
{
    if k[0] != u {
        let d = k.drop_first();
        assert(d.contains(u)) by {
            let j = choose|j: int| 0 <= j < k.len() && k[j] == u;
            assert(d[j - 1] == u);
        }
        lemma_cell_product_remove(d, u, a);
        let rf = remove_first(d, u);
        let s2 = seq![k[0]] + rf;
        assert(s2.drop_first() =~= rf);
        assert(s2[0] == k[0]);
        assert(cell_product(s2, a) == fmul_spec(a(k[0]), cell_product(rf, a)));
        lemma_fmul_laws(a(k[0]), a(u), cell_product(rf, a));
        lemma_fmul_laws(a(u), a(k[0]), cell_product(rf, a));
    }
}

proof fn lemma_unit_pow_value(u: ProveExpressionUnit, c: nat, a: spec_fn(ProveExpressionUnit) -> u64, y: u64)
    requires
        c >= 1,
    ensures
        eval_with(unit_pow(u, c), a, y) == fpow_n(a(u), c),
    decreases c,
{
    if c > 1 {
        lemma_unit_pow_value(u, (c - 1) as nat, a, y);
        let e = unit_pow(u, c);
        assert(eval_with(*e->Product_0, a, y) == a(u));
    }
}

proof fn lemma_cell_product_run(k: Seq<ProveExpressionUnit>, c: nat, a: spec_fn(ProveExpressionUnit) -> u64)
    requires
        1 <= c <= k.len(),
        forall|p: int| 0 <= p < c ==> #[trigger] k[p] == k[0],
        canonical_assignment(a),
    ensures
        cell_product(k, a) == fmul_spec(fpow_n(a(k[0]), c), cell_product(k.subrange(c as int, k.len() as int), a)),
    decreases c,
{
    let d = k.drop_first();
    if c == 1 {
        assert(d =~= k.subrange(1, k.len() as int));
    } else {
        assert forall|p: int| 0 <= p < c - 1 implies #[trigger] d[p] == d[0] by {
            assert(d[p] == k[p + 1]);
            assert(k[1] == k[0]);
        }
        lemma_cell_product_run(d, (c - 1) as nat, a);
        assert(d.subrange(c - 1, d.len() as int) =~= k.subrange(c as int, k.len() as int));
        assert(d[0] == k[0]);
        let x = a(k[0]);
        let pw = fpow_n(x, (c - 1) as nat);
        let rest = cell_product(k.subrange(c as int, k.len() as int), a);
        lemma_fmul_laws(x, pw, rest);
    }
}

proof fn lemma_run_prefix(k: Seq<ProveExpressionUnit>)
    requires
        k.len() > 0,
    ensures
        1 <= run_len(k) <= k.len(),
        forall|p: int| 0 <= p < run_len(k) ==> #[trigger] k[p] == k[0],
    decreases k.len(),
{
    if k.len() >= 2 && k[1] == k[0] {
        let d = k.drop_first();
        lemma_run_prefix(d);
        assert forall|p: int| 0 <= p < run_len(k) implies #[trigger] k[p] == k[0] by {
            if p > 0 {
                assert(k[p] == d[p - 1]);
            }
        }
    }
}

proof fn lemma_mono_tree_value(k: Seq<ProveExpressionUnit>, ys: Seq<(u32, u64)>, e: ProveExpression, a: spec_fn(ProveExpressionUnit) -> u64, y: u64)
    requires
        is_mono_tree(k, ys, e),
        canonical_assignment(a),
    ensures
        eval_with(e, a, y) == fmul_spec(ys_value(ys, y), cell_product(k, a)),
    decreases k.len(),
{
    lemma_canonical_values(Seq::empty(), k, ys, a, y);
    if k.len() == 0 {
        let v = ys_value(ys, y);
        assert(fmul_spec(v, 1) == v) by {
            vstd::arithmetic::div_mod::lemma_small_mod(v as nat, MODULUS as nat);
        }
    } else {
        let c = run_len(k);
        lemma_run_prefix(k);
        let rest = k.subrange(c as int, k.len() as int);
        lemma_mono_tree_value(rest, ys, *e->Product_0, a, y);
        lemma_unit_pow_value(k[0], c, a, y);
        lemma_cell_product_run(k, c, a);
        let v = ys_value(ys, y);
        let cr = cell_product(rest, a);
        let pw = fpow_n(a(k[0]), c);
        lemma_fmul_laws(v, cr, pw);
        lemma_fmul_laws(cr, pw, 0);
        lemma_fmul_laws(pw, cr, 0);
    }
}

proof fn lemma_monos_split(t: Seq<MonoView>, u: ProveExpressionUnit, a: spec_fn(ProveExpressionUnit) -> u64, y: u64)
    requires
        canonical_assignment(a),
    ensures
        monos_value(t, a, y) == fadd_spec(fmul_spec(a(u), monos_value(take_u(t, u), a, y)), monos_value(drop_u(t, u), a, y)),
    decreases t.len(),
{
    let au = a(u);
    if t.len() == 0 {
        lemma_fmul_laws(au, 0, 0);
        lemma_fadd_laws(0, 0, 0);
    } else {
        let t0 = t.drop_last();
        lemma_monos_split(t0, u, a, y);
        let lt = take_u(t0, u);
        let dt = drop_u(t0, u);
        let tv = monos_value(lt, a, y);
        let dv = monos_value(dt, a, y);
        let m = t.last();
        let ysv = ys_value(m.1, y);
        let v = fmul_spec(ysv, cell_product(m.0, a));
        lemma_canonical_values(dt, m.0, m.1, a, y);
        lemma_canonical_values(lt, m.0, m.1, a, y);
        if m.0.contains(u) {
            let rf = remove_first(m.0, u);
            let nm = (rf, m.1);
            assert(lt.push(nm).drop_last() =~= lt);
            lemma_cell_product_remove(m.0, u, a);
            let crf = cell_product(rf, a);
            let w = fmul_spec(ysv, crf);
            // monos_value(t) = (au*tv + dv) + ysv*(au*crf)
            // right side = au*(tv + w) + dv
            lemma_fmul_laws(au, tv, w);
            lemma_fmul_laws(ysv, au, crf);
            lemma_fmul_laws(au, ysv, crf);
            let x = fmul_spec(au, tv);
            let z = fmul_spec(au, w);
            lemma_fadd_laws(x, dv, z);
            lemma_fadd_laws(dv, z, 0);
            lemma_fadd_laws(x, z, dv);
        } else {
            assert(dt.push(m).drop_last() =~= dt);
            let x = fmul_spec(au, tv);
            lemma_fadd_laws(x, dv, v);
        }
    }
}

/// Evaluating the greedy plan of a list of monomials gives the value of the
/// monomials themselves, at every assignment of scalars to cells and every `y`.
pub proof fn lemma_plan_value(t: Seq<MonoView>, e: ProveExpression, a: spec_fn(ProveExpressionUnit) -> u64, y: u64)
    requires
        is_plan(t, e),
        canonical_assignment(a),
    ensures
        eval_with(e, a, y) == monos_value(t, a, y),
    decreases weight(t),
{
    if t.len() == 1 {
        lemma_mono_tree_value(t[0].0, t[0].1, e, a, y);
        assert(t.drop_last().len() == 0);
        assert(t.last() == t[0]);
        let v = fmul_spec(ys_value(t[0].1, y), cell_product(t[0].0, a));
        lemma_fadd_laws(v, 0, 0);
        lemma_fadd_laws(0, v, 0);
        lemma_canonical_values(t, t[0].0, t[0].1, a, y);
        assert(v < MODULUS);
        assert(monos_value(t.drop_last(), a, y) == 0);
        assert(monos_value(t, a, y) == fadd_spec(0, v));
    } else {
        let u = choose|u: ProveExpressionUnit| is_greedy(t, u);
        let l = take_u(t, u);
        let r = drop_u(t, u);
        lemma_monos_split(t, u, a, y);
        if r.len() == 0 {
            lemma_plan_value(l, *e->Product_1, a, y);
            assert(eval_with(*e->Product_0, a, y) == a(u));
            let x = fmul_spec(a(u), monos_value(l, a, y));
            assert(x < MODULUS);
            lemma_fadd_laws(x, 0, 0);
            assert(monos_value(r, a, y) == 0);
            assert(eval_with(e, a, y) == x);
        } else {
            let h = *e->Sum_0;
            lemma_plan_value(l, *h->Product_1, a, y);
            lemma_plan_value(r, *e->Sum_1, a, y);
            assert(eval_with(*h->Product_0, a, y) == a(u));
            assert(eval_with(h, a, y) == fmul_spec(a(u), monos_value(l, a, y)));
            assert(eval_with(e, a, y) == fadd_spec(eval_with(h, a, y), monos_value(r, a, y)));
        }
    }
}

/// Re-factoring the normal form of a tree keeps its value: the greedy plan of
/// any normal form `c` of `e` evaluates to the value of `e`, at every
/// assignment of scalars to cells and every `y`.
pub proof fn lemma_plan_of_normal_form(e: ProveExpression, c: Seq<Monomial>, p: ProveExpression, a: spec_fn(ProveExpressionUnit) -> u64, y: u64)
    requires
        normal_form_of(e, c),
        is_plan(mview(c), p),
        canonical_assignment(a),
    ensures
        eval_with(p, a, y) == eval_with(e, a, y),
{
    lemma_plan_value(mview(c), p, a, y);
    assert(monos_value(mview(c), a, y) == eval_with(e, a, y));
}

/// The same at every point of a domain of column values: the plan and the
/// tree evaluate alike everywhere.
pub proof fn lemma_plan_of_normal_form_at(e: ProveExpression, c: Seq<Monomial>, p: ProveExpression, cols: Columns, y: u64, scale: usize, n: nat, i: int)
    requires
        normal_form_of(e, c),
        is_plan(mview(c), p),
    ensures
        eval_at(p, cols, y, scale, n, i) == eval_at(e, cols, y, scale, n, i),
{
    let a = cell_at(cols, scale, n, i);
    assert forall|u: ProveExpressionUnit| #[trigger] a(u) < MODULUS by {
        let x = cols.column(u)[crate::eval::rotated(i, u.rot(), scale, n)];
        assert(x % MODULUS < MODULUS);
    }
    lemma_plan_of_normal_form(e, c, p, a, y);
}

proof fn lemma_unit_pow_occurs(u: ProveExpressionUnit, c: nat, x: ProveExpressionUnit)
    requires
        occurs(unit_pow(u, c), x),
    ensures
        x == u,
    decreases c,
{
    if c > 1 {
        let e = unit_pow(u, c);
        if !occurs(*e->Product_0, x) {
            lemma_unit_pow_occurs(u, (c - 1) as nat, x);
        }
    }
}

proof fn lemma_mono_tree_occurs(k: Seq<ProveExpressionUnit>, ys: Seq<(u32, u64)>, e: ProveExpression, x: ProveExpressionUnit)
    requires
        is_mono_tree(k, ys, e),
        occurs(e, x),
    ensures
        k.contains(x),
    decreases k.len(),
{
    if k.len() > 0 {
        let c = run_len(k);
        let rest = k.subrange(c as int, k.len() as int);
        if occurs(*e->Product_0, x) {
            lemma_mono_tree_occurs(rest, ys, *e->Product_0, x);
            let j = choose|j: int| 0 <= j < rest.len() && rest[j] == x;
            assert(k[j + c] == x);
        } else {
            lemma_unit_pow_occurs(k[0], c, x);
            assert(k[0] == x);
        }
    }
}

proof fn lemma_remove_first_contains(s: Seq<ProveExpressionUnit>, u: ProveExpressionUnit, x: ProveExpressionUnit)
    requires
        s.contains(u),
        remove_first(s, u).contains(x),
    ensures
        s.contains(x),
{
    let i = lemma_first_index(s, u);
    lemma_remove_first(s, i, u);
    let r = s.remove(i);
    let j = choose|j: int| 0 <= j < r.len() && r[j] == x;
    if j < i {
        assert(s[j] == x);
    } else {
        assert(s[j + 1] == x);
    }
}

/// Every cell that occurs in a plan occurs in one of its monomials.
proof fn lemma_plan_occurs(t: Seq<MonoView>, e: ProveExpression, x: ProveExpressionUnit)
    requires
        is_plan(t, e),
        occurs(e, x),
    ensures
        exists|i: int| 0 <= i < t.len() && (#[trigger] t[i]).0.contains(x),
    decreases weight(t),
{
    if t.len() == 1 {
        lemma_mono_tree_occurs(t[0].0, t[0].1, e, x);
    } else {
        let u = choose|u: ProveExpressionUnit| is_greedy(t, u);
        let l = take_u(t, u);
        let r = drop_u(t, u);
        let (head, right) = if r.len() == 0 { (e, e) } else { (*e->Sum_0, *e->Sum_1) };
        if r.len() > 0 && occurs(right, x) {
            lemma_plan_occurs(r, right, x);
            let q = choose|q: int| 0 <= q < r.len() && (#[trigger] r[q]).0.contains(x);
            lemma_drop_source(t, u, q);
        } else if occurs(*head->Product_0, x) {
            assert(x == u);
            lemma_count_contains(t, u);
        } else {
            assert(occurs(head, x));
            assert(occurs(*head->Product_1, x));
            lemma_plan_occurs(l, *head->Product_1, x);
            let q = choose|q: int| 0 <= q < l.len() && (#[trigger] l[q]).0.contains(x);
            lemma_take_source(t, u, q);
            let p = choose|p: int| 0 <= p < t.len() && (#[trigger] t[p]).0.contains(u) && take_u(t, u)[q] == (
                remove_first(t[p].0, u), t[p].1);
            lemma_remove_first_contains(t[p].0, u, x);
        }
    }
}

/// The plan of a normal form of `e` reads only cells of `e`: columns that
/// cover `e` cover the plan.
pub proof fn lemma_plan_covers(e: ProveExpression, c: Seq<Monomial>, p: ProveExpression, cols: Columns, n: nat)
    requires
        cols.covers(e, n),
        normal_form_of(e, c),
        is_plan(mview(c), p),
    ensures
        cols.covers(p, n),
{
    lemma_covers_occurs(cols, e, n);
    lemma_covers_occurs(cols, p, n);
    lemma_keys_cells(e, c);
    assert forall|x: ProveExpressionUnit| #[trigger] occurs(p, x) implies cols.has_cell(x, n) by {
        lemma_plan_occurs(mview(c), p, x);
        let i = choose|i: int| 0 <= i < mview(c).len() && (#[trigger] mview(c)[i]).0.contains(x);
        assert(mview(c)[i].0 == c[i].0@);
        crate::canonical::lemma_lookup_at(c, i);
        assert(lookup(c, c[i].0@) is Some);
        assert(occurs(e, x));
    }
}

impl ProveExpression {
    /// A `Y` leaf holding the given terms.
    pub fn ___reconstruct(coeff: Vec<(u32, u64)>) -> (r: Self)
        ensures
            r is Y,
            r->Y_0@ == coeff@,
    {
        ProveExpression::Y(coeff)
    }

    /// The cell `u` raised to the power `c`, as a chain of products.
    pub fn ____reconstruct(u: ProveExpressionUnit, c: usize) -> (r: Self)
        requires
            c >= 1,
        ensures
            r == unit_pow(u, c as nat),
        decreases c,
    {
        if c == 1 {
            ProveExpression::Unit(u)
        } else {
            ProveExpression::Product(
                Box::new(ProveExpression::Unit(u)),
                Box::new(Self::____reconstruct(u, c - 1)),
            )
        }
    }

    /// Multiplies out one monomial: its terms in `y`, times each run of equal
    /// cells as a power.
    pub fn __reconstruct(us: Vec<ProveExpressionUnit>, coeff: Vec<(u32, u64)>) -> (r: Self)
        ensures
            is_mono_tree(us@, coeff@, r),
        decreases us@.len(),
    {
        if us.len() == 0 {
            Self::___reconstruct(coeff)
        } else {
            let mut us = us;
            let u = us[0];
            let mut c: usize = 1;
            while c < us.len() && us[c] == u
                invariant
                    1 <= c <= us.len(),
                    u == us@[0],
                    forall|p: int| 0 <= p < c ==> #[trigger] us@[p] == u,
                decreases us.len() - c,
            {
                c += 1;
            }
            proof {
                lemma_run_len(us@, c as int);
            }
            let rest = us.split_off(c);
            let l = Self::__reconstruct(rest, coeff);
            ProveExpression::Product(Box::new(l), Box::new(Self::____reconstruct(u, c)))
        }
    }

    /// The greedy evaluation plan of a non-empty list of monomials with
    /// sorted, pairwise distinct keys.
    pub fn _reconstruct(tree: Vec<Monomial>) -> (r: Self)
        requires
            tree.len() >= 1,
            keys_ok(mview(tree@)),
        ensures
            is_plan(mview(tree@), r),
        decreases weight(mview(tree@)),
    {
        let ghost t = mview(tree@);
        let ghost tree0 = tree@;
        let mut tree = tree;
        if tree.len() == 1 {
            let (k, ys) = tree.pop().unwrap();
            proof {
                assert(t[0] == (k@, ys@));
            }
            return Self::__reconstruct(k, ys);
        }
        proof {
            assert(t[0] == (tree@[0].0@, tree@[0].1@));
            assert(t[1] == (tree@[1].0@, tree@[1].1@));
            assert(t[0].0 != t[1].0);
            if tree@[0].0@.len() == 0 && tree@[1].0@.len() == 0 {
                assert(t[0].0 =~= t[1].0);
            }
            assert(tree@[0].0@.len() > 0 || tree@[1].0@.len() > 0);
        }
        let u = greedy_unit(&tree);
        let n = tree.len();
        let mut l: Vec<Monomial> = Vec::new();
        let mut r: Vec<Monomial> = Vec::new();
        let mut k: usize = 0;
        while tree.len() > 0
            invariant
                tree@.len() + k == n,
                n == tree0.len(),
                t == mview(tree0),
                tree@ == tree0.subrange(k as int, n as int),
                mview(l@) == take_u(t.subrange(0, k as int), u),
                mview(r@) == drop_u(t.subrange(0, k as int), u),
            decreases tree@.len(),
        {
            let ghost before = tree@;
            let (mut key, ys) = tree.remove(0);
            let ghost m = (key@, ys@);
            proof {
                assert(before[0] == tree0[k as int]);
                assert(t[k as int] == m);
                assert(tree@ =~= tree0.subrange(k as int + 1, n as int));
                let s1 = t.subrange(0, k as int + 1);
                assert(s1.drop_last() =~= t.subrange(0, k as int));
                assert(s1.last() == m);
            }
            if key_contains(&key, &u) {
                let mut idx: usize = 0;
                while key[idx] != u
                    invariant
                        key@ == m.0,
                        m.0.contains(u),
                        0 <= idx < key.len(),
                        forall|p: int| 0 <= p < idx ==> key@[p] != u,
                    decreases key.len() - idx,
                {
                    proof {
                        if idx + 1 >= key.len() {
                            let w = choose|w: int| 0 <= w < key@.len() && key@[w] == u;
                            assert(w >= idx + 1 || key@[w] != u);
                        }
                    }
                    idx += 1;
                }
                proof {
                    lemma_remove_first(key@, idx as int, u);
                }
                key.remove(idx);
                let ghost lb = l@;
                l.push((key, ys));
                proof {
                    assert(mview(l@) =~= mview(lb).push((remove_first(m.0, u), m.1)));
                }
            } else {
                let ghost rb = r@;
                r.push((key, ys));
                proof {
                    assert(mview(r@) =~= mview(rb).push(m));
                }
            }
            k += 1;
        }
        proof {
            assert(t.subrange(0, n as int) =~= t);
            lemma_split_weight(t, u);
            lemma_keys_ok_split(t, u);
            let u2 = choose|u2: ProveExpressionUnit| is_greedy(t, u2);
            lemma_greedy_unique(t, u, u2);
        }
        let left = Self::_reconstruct(l);
        let head = ProveExpression::Product(Box::new(ProveExpression::Unit(u)), Box::new(left));
        if r.len() == 0 {
            head
        } else {
            let right = Self::_reconstruct(r);
            ProveExpression::Sum(Box::new(head), Box::new(right))
        }
    }

    /// The greedy evaluation plan of a non-empty canonical form.
    pub fn reconstruct(tree: Vec<Monomial>) -> (r: Self)
        requires
            tree.len() >= 1,
            is_canonical(tree@),
        ensures
            is_plan(mview(tree@), r),
    {
        proof {
            let t = mview(tree@);
            assert forall|i: int| 0 <= i < t.len() implies sorted_units((#[trigger] t[i]).0) by {
                assert(t[i] == (tree@[i].0@, tree@[i].1@));
            }
            assert forall|i: int, j: int| 0 <= i < j < t.len() implies (#[trigger] t[i]).0 != (#[trigger] t[j]).0 by {
                assert(t[i] == (tree@[i].0@, tree@[i].1@));
                assert(t[j] == (tree@[j].0@, tree@[j].1@));
            }
        }
        Self::_reconstruct(tree)
    }
}

} // verus!
