//! Canonical form of an expression tree: a list of monomials (sorted cell
//! sequences, pairwise distinct), each with its polynomial in `y`.
use vstd::prelude::*;
use crate::expression::ProveExpression;
use crate::eval::ys_value;
use crate::field::{fadd_spec, fmul_spec, lemma_fadd_laws, lemma_fmul_laws, MODULUS};
use crate::monomial::{canonical_assignment, cell_product, is_sorted_union, keys_equal, lemma_sorted_unique, merge_keys};
use crate::terms::{add_opt, coeff_of, conv_coeff, conv_has, distinct_orders, lemma_mul4, lemma_value_canonical};
use crate::eval::{eval_with, occurs};
use crate::unit::{sorted_units, ProveExpressionUnit};

verus! {

/// One monomial of a canonical form: its cells and its polynomial in `y`.
pub type Monomial = (Vec<ProveExpressionUnit>, Vec<(u32, u64)>);

/// A monomial as mathematical values: its cells and its terms in `y`.
pub type MonoView = (Seq<ProveExpressionUnit>, Seq<(u32, u64)>);

/// The mathematical values of a list of monomials.
pub open spec fn mview(t: Seq<Monomial>) -> Seq<MonoView> {
    t.map_values(|m: Monomial| (m.0@, m.1@))
}

/// Value of a list of monomials: the sum over its monomials of the value of
/// the terms in `y` times the product of the cells.
pub open spec fn monos_value(t: Seq<MonoView>, a: spec_fn(ProveExpressionUnit) -> u64, y: u64) -> u64
    decreases t.len(),
{
    if t.len() == 0 {
        0
    } else {
        fadd_spec(monos_value(t.drop_last(), a, y), fmul_spec(ys_value(t.last().1, y), cell_product(t.last().0, a)))
    }
}

/// The polynomial in `y` of monomial `k`, if `k` occurs.
pub open spec fn lookup(c: Seq<Monomial>, k: Seq<ProveExpressionUnit>) -> Option<Seq<(u32, u64)>>
    decreases c.len(),
{
    if c.len() == 0 {
        None
    } else if c.last().0@ == k {
        Some(c.last().1@)
    } else {
        lookup(c.drop_last(), k)
    }
}

/// The coefficient of `k * y^o` in a canonical form, if present.
pub open spec fn cval(c: Seq<Monomial>, k: Seq<ProveExpressionUnit>, o: u32) -> Option<u64> {
    match lookup(c, k) {
        Some(ys) => coeff_of(ys, o),
        None => None,
    }
}

/// Monomials are sorted, pairwise distinct, and their orders of `y` distinct.
pub open spec fn is_canonical(c: Seq<Monomial>) -> bool {
    &&& forall|i: int| 0 <= i < c.len() ==> sorted_units((#[trigger] c[i]).0@) && distinct_orders(c[i].1@)
    &&& forall|i: int, j: int| 0 <= i < j < c.len() ==> (#[trigger] c[i]).0@ != (#[trigger] c[j]).0@
}

/// Every order of `y` in the canonical form is at most `m`.
pub open spec fn orders_within(c: Seq<Monomial>, m: int) -> bool {
    forall|i: int, t: int| 0 <= i < c.len() && 0 <= t < c[i].1@.len() ==> (#[trigger] c[i].1@[t]).0 <= m
}

/// The contribution of the pair of monomials `a`, `b` to `k * y^o` in their product.
pub open spec fn pair_term(a: Monomial, b: Monomial, k: Seq<ProveExpressionUnit>, o: u32) -> Option<u64> {
    if is_sorted_union(a.0@, b.0@, k) {
        conv_coeff(a.1@, b.1@, o)
    } else {
        None
    }
}

/// `acc` with the contributions of `a` paired with each monomial of `r` added in turn.
pub open spec fn fold_row(acc: Option<u64>, a: Monomial, r: Seq<Monomial>, k: Seq<ProveExpressionUnit>, o: u32) -> Option<u64>
    decreases r.len(),
{
    if r.len() == 0 {
        acc
    } else {
        add_opt(fold_row(acc, a, r.drop_last(), k, o), pair_term(a, r.last(), k, o))
    }
}

/// The coefficient of `k * y^o` in the product of two canonical forms: the
/// contributions of all pairs of monomials, added row by row.
pub open spec fn cross(l: Seq<Monomial>, r: Seq<Monomial>, k: Seq<ProveExpressionUnit>, o: u32) -> Option<u64>
    decreases l.len(),
{
    if l.len() == 0 {
        None
    } else {
        fold_row(cross(l.drop_last(), r, k, o), l.last(), r, k, o)
    }
}

/// Whether every `Y` leaf of a tree has at least one term.
pub open spec fn ys_nonempty(e: ProveExpression) -> bool
    decreases e,
{
    match e {
        ProveExpression::Unit(_) => true,
        ProveExpression::Sum(l, r) => ys_nonempty(*l) && ys_nonempty(*r),
        ProveExpression::Product(l, r) => ys_nonempty(*l) && ys_nonempty(*r),
        ProveExpression::Y(ys) => ys@.len() > 0,
    }
}

/// Whether every monomial of a canonical form has at least one term.
pub open spec fn terms_nonempty(c: Seq<Monomial>) -> bool {
    forall|i: int| 0 <= i < c.len() ==> (#[trigger] c[i]).1@.len() > 0
}

/// Whether every `Y` leaf of a tree has distinct orders.
pub open spec fn terms_wf(e: ProveExpression) -> bool
    decreases e,
{
    match e {
        ProveExpression::Unit(_) => true,
        ProveExpression::Sum(l, r) => terms_wf(*l) && terms_wf(*r),
        ProveExpression::Product(l, r) => terms_wf(*l) && terms_wf(*r),
        ProveExpression::Y(ys) => distinct_orders(ys@),
    }
}

/// Largest order of `y` in a term list (zero when empty).
pub open spec fn max_in(ys: Seq<(u32, u64)>) -> int
    decreases ys.len(),
{
    if ys.len() == 0 {
        0
    } else {
        let m = max_in(ys.drop_last());
        if ys.last().0 > m { ys.last().0 as int } else { m }
    }
}

/// Bound on the orders of `y` that normalisation produces: a product adds the
/// bounds of its sides.
pub open spec fn max_order(e: ProveExpression) -> int
    decreases e,
{
    match e {
        ProveExpression::Unit(_) => 0,
        ProveExpression::Sum(l, r) => {
            let a = max_order(*l);
            let b = max_order(*r);
            if a > b { a } else { b }
        },
        ProveExpression::Product(l, r) => max_order(*l) + max_order(*r),
        ProveExpression::Y(ys) => max_in(ys@),
    }
}

/// What the canonical form `c` of a tree `e` holds, coefficient by coefficient:
/// a cell is the monomial of that cell with coefficient one; a `Y` leaf is the
/// empty monomial with the leaf's terms; a sum adds the canonical forms of its
/// sides; a product adds up, over all pairs of monomials of its sides, the
/// product of their polynomials at the merged monomial.
pub open spec fn denotes(e: ProveExpression, c: Seq<Monomial>) -> bool
    decreases e,
{
    match e {
        ProveExpression::Unit(u) => {
            &&& forall|k: Seq<ProveExpressionUnit>, o: u32|
                #[trigger] cval(c, k, o) == if k == seq![u] && o == 0 { Some(1u64) } else { None }
            &&& forall|k: Seq<ProveExpressionUnit>| #[trigger] lookup(c, k) is Some <==> k == seq![u]
        },
        ProveExpression::Y(ys) => {
            &&& forall|k: Seq<ProveExpressionUnit>, o: u32|
                #[trigger] cval(c, k, o) == if k == Seq::<ProveExpressionUnit>::empty() {
                    coeff_of(ys@, o)
                } else {
                    None
                }
            &&& forall|k: Seq<ProveExpressionUnit>| #[trigger] lookup(c, k) is Some <==> k
                == Seq::<ProveExpressionUnit>::empty()
        },
        ProveExpression::Sum(l, r) => exists|cl: Seq<Monomial>, cr: Seq<Monomial>|
            #[trigger] sum_of(c, cl, cr) && denotes(*l, cl) && denotes(*r, cr) && is_canonical(cl)
                && is_canonical(cr),
        ProveExpression::Product(l, r) => exists|cl: Seq<Monomial>, cr: Seq<Monomial>|
            #[trigger] product_of(c, cl, cr) && denotes(*l, cl) && denotes(*r, cr) && is_canonical(cl)
                && is_canonical(cr),
    }
}

/// `c` holds, coefficient by coefficient, the sum of `l` and `r`, and its
/// monomials are those of `l` and those of `r`.
pub open spec fn sum_of(c: Seq<Monomial>, l: Seq<Monomial>, r: Seq<Monomial>) -> bool {
    &&& forall|k: Seq<ProveExpressionUnit>, o: u32| #[trigger] cval(c, k, o) == add_opt(cval(l, k, o), cval(r, k, o))
    &&& forall|k: Seq<ProveExpressionUnit>| #[trigger] lookup(c, k) is Some <==> (lookup(l, k) is Some || lookup(r, k) is Some)
}

/// `k` is the sorted union of a monomial of `l` and one of `r`.
pub open spec fn pair_key(l: Seq<Monomial>, r: Seq<Monomial>, k: Seq<ProveExpressionUnit>) -> bool {
    exists|i: int, j: int| 0 <= i < l.len() && 0 <= j < r.len() && is_sorted_union(#[trigger] l[i].0@, #[trigger] r[j].0@, k)
}

/// `k` is the sorted union of `a`'s cells and those of a monomial of `r`.
pub open spec fn row_key(a: Monomial, r: Seq<Monomial>, k: Seq<ProveExpressionUnit>) -> bool {
    exists|j: int| 0 <= j < r.len() && is_sorted_union(a.0@, #[trigger] r[j].0@, k)
}

/// `c` holds, coefficient by coefficient, the product of `l` and `r`, and its
/// monomials are the sorted unions of a monomial of `l` and one of `r`.
pub open spec fn product_of(c: Seq<Monomial>, l: Seq<Monomial>, r: Seq<Monomial>) -> bool {
    &&& forall|k: Seq<ProveExpressionUnit>, o: u32| #[trigger] cval(c, k, o) == cross(l, r, k, o)
    &&& forall|k: Seq<ProveExpressionUnit>| #[trigger] lookup(c, k) is Some <==> pair_key(l, r, k)
}

/// Summing two canonical forms gives the same coefficients in either order:
/// the canonical form of `Sum(a, b)` and that of `Sum(b, a)`, built from the
/// same canonical forms of `a` and `b`, agree on every monomial and order.
pub proof fn lemma_sum_of_commutes(c1: Seq<Monomial>, c2: Seq<Monomial>, a: Seq<Monomial>, b: Seq<Monomial>)
    requires
        sum_of(c1, a, b),
        sum_of(c2, b, a),
    ensures
        forall|k: Seq<ProveExpressionUnit>, o: u32| #[trigger] cval(c1, k, o) == cval(c2, k, o),
{
    assert forall|k: Seq<ProveExpressionUnit>, o: u32| #[trigger] cval(c1, k, o) == cval(c2, k, o) by {
        assert(cval(c1, k, o) == add_opt(cval(a, k, o), cval(b, k, o)));
        assert(cval(c2, k, o) == add_opt(cval(b, k, o), cval(a, k, o)));
    }
}

/// What normalisation guarantees of its result `c` for a tree `e`: `c` is
/// canonical and not empty, holds the coefficients that [`denotes`] gives,
/// and has the value of `e` at every assignment of scalars to cells and every `y`.
pub open spec fn normal_form_of(e: ProveExpression, c: Seq<Monomial>) -> bool {
    &&& is_canonical(c)
    &&& c.len() >= 1
    &&& denotes(e, c)
    &&& forall|a: spec_fn(ProveExpressionUnit) -> u64, y: u64| canonical_assignment(a)
        ==> #[trigger] monos_value(mview(c), a, y) == eval_with(e, a, y)
}

/// The normal forms of `Sum(a, b)` and of `Sum(b, a)` have the same value at
/// every assignment of scalars to cells and every `y`.
pub proof fn lemma_swapped_sum_same_value(a: ProveExpression, b: ProveExpression, c1: Seq<Monomial>, c2: Seq<Monomial>, v: spec_fn(ProveExpressionUnit) -> u64, y: u64)
    requires
        normal_form_of(ProveExpression::Sum(Box::new(a), Box::new(b)), c1),
        normal_form_of(ProveExpression::Sum(Box::new(b), Box::new(a)), c2),
        canonical_assignment(v),
    ensures
        monos_value(mview(c1), v, y) == monos_value(mview(c2), v, y),
{
    assert(monos_value(mview(c1), v, y) == eval_with(ProveExpression::Sum(Box::new(a), Box::new(b)), v, y));
    assert(monos_value(mview(c2), v, y) == eval_with(ProveExpression::Sum(Box::new(b), Box::new(a)), v, y));
    lemma_fadd_laws(eval_with(a, v, y), eval_with(b, v, y), 0);
}

/// The normal forms of `(a * b) * c` and of `a * (b * c)` have the same value
/// at every assignment of scalars to cells and every `y`.
pub proof fn lemma_regrouped_product_same_value(
    a: ProveExpression,
    b: ProveExpression,
    c: ProveExpression,
    c1: Seq<Monomial>,
    c2: Seq<Monomial>,
    v: spec_fn(ProveExpressionUnit) -> u64,
    y: u64,
)
    requires
        normal_form_of(
            ProveExpression::Product(Box::new(ProveExpression::Product(Box::new(a), Box::new(b))), Box::new(c)),
            c1,
        ),
        normal_form_of(
            ProveExpression::Product(Box::new(a), Box::new(ProveExpression::Product(Box::new(b), Box::new(c)))),
            c2,
        ),
        canonical_assignment(v),
    ensures
        monos_value(mview(c1), v, y) == monos_value(mview(c2), v, y),
{
    let ab = ProveExpression::Product(Box::new(a), Box::new(b));
    let bc = ProveExpression::Product(Box::new(b), Box::new(c));
    let e1 = ProveExpression::Product(Box::new(ab), Box::new(c));
    let e2 = ProveExpression::Product(Box::new(a), Box::new(bc));
    assert(monos_value(mview(c1), v, y) == eval_with(e1, v, y));
    assert(monos_value(mview(c2), v, y) == eval_with(e2, v, y));
    assert(eval_with(ab, v, y) == fmul_spec(eval_with(a, v, y), eval_with(b, v, y)));
    assert(eval_with(bc, v, y) == fmul_spec(eval_with(b, v, y), eval_with(c, v, y)));
    lemma_fmul_laws(eval_with(a, v, y), eval_with(b, v, y), eval_with(c, v, y));
}

/// Every cell of every monomial of a normal form of `e` occurs in `e`.
pub proof fn lemma_keys_cells(e: ProveExpression, c: Seq<Monomial>)
    requires
        denotes(e, c),
        is_canonical(c),
    ensures
        forall|k: Seq<ProveExpressionUnit>, x: ProveExpressionUnit| lookup(c, k) is Some && #[trigger] k.contains(x) ==> occurs(e, x),
    decreases e,
{
    broadcast use vstd::seq_lib::group_to_multiset_ensures, vstd::multiset::group_multiset_axioms;
    match e {
        ProveExpression::Unit(u) => {
            assert forall|k: Seq<ProveExpressionUnit>, x: ProveExpressionUnit| lookup(c, k) is Some && #[trigger] k.contains(x) implies occurs(e, x) by {
                assert(k == seq![u]);
                let j = choose|j: int| 0 <= j < k.len() && k[j] == x;
                assert(k[j] == u);
            }
        },
        ProveExpression::Y(_) => {
            assert forall|k: Seq<ProveExpressionUnit>, x: ProveExpressionUnit| lookup(c, k) is Some && #[trigger] k.contains(x) implies occurs(e, x) by {
                assert(k.len() == 0);
            }
        },
        ProveExpression::Sum(l, r) => {
            let (cl, cr) = choose|cl: Seq<Monomial>, cr: Seq<Monomial>| #[trigger] sum_of(c, cl, cr) && denotes(*l, cl) && denotes(*r, cr)
                && is_canonical(cl) && is_canonical(cr);
            lemma_keys_cells(*l, cl);
            lemma_keys_cells(*r, cr);
            assert forall|k: Seq<ProveExpressionUnit>, x: ProveExpressionUnit| lookup(c, k) is Some && #[trigger] k.contains(x) implies occurs(e, x) by {
                if lookup(cl, k) is Some {
                    assert(occurs(*l, x));
                } else {
                    assert(occurs(*r, x));
                }
            }
        },
        ProveExpression::Product(l, r) => {
            let (cl, cr) = choose|cl: Seq<Monomial>, cr: Seq<Monomial>| #[trigger] product_of(c, cl, cr) && denotes(*l, cl) && denotes(*r, cr)
                && is_canonical(cl) && is_canonical(cr);
            lemma_keys_cells(*l, cl);
            lemma_keys_cells(*r, cr);
            assert forall|k: Seq<ProveExpressionUnit>, x: ProveExpressionUnit| lookup(c, k) is Some && #[trigger] k.contains(x) implies occurs(e, x) by {
                assert(pair_key(cl, cr, k));
                let (i, j) = choose|i: int, j: int| 0 <= i < cl.len() && 0 <= j < cr.len() && is_sorted_union(#[trigger] cl[i].0@, #[trigger] cr[j].0@, k);
                let a = cl[i].0@;
                let b = cr[j].0@;
                assert(k.to_multiset().count(x) > 0);
                assert(k.to_multiset().count(x) == a.to_multiset().count(x) + b.to_multiset().count(x));
                lemma_lookup_at(cl, i);
                lemma_lookup_at(cr, j);
                if a.to_multiset().count(x) > 0 {
                    assert(a.contains(x));
                    assert(occurs(*l, x));
                } else {
                    assert(b.contains(x));
                    assert(occurs(*r, x));
                }
            }
        },
    }
}

/// Greatest number of cells that one monomial of a tree's normal form can
/// hold: one per cell, the larger side of a sum, both sides of a product.
pub open spec fn cell_degree(e: ProveExpression) -> nat
    decreases e,
{
    match e {
        ProveExpression::Unit(_) => 1,
        ProveExpression::Sum(l, r) => {
            let a = cell_degree(*l);
            let b = cell_degree(*r);
            if a > b { a } else { b }
        },
        ProveExpression::Product(l, r) => cell_degree(*l) + cell_degree(*r),
        ProveExpression::Y(_) => 0,
    }
}

/// No monomial of a normal form of `e` holds more cells than
/// [`cell_degree`] allows.
pub proof fn lemma_key_len(e: ProveExpression, c: Seq<Monomial>)
    requires
        denotes(e, c),
        is_canonical(c),
    ensures
        forall|k: Seq<ProveExpressionUnit>| #[trigger] lookup(c, k) is Some ==> k.len() <= cell_degree(e),
    decreases e,
{
    broadcast use vstd::seq_lib::group_to_multiset_ensures, vstd::multiset::group_multiset_axioms;
    match e {
        ProveExpression::Unit(u) => {
            assert forall|k: Seq<ProveExpressionUnit>| #[trigger] lookup(c, k) is Some implies k.len() <= cell_degree(e) by {
                assert(k == seq![u]);
            }
        },
        ProveExpression::Y(_) => {},
        ProveExpression::Sum(l, r) => {
            let (cl, cr) = choose|cl: Seq<Monomial>, cr: Seq<Monomial>| #[trigger] sum_of(c, cl, cr) && denotes(*l, cl) && denotes(*r, cr)
                && is_canonical(cl) && is_canonical(cr);
            lemma_key_len(*l, cl);
            lemma_key_len(*r, cr);
        },
        ProveExpression::Product(l, r) => {
            let (cl, cr) = choose|cl: Seq<Monomial>, cr: Seq<Monomial>| #[trigger] product_of(c, cl, cr) && denotes(*l, cl) && denotes(*r, cr)
                && is_canonical(cl) && is_canonical(cr);
            lemma_key_len(*l, cl);
            lemma_key_len(*r, cr);
            assert forall|k: Seq<ProveExpressionUnit>| #[trigger] lookup(c, k) is Some implies k.len() <= cell_degree(e) by {
                assert(pair_key(cl, cr, k));
                let (i, j) = choose|i: int, j: int| 0 <= i < cl.len() && 0 <= j < cr.len() && is_sorted_union(#[trigger] cl[i].0@, #[trigger] cr[j].0@, k);
                let a = cl[i].0@;
                let b = cr[j].0@;
                assert(k.to_multiset().len() == k.len());
                assert(a.to_multiset().len() == a.len());
                assert(b.to_multiset().len() == b.len());
                assert(k.len() == a.len() + b.len());
                lemma_lookup_at(cl, i);
                lemma_lookup_at(cr, j);
            }
        },
    }
}

proof fn lemma_lookup_index(c: Seq<Monomial>, k: Seq<ProveExpressionUnit>)
    requires
        lookup(c, k) is Some,
    ensures
        exists|i: int| 0 <= i < c.len() && (#[trigger] c[i]).0@ == k,
    decreases c.len(),
{
    if c.last().0@ != k {
        lemma_lookup_index(c.drop_last(), k);
        let i = choose|i: int| 0 <= i < c.drop_last().len() && (#[trigger] c.drop_last()[i]).0@ == k;
        assert(c[i] == c.drop_last()[i]);
    } else {
        assert(c[c.len() - 1] == c.last());
    }
}

/// Which monomials a normal form holds depends on the tree alone.
pub proof fn lemma_keys_determined(e: ProveExpression, c1: Seq<Monomial>, c2: Seq<Monomial>)
    requires
        denotes(e, c1),
        denotes(e, c2),
        is_canonical(c1),
        is_canonical(c2),
    ensures
        forall|k: Seq<ProveExpressionUnit>| #[trigger] lookup(c1, k) is Some <==> lookup(c2, k) is Some,
    decreases e,
{
    match e {
        ProveExpression::Unit(_) => {},
        ProveExpression::Y(_) => {},
        ProveExpression::Sum(l, r) => {
            let (l1, r1) = choose|cl: Seq<Monomial>, cr: Seq<Monomial>| #[trigger] sum_of(c1, cl, cr) && denotes(*l, cl) && denotes(*r, cr)
                && is_canonical(cl) && is_canonical(cr);
            let (l2, r2) = choose|cl: Seq<Monomial>, cr: Seq<Monomial>| #[trigger] sum_of(c2, cl, cr) && denotes(*l, cl) && denotes(*r, cr)
                && is_canonical(cl) && is_canonical(cr);
            lemma_keys_determined(*l, l1, l2);
            lemma_keys_determined(*r, r1, r2);
        },
        ProveExpression::Product(l, r) => {
            let (l1, r1) = choose|cl: Seq<Monomial>, cr: Seq<Monomial>| #[trigger] product_of(c1, cl, cr) && denotes(*l, cl) && denotes(*r, cr)
                && is_canonical(cl) && is_canonical(cr);
            let (l2, r2) = choose|cl: Seq<Monomial>, cr: Seq<Monomial>| #[trigger] product_of(c2, cl, cr) && denotes(*l, cl) && denotes(*r, cr)
                && is_canonical(cl) && is_canonical(cr);
            lemma_keys_determined(*l, l1, l2);
            lemma_keys_determined(*r, r1, r2);
            lemma_pair_keys_transfer(l1, r1, l2, r2);
            lemma_pair_keys_transfer(l2, r2, l1, r1);
        },
    }
}

proof fn lemma_pair_keys_transfer(l1: Seq<Monomial>, r1: Seq<Monomial>, l2: Seq<Monomial>, r2: Seq<Monomial>)
    requires
        is_canonical(l1),
        is_canonical(r1),
        forall|k: Seq<ProveExpressionUnit>| #[trigger] lookup(l1, k) is Some <==> lookup(l2, k) is Some,
        forall|k: Seq<ProveExpressionUnit>| #[trigger] lookup(r1, k) is Some <==> lookup(r2, k) is Some,
    ensures
        forall|k: Seq<ProveExpressionUnit>| pair_key(l1, r1, k) ==> #[trigger] pair_key(l2, r2, k),
{
    assert forall|k: Seq<ProveExpressionUnit>| pair_key(l1, r1, k) implies #[trigger] pair_key(l2, r2, k) by {
        let (i, j) = choose|i: int, j: int| 0 <= i < l1.len() && 0 <= j < r1.len() && is_sorted_union(#[trigger] l1[i].0@, #[trigger] r1[j].0@, k);
        lemma_lookup_at(l1, i);
        lemma_lookup_at(r1, j);
        lemma_lookup_index(l2, l1[i].0@);
        lemma_lookup_index(r2, r1[j].0@);
        let i2 = choose|i2: int| 0 <= i2 < l2.len() && (#[trigger] l2[i2]).0@ == l1[i].0@;
        let j2 = choose|j2: int| 0 <= j2 < r2.len() && (#[trigger] r2[j2]).0@ == r1[j].0@;
        assert(is_sorted_union(l2[i2].0@, r2[j2].0@, k));
    }
}

/// The normal forms of `Sum(a, b)` and of `Sum(b, a)` hold the same
/// monomials: those of `a` and those of `b`.
pub proof fn lemma_swapped_sum_same_keys(a: ProveExpression, b: ProveExpression, c1: Seq<Monomial>, c2: Seq<Monomial>)
    requires
        normal_form_of(ProveExpression::Sum(Box::new(a), Box::new(b)), c1),
        normal_form_of(ProveExpression::Sum(Box::new(b), Box::new(a)), c2),
    ensures
        forall|k: Seq<ProveExpressionUnit>| #[trigger] lookup(c1, k) is Some <==> lookup(c2, k) is Some,
{
    let (a1, b1) = choose|cl: Seq<Monomial>, cr: Seq<Monomial>| #[trigger] sum_of(c1, cl, cr) && denotes(a, cl) && denotes(b, cr)
        && is_canonical(cl) && is_canonical(cr);
    let (b2, a2) = choose|cl: Seq<Monomial>, cr: Seq<Monomial>| #[trigger] sum_of(c2, cl, cr) && denotes(b, cl) && denotes(a, cr)
        && is_canonical(cl) && is_canonical(cr);
    lemma_keys_determined(a, a1, a2);
    lemma_keys_determined(b, b1, b2);
}

proof fn lemma_lookup_push(c: Seq<Monomial>, m: Monomial, k: Seq<ProveExpressionUnit>)
    ensures
        lookup(c.push(m), k) == if m.0@ == k { Some(m.1@) } else { lookup(c, k) },
{
    assert(c.push(m).drop_last() =~= c);
}

pub proof fn lemma_lookup_at(c: Seq<Monomial>, i: int)
    requires
        is_canonical(c),
        0 <= i < c.len(),
    ensures
        lookup(c, c[i].0@) == Some(c[i].1@),
    decreases c.len(),
{
    if i != c.len() - 1 {
        assert(c.drop_last()[i] == c[i]);
        lemma_lookup_at(c.drop_last(), i);
    }
}

proof fn lemma_lookup_absent(c: Seq<Monomial>, k: Seq<ProveExpressionUnit>)
    requires
        forall|i: int| 0 <= i < c.len() ==> (#[trigger] c[i]).0@ != k,
    ensures
        lookup(c, k) is None,
    decreases c.len(),
{
    if c.len() > 0 {
        assert(c[c.len() - 1].0@ != k);
        lemma_lookup_absent(c.drop_last(), k);
    }
}

proof fn lemma_lookup_update(c: Seq<Monomial>, i: int, m: Monomial, k: Seq<ProveExpressionUnit>)
    requires
        is_canonical(c),
        0 <= i < c.len(),
        m.0@ == c[i].0@,
    ensures
        lookup(c.update(i, m), k) == if k == c[i].0@ { Some(m.1@) } else { lookup(c, k) },
    decreases c.len(),
{
    let t = c.update(i, m);
    if i == c.len() - 1 {
        assert(t.drop_last() =~= c.drop_last());
    } else {
        assert(t.drop_last() =~= c.drop_last().update(i, m));
        assert(c.drop_last()[i] == c[i]);
        lemma_lookup_update(c.drop_last(), i, m, k);
        if k == c[i].0@ {
            assert(c.last().0@ != k);
        }
    }
}

/// Value contributed by one monomial: its terms in `y` times its cells.
pub open spec fn mono_value(m: MonoView, a: spec_fn(ProveExpressionUnit) -> u64, y: u64) -> u64 {
    fmul_spec(ys_value(m.1, y), cell_product(m.0, a))
}

proof fn lemma_monos_canonical(t: Seq<MonoView>, a: spec_fn(ProveExpressionUnit) -> u64, y: u64)
    ensures
        monos_value(t, a, y) < MODULUS,
{
    if t.len() > 0 {
        assert(monos_value(t, a, y) == fadd_spec(monos_value(t.drop_last(), a, y), mono_value(t.last(), a, y)));
    }
}

proof fn lemma_monos_push(t: Seq<MonoView>, m: MonoView, a: spec_fn(ProveExpressionUnit) -> u64, y: u64)
    ensures
        monos_value(t.push(m), a, y) == fadd_spec(monos_value(t, a, y), mono_value(m, a, y)),
{
    assert(t.push(m).drop_last() =~= t);
}

proof fn lemma_monos_update(t: Seq<MonoView>, i: int, ys: Seq<(u32, u64)>, d: u64, a: spec_fn(ProveExpressionUnit) -> u64, y: u64)
    requires
        0 <= i < t.len(),
        ys_value(ys, y) == fadd_spec(ys_value(t[i].1, y), d),
    ensures
        monos_value(t.update(i, (t[i].0, ys)), a, y) == fadd_spec(monos_value(t, a, y), fmul_spec(d, cell_product(t[i].0, a))),
    decreases t.len(),
{
    let u = t.update(i, (t[i].0, ys));
    let c = cell_product(t[i].0, a);
    let yv = ys_value(t[i].1, y);
    let dd = fmul_spec(d, c);
    lemma_fmul_laws(c, yv, d);
    lemma_fmul_laws(yv, c, 0);
    lemma_fmul_laws(d, c, 0);
    lemma_fmul_laws(fadd_spec(yv, d), c, 0);
    let old_v = fmul_spec(yv, c);
    if i == t.len() - 1 {
        assert(u.drop_last() =~= t.drop_last());
        let v0 = monos_value(t.drop_last(), a, y);
        lemma_fadd_laws(v0, old_v, dd);
    } else {
        assert(u.drop_last() =~= t.drop_last().update(i, (t[i].0, ys)));
        assert(t.drop_last()[i] == t[i]);
        lemma_monos_update(t.drop_last(), i, ys, d, a, y);
        let v0 = monos_value(t.drop_last(), a, y);
        let last = mono_value(t.last(), a, y);
        lemma_fadd_laws(v0, dd, last);
        lemma_fadd_laws(v0, last, dd);
        lemma_fadd_laws(dd, last, 0);
    }
}

/// Adds the polynomial `ys` at monomial `k` into a canonical form.
fn add_mono(c: &mut Vec<Monomial>, k: Vec<ProveExpressionUnit>, ys: Vec<(u32, u64)>)
    requires
        is_canonical(old(c)@),
        sorted_units(k@),
        distinct_orders(ys@),
    ensures
        is_canonical(final(c)@),
        forall|q: Seq<ProveExpressionUnit>, o: u32|
            #[trigger] cval(final(c)@, q, o) == if q == k@ {
                add_opt(cval(old(c)@, q, o), coeff_of(ys@, o))
            } else {
                cval(old(c)@, q, o)
            },
        forall|q: Seq<ProveExpressionUnit>| #[trigger] lookup(final(c)@, q) is Some <==> (q == k@ || lookup(old(c)@, q) is Some),
        forall|m: int| orders_within(old(c)@, m) && (forall|t: int| 0 <= t < ys@.len() ==> (#[trigger] ys@[t]).0 <= m)
            ==> #[trigger] orders_within(final(c)@, m),
        forall|a: spec_fn(ProveExpressionUnit) -> u64, y: u64| #[trigger] monos_value(mview(final(c)@), a, y)
            == fadd_spec(monos_value(mview(old(c)@), a, y), mono_value((k@, ys@), a, y)),
        final(c)@.len() >= 1,
        final(c)@.len() >= old(c)@.len(),
        terms_nonempty(old(c)@) && ys@.len() > 0 ==> terms_nonempty(final(c)@),
{
    let n = c.len();
    let mut i: usize = 0;
    while i < n
        invariant
            n == c.len(),
            0 <= i <= n,
            c@ == old(c)@,
            is_canonical(c@),
            distinct_orders(ys@),
            sorted_units(k@),
            forall|p: int| 0 <= p < i ==> (#[trigger] c@[p]).0@ != k@,
        decreases n - i,
    {
        if keys_equal(&c[i].0, &k) {
            let ghost c0 = c@;
            let (key, mut cur) = c.remove(i);
            let ghost cur0 = cur@;
            let ghost ys0 = ys@;
            ProveExpression::ys_add_assign(&mut cur, ys);
            let ghost entry = (key, cur);
            c.insert(i, (key, cur));
            proof {
                assert(mview(c@) =~= mview(c0).update(i as int, (key@, cur@)));
                if terms_nonempty(c0) {
                    assert(cur0.len() > 0);
                    crate::terms::lemma_coeff_at(cur0, 0);
                    assert(coeff_of(cur@, cur0[0].0) is Some);
                    assert(cur@.len() > 0);
                    assert forall|a: int| 0 <= a < c@.len() implies (#[trigger] c@[a]).1@.len() > 0 by {
                        if a != i {
                            assert(c@[a] == c0[a]);
                        }
                    }
                }
                assert(mview(c0)[i as int] == (c0[i as int].0@, c0[i as int].1@));
                assert forall|a: spec_fn(ProveExpressionUnit) -> u64, y: u64| #[trigger] monos_value(mview(c@), a, y)
                    == fadd_spec(monos_value(mview(c0), a, y), mono_value((k@, ys0), a, y)) by {
                    lemma_monos_update(mview(c0), i as int, cur@, ys_value(ys0, y), a, y);
                    lemma_fmul_laws(ys_value(ys0, y), cell_product(k@, a), 0);
                    lemma_fmul_laws(cell_product(k@, a), ys_value(ys0, y), 0);
                }
                assert(c@ =~= c0.update(i as int, entry));
                lemma_lookup_at(c0, i as int);
                assert forall|q: Seq<ProveExpressionUnit>, o: u32| #[trigger] cval(c@, q, o) == if q == k@ {
                    add_opt(cval(c0, q, o), coeff_of(ys0, o))
                } else {
                    cval(c0, q, o)
                } by {
                    lemma_lookup_update(c0, i as int, entry, q);
                }
                assert forall|q: Seq<ProveExpressionUnit>| #[trigger] lookup(c@, q) is Some <==> (q == k@ || lookup(c0, q) is Some) by {
                    lemma_lookup_update(c0, i as int, entry, q);
                }
                assert forall|a: int, b: int| 0 <= a < b < c@.len() implies (#[trigger] c@[a]).0@
                    != (#[trigger] c@[b]).0@ by {
                    assert(c0[a].0@ != c0[b].0@);
                }
                assert forall|m: int| orders_within(c0, m) && (forall|t: int| 0 <= t < ys0.len() ==> (#[trigger] ys0[t]).0 <= m)
                    implies #[trigger] orders_within(c@, m) by {
                    assert forall|a: int, t: int| 0 <= a < c@.len() && 0 <= t < c@[a].1@.len()
                        implies (#[trigger] c@[a].1@[t]).0 <= m by {
                        if a == i {
                            crate::terms::lemma_order_source(cur0, ys@, cur@, t);
                            if exists|x: int| 0 <= x < cur0.len() && cur0[x].0 == cur@[t].0 {
                                let x = choose|x: int| 0 <= x < cur0.len() && cur0[x].0 == cur@[t].0;
                                assert(c0[a].1@[x] == cur0[x]);
                            } else {
                                let x = choose|x: int| 0 <= x < ys0.len() && ys0[x].0 == cur@[t].0;
                                assert(ys0[x].0 <= m);
                            }
                        } else {
                            assert(c@[a] == c0[a]);
                        }
                    }
                }
            }
            return;
        }
        i += 1;
    }
    let ghost c0 = c@;
    let ghost kv = k@;
    let ghost yv = ys@;
    c.push((k, ys));
    proof {
        assert(mview(c@) =~= mview(c0).push((kv, yv)));
        assert forall|a: int| terms_nonempty(c0) && yv.len() > 0 && 0 <= a < c@.len() implies (#[trigger] c@[a]).1@.len() > 0 by {
            if a < c0.len() {
                assert(c@[a] == c0[a]);
            }
        }
        assert forall|a: spec_fn(ProveExpressionUnit) -> u64, y: u64| #[trigger] monos_value(mview(c@), a, y)
            == fadd_spec(monos_value(mview(c0), a, y), mono_value((kv, yv), a, y)) by {
            lemma_monos_push(mview(c0), (kv, yv), a, y);
        }
        lemma_lookup_absent(c0, k@);
        assert forall|q: Seq<ProveExpressionUnit>, o: u32| #[trigger] cval(c@, q, o) == if q == k@ {
            add_opt(cval(c0, q, o), coeff_of(ys@, o))
        } else {
            cval(c0, q, o)
        } by {
            lemma_lookup_push(c0, (k, ys), q);
        }
        assert forall|q: Seq<ProveExpressionUnit>| #[trigger] lookup(c@, q) is Some <==> (q == kv || lookup(c0, q) is Some) by {
            lemma_lookup_push(c0, (k, ys), q);
        }
        assert forall|a: int, b: int| 0 <= a < b < c@.len() implies (#[trigger] c@[a]).0@
            != (#[trigger] c@[b]).0@ by {
            if b < c0.len() {
                assert(c0[a].0@ != c0[b].0@);
            }
        }
        assert forall|m: int| orders_within(c0, m) && (forall|t: int| 0 <= t < ys@.len() ==> (#[trigger] ys@[t]).0 <= m)
            implies #[trigger] orders_within(c@, m) by {
            assert forall|a: int, t: int| 0 <= a < c@.len() && 0 <= t < c@[a].1@.len()
                implies (#[trigger] c@[a].1@[t]).0 <= m by {
                if a < c0.len() {
                    assert(c@[a] == c0[a]);
                }
            }
        }
    }
}

proof fn lemma_max_in(ys: Seq<(u32, u64)>)
    ensures
        max_in(ys) >= 0,
        forall|t: int| 0 <= t < ys.len() ==> (#[trigger] ys[t]).0 <= max_in(ys),
    decreases ys.len(),
{
    if ys.len() > 0 {
        lemma_max_in(ys.drop_last());
        assert forall|t: int| 0 <= t < ys.len() implies (#[trigger] ys[t]).0 <= max_in(ys) by {
            if t < ys.len() - 1 {
                assert(ys[t] == ys.drop_last()[t]);
            }
        }
    }
}

/// The bound on the orders of `y` is never negative.
pub proof fn lemma_max_order_nonneg(e: ProveExpression)
    ensures
        max_order(e) >= 0,
    decreases e,
{
    match e {
        ProveExpression::Unit(_) => {},
        ProveExpression::Sum(l, r) => {
            lemma_max_order_nonneg(*l);
            lemma_max_order_nonneg(*r);
        },
        ProveExpression::Product(l, r) => {
            lemma_max_order_nonneg(*l);
            lemma_max_order_nonneg(*r);
        },
        ProveExpression::Y(ys) => lemma_max_in(ys@),
    }
}

impl ProveExpression {
    /// Normalises a tree into canonical form: monomials with sorted cells, each
    /// occurring once, and each with its polynomial in `y`.
    pub fn flatten(self) -> (res: Vec<Monomial>)
        requires
            terms_wf(self),
            max_order(self) <= u32::MAX,
        ensures
            normal_form_of(self, res@),
            orders_within(res@, max_order(self)),
            ys_nonempty(self) ==> terms_nonempty(res@),
        decreases self,
    {
        proof {
            lemma_max_order_nonneg(self);
        }
        let ghost e = self;
        match self {
            ProveExpression::Unit(u) => {
                let mut key: Vec<ProveExpressionUnit> = Vec::new();
                key.push(u);
                let mut ys: Vec<(u32, u64)> = Vec::new();
                ys.push((0u32, 1u64));
                let mut res: Vec<Monomial> = Vec::new();
                res.push((key, ys));
                proof {
                    assert(key@ =~= seq![u]);
                    assert forall|k: Seq<ProveExpressionUnit>, o: u32| #[trigger] cval(res@, k, o)
                        == if k == seq![u] && o == 0 { Some(1u64) } else { None } by {
                        lemma_lookup_push(Seq::empty(), (key, ys), k);
                        assert(Seq::<Monomial>::empty().push((key, ys)) =~= res@);
                        assert(ys@.drop_last() =~= Seq::<(u32, u64)>::empty());
                        assert(ys@.last() == (0u32, 1u64));
                        assert(coeff_of(ys@.drop_last(), o) is None);
                        if k == seq![u] {
                            assert(lookup(res@, k) == Some(ys@));
                        } else {
                            assert(lookup(res@, k) is None);
                        }
                    }
                    assert forall|k: Seq<ProveExpressionUnit>| #[trigger] lookup(res@, k) is Some <==> k == seq![u] by {
                        lemma_lookup_push(Seq::empty(), (key, ys), k);
                        assert(Seq::<Monomial>::empty().push((key, ys)) =~= res@);
                    }
                    assert forall|a: spec_fn(ProveExpressionUnit) -> u64, y: u64| canonical_assignment(a)
                        implies #[trigger] monos_value(mview(res@), a, y) == eval_with(e, a, y) by {
                        let mv = (key@, ys@);
                        assert(mview(res@) =~= Seq::<MonoView>::empty().push(mv));
                        lemma_monos_push(Seq::empty(), mv, a, y);
                        crate::terms::lemma_value_push(Seq::empty(), (0u32, 1u64), y);
                        assert(ys@ =~= Seq::<(u32, u64)>::empty().push((0u32, 1u64)));
                        assert(crate::eval::fpow(y, 0) == 1);
                        assert(ys_value(Seq::<(u32, u64)>::empty(), y) == 0);
                        assert(fmul_spec(1, 1) == 1);
                        assert(fadd_spec(0, 1) == 1);
                        assert(crate::terms::term_value((0u32, 1u64), y) == 1);
                        assert(ys_value(ys@, y) == 1);
                        assert(key@.drop_first().len() == 0);
                        assert(key@[0] == u);
                        assert(cell_product(key@.drop_first(), a) == 1);
                        assert(cell_product(key@, a) == fmul_spec(a(u), 1));
                        assert(a(u) < MODULUS);
                        vstd::arithmetic::div_mod::lemma_small_mod(a(u) as nat, MODULUS as nat);
                        lemma_fmul_laws(1, a(u), 0);
                        lemma_fadd_laws(0, a(u), 0);
                        lemma_fadd_laws(a(u), 0, 0);
                    }
                    assert(denotes(e, res@));
                }
                res
            },
            ProveExpression::Y(ys) => {
                let key: Vec<ProveExpressionUnit> = Vec::new();
                let ghost ys0 = ys@;
                let mut res: Vec<Monomial> = Vec::new();
                res.push((key, ys));
                proof {
                    lemma_max_in(ys0);
                    assert forall|k: Seq<ProveExpressionUnit>, o: u32| #[trigger] cval(res@, k, o)
                        == if k == Seq::<ProveExpressionUnit>::empty() { coeff_of(ys0, o) } else { None } by {
                        lemma_lookup_push(Seq::empty(), (key, ys), k);
                        assert(Seq::<Monomial>::empty().push((key, ys)) =~= res@);
                        assert(key@ =~= Seq::<ProveExpressionUnit>::empty());
                    }
                    assert forall|k: Seq<ProveExpressionUnit>| #[trigger] lookup(res@, k) is Some <==> k
                        == Seq::<ProveExpressionUnit>::empty() by {
                        lemma_lookup_push(Seq::empty(), (key, ys), k);
                        assert(Seq::<Monomial>::empty().push((key, ys)) =~= res@);
                        assert(key@ =~= Seq::<ProveExpressionUnit>::empty());
                    }
                    assert forall|a: spec_fn(ProveExpressionUnit) -> u64, y: u64| canonical_assignment(a)
                        implies #[trigger] monos_value(mview(res@), a, y) == eval_with(e, a, y) by {
                        let mv = (key@, ys0);
                        assert(mview(res@) =~= Seq::<MonoView>::empty().push(mv));
                        lemma_monos_push(Seq::empty(), mv, a, y);
                        assert(key@.len() == 0);
                        let v = ys_value(ys0, y);
                        lemma_value_canonical(ys0, y, 0);
                        vstd::arithmetic::div_mod::lemma_small_mod(v as nat, MODULUS as nat);
                        assert(v as int * 1 == v as int);
                        lemma_fadd_laws(0, v, 0);
                        lemma_fadd_laws(v, 0, 0);
                    }
                    assert(denotes(e, res@));
                }
                res
            },
            ProveExpression::Sum(l, r) => {
                let ghost lt = *l;
                let ghost rt = *r;
                let mut res = (*l).flatten();
                let mut rest = (*r).flatten();
                let ghost cl = res@;
                let ghost cr = rest@;
                let ghost bound = max_order(e);
                while rest.len() > 0
                    invariant
                        is_canonical(res@),
                        res@.len() >= 1,
                        ys_nonempty(e) ==> terms_nonempty(res@) && terms_nonempty(cr),
                        is_canonical(cr),
                        rest@ == cr.subrange(0, rest@.len() as int),
                        rest@.len() <= cr.len(),
                        orders_within(res@, bound),
                        orders_within(cr, bound),
                        forall|k: Seq<ProveExpressionUnit>, o: u32| #[trigger] cval(res@, k, o) == if lookup(rest@, k) is Some {
                            cval(cl, k, o)
                        } else {
                            add_opt(cval(cl, k, o), cval(cr, k, o))
                        },
                        forall|k: Seq<ProveExpressionUnit>| #[trigger] lookup(rest@, k) is Some ==> lookup(cr, k) == lookup(rest@, k),
                        forall|k: Seq<ProveExpressionUnit>| #[trigger] lookup(res@, k) is Some <==> (lookup(cl, k) is Some || (
                            lookup(cr, k) is Some && lookup(rest@, k) is None)),
                        forall|a: spec_fn(ProveExpressionUnit) -> u64, y: u64| canonical_assignment(a) ==> fadd_spec(
                            #[trigger] monos_value(mview(res@), a, y),
                            monos_value(mview(rest@), a, y),
                        ) == fadd_spec(eval_with(lt, a, y), eval_with(rt, a, y)),
                    decreases rest@.len(),
                {
                    let ghost r0 = rest@;
                    let ghost res0 = res@;
                    let n = rest.len();
                    let ghost last = rest@[n - 1];
                    let (k, ys) = rest.pop().unwrap();
                    let ghost kv = k@;
                    let ghost yv = ys@;
                    proof {
                        assert(r0[n - 1] == cr[n - 1]);
                        assert(rest@ =~= r0.drop_last());
                        assert(rest@ =~= cr.subrange(0, rest@.len() as int));
                        assert(lookup(r0, k@) == Some(ys@));
                        assert forall|p: int| 0 <= p < rest@.len() implies (#[trigger] rest@[p]).0@ != k@ by {
                            assert(rest@[p] == cr[p]);
                            assert(cr[p].0@ != cr[n - 1].0@);
                        }
                        lemma_lookup_absent(rest@, k@);
                        assert forall|t: int| 0 <= t < ys@.len() implies (#[trigger] ys@[t]).0 <= bound by {
                            assert(cr[n - 1].1@[t].0 <= bound);
                        }
                    }
                    add_mono(&mut res, k, ys);
                    proof {
                        assert forall|q: Seq<ProveExpressionUnit>, o: u32| #[trigger] cval(res@, q, o) == if lookup(rest@, q) is Some {
                            cval(cl, q, o)
                        } else {
                            add_opt(cval(cl, q, o), cval(cr, q, o))
                        } by {
                            if q != k@ {
                                assert(lookup(r0, q) == lookup(rest@, q));
                            }
                        }
                        assert forall|q: Seq<ProveExpressionUnit>| #[trigger] lookup(rest@, q) is Some implies lookup(cr, q) == lookup(rest@, q) by {
                            assert(lookup(r0, q) == lookup(rest@, q));
                        }
                        assert forall|q: Seq<ProveExpressionUnit>| #[trigger] lookup(res@, q) is Some <==> (lookup(cl, q) is Some || (
                            lookup(cr, q) is Some && lookup(rest@, q) is None)) by {
                            if q != k@ {
                                assert(lookup(r0, q) == lookup(rest@, q));
                                assert(lookup(res@, q) is Some <==> lookup(res0, q) is Some);
                            }
                        }
                        assert(mview(r0) =~= mview(rest@).push((kv, yv)));
                        assert forall|a: spec_fn(ProveExpressionUnit) -> u64, y: u64| canonical_assignment(a) implies fadd_spec(
                            #[trigger] monos_value(mview(res@), a, y),
                            monos_value(mview(rest@), a, y),
                        ) == fadd_spec(eval_with(lt, a, y), eval_with(rt, a, y)) by {
                            let rv = monos_value(mview(res0), a, y);
                            let v = mono_value((kv, yv), a, y);
                            let rr = monos_value(mview(rest@), a, y);
                            lemma_monos_push(mview(rest@), (kv, yv), a, y);
                            assert(fadd_spec(rv, fadd_spec(rr, v)) == fadd_spec(eval_with(lt, a, y), eval_with(rt, a, y)));
                            lemma_fadd_laws(rv, v, rr);
                            lemma_fadd_laws(rv, rr, v);
                            lemma_fadd_laws(v, rr, 0);
                        }
                    }
                }
                proof {
                    assert(denotes(lt, cl) && denotes(rt, cr) && is_canonical(cl) && is_canonical(cr));
                    assert forall|k: Seq<ProveExpressionUnit>, o: u32| #[trigger] cval(res@, k, o) == add_opt(cval(cl, k, o), cval(cr, k, o)) by {
                        assert(lookup(rest@, k) is None);
                    }
                    assert forall|k: Seq<ProveExpressionUnit>| #[trigger] lookup(res@, k) is Some <==> (lookup(cl, k) is Some || lookup(cr, k) is Some) by {
                        assert(lookup(rest@, k) is None);
                    }
                    assert(sum_of(res@, cl, cr));
                    assert forall|a: spec_fn(ProveExpressionUnit) -> u64, y: u64| canonical_assignment(a)
                        implies #[trigger] monos_value(mview(res@), a, y) == eval_with(e, a, y) by {
                        assert(mview(rest@).len() == 0);
                        lemma_monos_canonical(mview(res@), a, y);
                        lemma_fadd_laws(monos_value(mview(res@), a, y), 0, 0);
                    }
                    assert(denotes(e, res@));
                }
                res
            },
            ProveExpression::Product(l, r) => {
                let ghost lt = *l;
                let ghost rt = *r;
                let ghost ml = max_order(lt);
                let ghost mr = max_order(rt);
                proof {
                    lemma_max_order_nonneg(lt);
                    lemma_max_order_nonneg(rt);
                }
                let cl = (*l).flatten();
                let cr = (*r).flatten();
                let mut res: Vec<Monomial> = Vec::new();
                proof {
                    assert forall|a: spec_fn(ProveExpressionUnit) -> u64, y: u64| canonical_assignment(a) implies #[trigger] monos_value(mview(res@), a, y)
                        == fmul_spec(monos_value(mview(cl@.subrange(0, 0)), a, y), monos_value(mview(cr@), a, y)) by {
                        assert(mview(cl@.subrange(0, 0)).len() == 0);
                        assert(mview(res@).len() == 0);
                        lemma_fmul_laws(monos_value(mview(cr@), a, y), 0, 0);
                        lemma_fmul_laws(0, monos_value(mview(cr@), a, y), 0);
                    }
                    assert forall|k: Seq<ProveExpressionUnit>| #[trigger] lookup(res@, k) is Some <==> pair_key(cl@.subrange(0, 0), cr@, k) by {
                        assert(cl@.subrange(0, 0).len() == 0);
                    }
                }
                let nl = cl.len();
                let nr = cr.len();
                let mut i: usize = 0;
                while i < nl
                    invariant
                        nl == cl.len(),
                        nr == cr.len(),
                        0 <= i <= nl,
                        is_canonical(cl@),
                        is_canonical(cr@),
                        is_canonical(res@),
                        i > 0 ==> res@.len() >= 1,
                        ys_nonempty(e) ==> terms_nonempty(res@) && terms_nonempty(cl@) && terms_nonempty(cr@),
                        cl@.len() >= 1,
                        cr@.len() >= 1,
                        0 <= ml,
                        0 <= mr,
                        ml + mr <= u32::MAX,
                        orders_within(cl@, ml),
                        orders_within(cr@, mr),
                        orders_within(res@, ml + mr),
                        forall|k: Seq<ProveExpressionUnit>, o: u32| #[trigger] cval(res@, k, o) == cross(cl@.subrange(0, i as int), cr@, k, o),
                        forall|k: Seq<ProveExpressionUnit>| #[trigger] lookup(res@, k) is Some <==> pair_key(cl@.subrange(0, i as int), cr@, k),
                        forall|a: spec_fn(ProveExpressionUnit) -> u64, y: u64| canonical_assignment(a) ==> #[trigger] monos_value(mview(res@), a, y)
                            == fmul_spec(monos_value(mview(cl@.subrange(0, i as int)), a, y), monos_value(mview(cr@), a, y)),
                    decreases nl - i,
                {
                    let ghost li = cl@.subrange(0, i as int);
                    let ghost vi = (cl@[i as int].0@, cl@[i as int].1@);
                    proof {
                        assert forall|a: spec_fn(ProveExpressionUnit) -> u64, y: u64| canonical_assignment(a) implies #[trigger] monos_value(mview(res@), a, y)
                            == fadd_spec(
                                fmul_spec(monos_value(mview(li), a, y), monos_value(mview(cr@), a, y)),
                                fmul_spec(mono_value(vi, a, y), monos_value(mview(cr@.subrange(0, 0)), a, y)),
                            ) by {
                            assert(mview(cr@.subrange(0, 0)).len() == 0);
                            let x = fmul_spec(monos_value(mview(li), a, y), monos_value(mview(cr@), a, y));
                            lemma_fmul_laws(mono_value(vi, a, y), 0, 0);
                            lemma_fadd_laws(x, 0, 0);
                        }
                    }
                    proof {
                        assert forall|k: Seq<ProveExpressionUnit>| #[trigger] lookup(res@, k) is Some <==> (pair_key(li, cr@, k) || row_key(
                            cl@[i as int],
                            cr@.subrange(0, 0),
                            k,
                        )) by {
                            assert(cr@.subrange(0, 0).len() == 0);
                        }
                    }
                    let mut j: usize = 0;
                    while j < nr
                        invariant
                            nl == cl.len(),
                            nr == cr.len(),
                            0 <= i < nl,
                            0 <= j <= nr,
                            li == cl@.subrange(0, i as int),
                            is_canonical(cl@),
                            is_canonical(cr@),
                            is_canonical(res@),
                            cr@.len() >= 1,
                            j > 0 ==> res@.len() >= 1,
                            ys_nonempty(e) ==> terms_nonempty(res@) && terms_nonempty(cl@) && terms_nonempty(cr@),
                            0 <= ml,
                            0 <= mr,
                            ml + mr <= u32::MAX,
                            orders_within(cl@, ml),
                            orders_within(cr@, mr),
                            orders_within(res@, ml + mr),
                            forall|k: Seq<ProveExpressionUnit>, o: u32| #[trigger] cval(res@, k, o) == fold_row(
                                cross(li, cr@, k, o),
                                cl@[i as int],
                                cr@.subrange(0, j as int),
                                k,
                                o,
                            ),
                            vi == (cl@[i as int].0@, cl@[i as int].1@),
                            forall|k: Seq<ProveExpressionUnit>| #[trigger] lookup(res@, k) is Some <==> (pair_key(li, cr@, k) || row_key(
                                cl@[i as int],
                                cr@.subrange(0, j as int),
                                k,
                            )),
                            forall|a: spec_fn(ProveExpressionUnit) -> u64, y: u64| canonical_assignment(a) ==> #[trigger] monos_value(mview(res@), a, y)
                                == fadd_spec(
                                    fmul_spec(monos_value(mview(li), a, y), monos_value(mview(cr@), a, y)),
                                    fmul_spec(mono_value(vi, a, y), monos_value(mview(cr@.subrange(0, j as int)), a, y)),
                                ),
                        decreases nr - j,
                    {
                        let key = merge_keys(&cl[i].0, &cr[j].0);
                        proof {
                            assert forall|x: int, y: int| 0 <= x < cl[i as int].1@.len() && 0 <= y < cr[j as int].1@.len()
                                implies (#[trigger] cl[i as int].1@[x]).0 + (#[trigger] cr[j as int].1@[y]).0 <= u32::MAX by {
                                assert(cl@[i as int].1@[x].0 <= ml);
                                assert(cr@[j as int].1@[y].0 <= mr);
                            }
                        }
                        let ys = ProveExpression::ys_mul(&cl[i].1, &cr[j].1);
                        proof {
                            assert forall|t: int| 0 <= t < ys@.len() implies (#[trigger] ys@[t]).0 <= ml + mr by {
                                crate::terms::lemma_coeff_at(ys@, t);
                                assert(coeff_of(ys@, ys@[t].0) == conv_coeff(cl[i as int].1@, cr[j as int].1@, ys@[t].0));
                                let (x, y) = choose|x: int, y: int| 0 <= x < cl[i as int].1@.len() && 0 <= y < cr[j as int].1@.len()
                                    && (#[trigger] cl[i as int].1@[x]).0 + (#[trigger] cr[j as int].1@[y]).0 == ys@[t].0 as int;
                                assert(cl@[i as int].1@[x].0 <= ml);
                                assert(cr@[j as int].1@[y].0 <= mr);
                            }
                        }
                        proof {
                            if ys_nonempty(e) {
                                let lt0 = cl@[i as int].1@;
                                let rt0 = cr@[j as int].1@;
                                assert(lt0.len() > 0 && rt0.len() > 0);
                                assert(lt0[0].0 + rt0[0].0 <= u32::MAX);
                                let o0 = (lt0[0].0 + rt0[0].0) as u32;
                                assert(conv_has(lt0, rt0, o0 as int));
                                assert(coeff_of(ys@, o0) is Some);
                                assert(ys@.len() > 0);
                            }
                        }
                        let ghost kk = key@;
                        let ghost ys0 = ys@;
                        let ghost res0 = res@;
                        add_mono(&mut res, key, ys);
                        proof {
                            assert forall|q: Seq<ProveExpressionUnit>| #[trigger] lookup(res@, q) is Some <==> (pair_key(li, cr@, q) || row_key(
                                cl@[i as int],
                                cr@.subrange(0, j as int + 1),
                                q,
                            )) by {
                                let rj = cr@.subrange(0, j as int);
                                let rj1 = cr@.subrange(0, j as int + 1);
                                if row_key(cl@[i as int], rj1, q) {
                                    let w = choose|w: int| 0 <= w < rj1.len() && is_sorted_union(cl@[i as int].0@, #[trigger] rj1[w].0@, q);
                                    if w < j {
                                        assert(rj[w] == rj1[w]);
                                    } else {
                                        lemma_sorted_unique(q, kk);
                                    }
                                }
                                if row_key(cl@[i as int], rj, q) {
                                    let w = choose|w: int| 0 <= w < rj.len() && is_sorted_union(cl@[i as int].0@, #[trigger] rj[w].0@, q);
                                    assert(rj1[w] == rj[w]);
                                }
                                if q == kk {
                                    assert(rj1[j as int] == cr@[j as int]);
                                }
                            }
                            let wj = (cr@[j as int].0@, cr@[j as int].1@);
                            assert(mview(cr@.subrange(0, j as int + 1)) =~= mview(cr@.subrange(0, j as int)).push(wj));
                            assert forall|a: spec_fn(ProveExpressionUnit) -> u64, y: u64| canonical_assignment(a) implies #[trigger] monos_value(mview(res@), a, y)
                                == fadd_spec(
                                    fmul_spec(monos_value(mview(li), a, y), monos_value(mview(cr@), a, y)),
                                    fmul_spec(mono_value(vi, a, y), monos_value(mview(cr@.subrange(0, j as int + 1)), a, y)),
                                ) by {
                                let x = fmul_spec(monos_value(mview(li), a, y), monos_value(mview(cr@), a, y));
                                let v = mono_value(vi, a, y);
                                let w = mono_value(wj, a, y);
                                let mj = monos_value(mview(cr@.subrange(0, j as int)), a, y);
                                lemma_monos_push(mview(cr@.subrange(0, j as int)), wj, a, y);
                                assert(cell_product(kk, a) == fmul_spec(cell_product(vi.0, a), cell_product(wj.0, a)));
                                assert(ys_value(ys0, y) == fmul_spec(ys_value(vi.1, y), ys_value(wj.1, y)));
                                lemma_mul4(ys_value(vi.1, y), cell_product(vi.0, a), ys_value(wj.1, y), cell_product(wj.0, a));
                                assert(mono_value((kk, ys0), a, y) == fmul_spec(v, w));
                                lemma_fmul_laws(v, mj, w);
                                lemma_fadd_laws(x, fmul_spec(v, mj), fmul_spec(v, w));
                            }
                            let rj = cr@.subrange(0, j as int);
                            let rj1 = cr@.subrange(0, j as int + 1);
                            assert(rj1.drop_last() =~= rj);
                            assert(rj1.last() == cr@[j as int]);
                            assert forall|q: Seq<ProveExpressionUnit>, o: u32| #[trigger] cval(res@, q, o) == fold_row(
                                cross(li, cr@, q, o),
                                cl@[i as int],
                                rj1,
                                q,
                                o,
                            ) by {
                                if q != kk && is_sorted_union(cl@[i as int].0@, cr@[j as int].0@, q) {
                                    lemma_sorted_unique(q, kk);
                                }
                            }
                        }
                        j += 1;
                    }
                    proof {
                        let li1 = cl@.subrange(0, i as int + 1);
                        assert(li1.drop_last() =~= li);
                        assert(li1.last() == cl@[i as int]);
                        assert(cr@.subrange(0, nr as int) =~= cr@);
                        assert(mview(li1) =~= mview(li).push(vi));
                        assert forall|q: Seq<ProveExpressionUnit>| #[trigger] lookup(res@, q) is Some <==> pair_key(li1, cr@, q) by {
                            if pair_key(li1, cr@, q) {
                                let (x, w) = choose|x: int, w: int| 0 <= x < li1.len() && 0 <= w < cr@.len() && is_sorted_union(#[trigger] li1[x].0@, #[trigger] cr@[w].0@, q);
                                if x < i {
                                    assert(li[x] == li1[x]);
                                } else {
                                    assert(li1[x] == cl@[i as int]);
                                }
                            }
                            if pair_key(li, cr@, q) {
                                let (x, w) = choose|x: int, w: int| 0 <= x < li.len() && 0 <= w < cr@.len() && is_sorted_union(#[trigger] li[x].0@, #[trigger] cr@[w].0@, q);
                                assert(li1[x] == li[x]);
                            }
                            if row_key(cl@[i as int], cr@, q) {
                                let w = choose|w: int| 0 <= w < cr@.len() && is_sorted_union(cl@[i as int].0@, #[trigger] cr@[w].0@, q);
                                assert(li1[i as int] == cl@[i as int]);
                            }
                        }
                        assert forall|a: spec_fn(ProveExpressionUnit) -> u64, y: u64| canonical_assignment(a) implies #[trigger] monos_value(mview(res@), a, y)
                            == fmul_spec(monos_value(mview(li1), a, y), monos_value(mview(cr@), a, y)) by {
                            let mi = monos_value(mview(li), a, y);
                            let mr = monos_value(mview(cr@), a, y);
                            let v = mono_value(vi, a, y);
                            lemma_monos_push(mview(li), vi, a, y);
                            lemma_fmul_laws(mr, mi, v);
                            lemma_fmul_laws(mi, mr, 0);
                            lemma_fmul_laws(v, mr, 0);
                            lemma_fmul_laws(fadd_spec(mi, v), mr, 0);
                        }
                    }
                    i += 1;
                }
                proof {
                    assert(cl@.subrange(0, nl as int) =~= cl@);
                    assert(denotes(lt, cl@) && denotes(rt, cr@) && is_canonical(cl@) && is_canonical(cr@));
                    assert(product_of(res@, cl@, cr@));
                    assert forall|a: spec_fn(ProveExpressionUnit) -> u64, y: u64| canonical_assignment(a)
                        implies #[trigger] monos_value(mview(res@), a, y) == eval_with(e, a, y) by {
                        assert(monos_value(mview(cl@), a, y) == eval_with(lt, a, y));
                        assert(monos_value(mview(cr@), a, y) == eval_with(rt, a, y));
                    }
                    assert(denotes(e, res@));
                }
                res
            },
        }
    }
}

} // verus!
