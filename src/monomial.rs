//! Monomials: sorted sequences of column cells, compared as multisets.
use vstd::prelude::*;
use vstd::seq_lib::group_to_multiset_ensures;
use vstd::multiset::group_multiset_axioms;
use crate::field::{fmul_spec, lemma_fmul_laws, MODULUS};
use crate::unit::{lemma_unit_order_total, sorted_units, unit_le, ProveExpressionUnit};

verus! {

broadcast use group_to_multiset_ensures, group_multiset_axioms;

/// Whether `k` is the sorted form of the cells of `a` and `b` together.
pub open spec fn is_sorted_union(a: Seq<ProveExpressionUnit>, b: Seq<ProveExpressionUnit>, k: Seq<ProveExpressionUnit>) -> bool {
    sorted_units(k) && k.to_multiset() == a.to_multiset().add(b.to_multiset())
}

/// Product of the values of the cells of `k`.
pub open spec fn cell_product(k: Seq<ProveExpressionUnit>, a: spec_fn(ProveExpressionUnit) -> u64) -> u64
    decreases k.len(),
{
    if k.len() == 0 {
        1
    } else {
        fmul_spec(a(k[0]), cell_product(k.drop_first(), a))
    }
}

/// Whether every cell takes a canonical scalar.
pub open spec fn canonical_assignment(a: spec_fn(ProveExpressionUnit) -> u64) -> bool {
    forall|u: ProveExpressionUnit| #[trigger] a(u) < MODULUS
}

proof fn lemma_cell_product_push(s: Seq<ProveExpressionUnit>, x: ProveExpressionUnit, asg: spec_fn(ProveExpressionUnit) -> u64)
    requires
        canonical_assignment(asg),
    ensures
        cell_product(s.push(x), asg) == fmul_spec(cell_product(s, asg), asg(x)),
    decreases s.len(),
{
    let sp = s.push(x);
    if s.len() == 0 {
        assert(sp.drop_first().len() == 0);
        assert(asg(x) < MODULUS);
        vstd::arithmetic::div_mod::lemma_small_mod(asg(x) as nat, MODULUS as nat);
        assert(sp[0] == x);
        assert(cell_product(sp.drop_first(), asg) == 1);
        assert(cell_product(sp, asg) == fmul_spec(asg(x), 1));
        assert(cell_product(s, asg) == 1);
        assert(asg(x) as int * 1 == asg(x) as int);
        assert(1 * asg(x) as int == asg(x) as int);
    } else {
        assert(sp.drop_first() =~= s.drop_first().push(x));
        lemma_cell_product_push(s.drop_first(), x, asg);
        lemma_fmul_laws(asg(s[0]), cell_product(s.drop_first(), asg), asg(x));
        assert(sp[0] == s[0]);
        assert(cell_product(sp, asg) == fmul_spec(asg(s[0]), cell_product(sp.drop_first(), asg)));
    }
}

/// Two sorted sequences of cells with the same multiset are equal.
pub proof fn lemma_sorted_unique(s: Seq<ProveExpressionUnit>, t: Seq<ProveExpressionUnit>)
    requires
        sorted_units(s),
        sorted_units(t),
        s.to_multiset() == t.to_multiset(),
    ensures
        s == t,
    decreases s.len(),
{
    assert(s.len() == s.to_multiset().len());
    assert(t.len() == t.to_multiset().len());
    if s.len() > 0 {
        assert(t.to_multiset().count(s[0]) > 0);
        assert(t.contains(s[0]));
        let j = choose|j: int| 0 <= j < t.len() && t[j] == s[0];
        assert(t.to_multiset().count(t[0]) > 0);
        assert(s.to_multiset().count(t[0]) > 0);
        assert(s.contains(t[0]));
        let i = choose|i: int| 0 <= i < s.len() && s[i] == t[0];
        if j > 0 {
            assert(unit_le(t[0], t[j]));
        }
        if i > 0 {
            assert(unit_le(s[0], s[i]));
        }
        lemma_unit_order_total(s[0], t[0]);
        assert(s[0] == t[0]);
        assert(s.remove(0) =~= s.drop_first());
        assert(t.remove(0) =~= t.drop_first());
        assert(s.drop_first().to_multiset() == s.to_multiset().remove(s[0]));
        assert(t.drop_first().to_multiset() == t.to_multiset().remove(t[0]));
        assert(sorted_units(s.drop_first())) by {
            assert forall|a: int, b: int| 0 <= a < b < s.drop_first().len() implies unit_le(
                #[trigger] s.drop_first()[a],
                #[trigger] s.drop_first()[b],
            ) by {
                assert(unit_le(s[a + 1], s[b + 1]));
            }
        }
        assert(sorted_units(t.drop_first())) by {
            assert forall|a: int, b: int| 0 <= a < b < t.drop_first().len() implies unit_le(
                #[trigger] t.drop_first()[a],
                #[trigger] t.drop_first()[b],
            ) by {
                assert(unit_le(t[a + 1], t[b + 1]));
            }
        }
        lemma_sorted_unique(s.drop_first(), t.drop_first());
        assert(s =~= seq![s[0]] + s.drop_first());
        assert(t =~= seq![t[0]] + t.drop_first());
    } else {
        assert(s =~= t);
    }
}

/// Merges two sorted sequences of cells into one sorted sequence.
pub fn merge_keys(a: &Vec<ProveExpressionUnit>, b: &Vec<ProveExpressionUnit>) -> (k: Vec<ProveExpressionUnit>)
    requires
        sorted_units(a@),
        sorted_units(b@),
    ensures
        is_sorted_union(a@, b@, k@),
        forall|asg: spec_fn(ProveExpressionUnit) -> u64| canonical_assignment(asg) ==> #[trigger] cell_product(k@, asg)
            == fmul_spec(cell_product(a@, asg), cell_product(b@, asg)),
{
    let mut k: Vec<ProveExpressionUnit> = Vec::new();
    let mut i: usize = 0;
    let mut j: usize = 0;
    proof {
        assert forall|asg: spec_fn(ProveExpressionUnit) -> u64| canonical_assignment(asg) implies #[trigger] cell_product(k@, asg)
            == fmul_spec(cell_product(a@.subrange(0, 0), asg), cell_product(b@.subrange(0, 0), asg)) by {
            assert(a@.subrange(0, 0).len() == 0);
            assert(b@.subrange(0, 0).len() == 0);
        }
    }
    while i < a.len() || j < b.len()
        invariant
            sorted_units(a@),
            sorted_units(b@),
            0 <= i <= a.len(),
            0 <= j <= b.len(),
            sorted_units(k@),
            k@.len() == i + j,
            k@.to_multiset() == a@.subrange(0, i as int).to_multiset().add(
                b@.subrange(0, j as int).to_multiset(),
            ),
            k@.len() > 0 && i < a.len() ==> unit_le(k@.last(), a@[i as int]),
            k@.len() > 0 && j < b.len() ==> unit_le(k@.last(), b@[j as int]),
            forall|asg: spec_fn(ProveExpressionUnit) -> u64| canonical_assignment(asg) ==> #[trigger] cell_product(k@, asg)
                == fmul_spec(cell_product(a@.subrange(0, i as int), asg), cell_product(b@.subrange(0, j as int), asg)),
        decreases a.len() + b.len() - i - j,
    {
        let take_a = if i >= a.len() {
            false
        } else if j >= b.len() {
            true
        } else {
            !b[j].less_than(&a[i])
        };
        let ghost k0 = k@;
        if take_a {
            let x = a[i];
            k.push(x);
            proof {
                assert forall|asg: spec_fn(ProveExpressionUnit) -> u64| canonical_assignment(asg) implies #[trigger] cell_product(k@, asg)
                    == fmul_spec(cell_product(a@.subrange(0, i as int + 1), asg), cell_product(b@.subrange(0, j as int), asg)) by {
                    let pa = cell_product(a@.subrange(0, i as int), asg);
                    let pb = cell_product(b@.subrange(0, j as int), asg);
                    lemma_cell_product_push(k0, x, asg);
                    lemma_cell_product_push(a@.subrange(0, i as int), x, asg);
                    assert(a@.subrange(0, i as int + 1) =~= a@.subrange(0, i as int).push(x));
                    lemma_fmul_laws(pa, pb, asg(x));
                    lemma_fmul_laws(pb, asg(x), 0);
                    lemma_fmul_laws(pa, asg(x), pb);
                }
                assert(a@.subrange(0, i as int + 1) =~= a@.subrange(0, i as int).push(x));
                if j < b.len() {
                    lemma_unit_order_total(x, b@[j as int]);
                }
                if i + 1 < a.len() {
                    assert(unit_le(a@[i as int], a@[i as int + 1]));
                }
            }
            i += 1;
        } else {
            let x = b[j];
            k.push(x);
            proof {
                assert forall|asg: spec_fn(ProveExpressionUnit) -> u64| canonical_assignment(asg) implies #[trigger] cell_product(k@, asg)
                    == fmul_spec(cell_product(a@.subrange(0, i as int), asg), cell_product(b@.subrange(0, j as int + 1), asg)) by {
                    let pa = cell_product(a@.subrange(0, i as int), asg);
                    let pb = cell_product(b@.subrange(0, j as int), asg);
                    lemma_cell_product_push(k0, x, asg);
                    lemma_cell_product_push(b@.subrange(0, j as int), x, asg);
                    assert(b@.subrange(0, j as int + 1) =~= b@.subrange(0, j as int).push(x));
                    lemma_fmul_laws(pa, pb, asg(x));
                }
                assert(b@.subrange(0, j as int + 1) =~= b@.subrange(0, j as int).push(x));
                if i < a.len() {
                    lemma_unit_order_total(x, a@[i as int]);
                }
                if j + 1 < b.len() {
                    assert(unit_le(b@[j as int], b@[j as int + 1]));
                }
            }
            j += 1;
        }
        proof {
            assert forall|p: int, q: int| 0 <= p < q < k@.len() implies unit_le(
                #[trigger] k@[p],
                #[trigger] k@[q],
            ) by {
                if q == k@.len() - 1 && p < q {
                    if p < k0.len() - 1 {
                        assert(unit_le(k0[p], k0.last()));
                        crate::unit::lemma_unit_le_trans(k0[p], k0.last(), k@[q]);
                    }
                } else {
                    assert(k@[p] == k0[p] && k@[q] == k0[q]);
                }
            }
        }
    }
    assert(a@.subrange(0, a.len() as int) =~= a@);
    assert(b@.subrange(0, b.len() as int) =~= b@);
    k
}

/// Whether two sequences of cells are equal, element by element.
pub fn keys_equal(a: &Vec<ProveExpressionUnit>, b: &Vec<ProveExpressionUnit>) -> (r: bool)
    ensures
        r == (a@ == b@),
{
    if a.len() != b.len() {
        return false;
    }
    let mut i: usize = 0;
    while i < a.len()
        invariant
            a.len() == b.len(),
            0 <= i <= a.len(),
            forall|p: int| 0 <= p < i ==> a@[p] == b@[p],
        decreases a.len() - i,
    {
        if a[i] != b[i] {
            return false;
        }
        i += 1;
    }
    assert(a@ =~= b@);
    true
}

} // verus!
