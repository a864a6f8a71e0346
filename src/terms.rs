//! Polynomials in the challenge `y`, held as lists of
//! (order, coefficient) pairs, and their sum and product.
use vstd::prelude::*;
use vstd::arithmetic::div_mod::{lemma_add_mod_noop, lemma_small_mod};
use crate::expression::ProveExpression;
use crate::eval::{fpow, ys_value};
use crate::field::{fadd, fadd_spec, fmul, fmul_spec, lemma_fadd_laws, lemma_fmul_laws, MODULUS};

verus! {

/// Whether no order occurs twice in a term list.
pub open spec fn distinct_orders(s: Seq<(u32, u64)>) -> bool {
    forall|i: int, j: int| 0 <= i < j < s.len() ==> (#[trigger] s[i]).0 != (#[trigger] s[j]).0
}

/// The coefficient of `y^o` in a term list, if the order occurs.
pub open spec fn coeff_of(s: Seq<(u32, u64)>, o: u32) -> Option<u64>
    decreases s.len(),
{
    if s.len() == 0 {
        None
    } else if s.last().0 == o {
        Some(s.last().1)
    } else {
        coeff_of(s.drop_last(), o)
    }
}

/// Coefficient of a sum of two term lists: `b + a` where both occur.
pub open spec fn add_opt(a: Option<u64>, b: Option<u64>) -> Option<u64> {
    match (a, b) {
        (Some(x), Some(y)) => Some(fadd_spec(y, x)),
        (Some(x), None) => Some(x),
        (None, Some(y)) => Some(y),
        (None, None) => None,
    }
}

/// Sum of `a_i * b_j` over the pairs of a term `a` and the terms `b_j` of `r`
/// whose orders add up to `o`.
pub open spec fn row_sum(a: (u32, u64), r: Seq<(u32, u64)>, o: int) -> int
    decreases r.len(),
{
    if r.len() == 0 {
        0
    } else {
        row_sum(a, r.drop_last(), o) + if a.0 + r.last().0 == o {
            fmul_spec(a.1, r.last().1) as int
        } else {
            0
        }
    }
}

/// Sum of `a_i * b_j` over all pairs of terms of `l` and `r` whose orders add
/// up to `o`.
pub open spec fn conv_sum(l: Seq<(u32, u64)>, r: Seq<(u32, u64)>, o: int) -> int
    decreases l.len(),
{
    if l.len() == 0 {
        0
    } else {
        conv_sum(l.drop_last(), r, o) + row_sum(l.last(), r, o)
    }
}

/// Whether some pair of terms of `l` and `r` has orders adding up to `o`.
pub open spec fn conv_has(l: Seq<(u32, u64)>, r: Seq<(u32, u64)>, o: int) -> bool {
    exists|i: int, j: int|
        0 <= i < l.len() && 0 <= j < r.len() && (#[trigger] l[i]).0 + (#[trigger] r[j]).0 == o
}

/// The coefficient of `y^o` in the product of two term lists.
pub open spec fn conv_coeff(l: Seq<(u32, u64)>, r: Seq<(u32, u64)>, o: u32) -> Option<u64> {
    if conv_has(l, r, o as int) {
        Some((conv_sum(l, r, o as int) % (MODULUS as int)) as u64)
    } else {
        None
    }
}

/// Whether every pair of orders of `l` and `r` adds up to a `u32`.
pub open spec fn orders_add_fit(l: Seq<(u32, u64)>, r: Seq<(u32, u64)>) -> bool {
    forall|i: int, j: int|
        0 <= i < l.len() && 0 <= j < r.len() ==> (#[trigger] l[i]).0 + (#[trigger] r[j]).0
            <= u32::MAX
}

proof fn lemma_coeff_push(s: Seq<(u32, u64)>, t: (u32, u64), o: u32)
    ensures
        coeff_of(s.push(t), o) == if t.0 == o {
            Some(t.1)
        } else {
            coeff_of(s, o)
        },
{
    assert(s.push(t).drop_last() =~= s);
}

pub proof fn lemma_coeff_at(s: Seq<(u32, u64)>, i: int)
    requires
        distinct_orders(s),
        0 <= i < s.len(),
    ensures
        coeff_of(s, s[i].0) == Some(s[i].1),
    decreases s.len(),
{
    if i != s.len() - 1 {
        assert(s.drop_last()[i] == s[i]);
        lemma_coeff_at(s.drop_last(), i);
    }
}

proof fn lemma_coeff_absent(s: Seq<(u32, u64)>, o: u32)
    requires
        forall|i: int| 0 <= i < s.len() ==> (#[trigger] s[i]).0 != o,
    ensures
        coeff_of(s, o) is None,
    decreases s.len(),
{
    if s.len() > 0 {
        assert(s[s.len() - 1].0 != o);
        lemma_coeff_absent(s.drop_last(), o);
    }
}

proof fn lemma_coeff_update(s: Seq<(u32, u64)>, i: int, c: u64, p: u32)
    requires
        distinct_orders(s),
        0 <= i < s.len(),
    ensures
        coeff_of(s.update(i, (s[i].0, c)), p) == if p == s[i].0 {
            Some(c)
        } else {
            coeff_of(s, p)
        },
    decreases s.len(),
{
    let t = s.update(i, (s[i].0, c));
    if i == s.len() - 1 {
        assert(t.drop_last() =~= s.drop_last());
    } else {
        assert(t.drop_last() =~= s.drop_last().update(i, (s[i].0, c)));
        assert(s.drop_last()[i] == s[i]);
        lemma_coeff_update(s.drop_last(), i, c, p);
        if p == s[i].0 {
            assert(s.last().0 != p);
        }
    }
}

proof fn lemma_coeff_some(s: Seq<(u32, u64)>, o: u32)
    requires
        coeff_of(s, o) is Some,
    ensures
        exists|x: int| 0 <= x < s.len() && (#[trigger] s[x]).0 == o,
    decreases s.len(),
{
    if s.last().0 != o {
        lemma_coeff_some(s.drop_last(), o);
        let x = choose|x: int| 0 <= x < s.drop_last().len() && (#[trigger] s.drop_last()[x]).0 == o;
        assert(s[x] == s.drop_last()[x]);
    } else {
        assert(s[s.len() - 1].0 == o);
    }
}

/// An order that occurs in a sum of two term lists occurs in one of them.
pub proof fn lemma_order_source(a: Seq<(u32, u64)>, b: Seq<(u32, u64)>, s: Seq<(u32, u64)>, t: int)
    requires
        distinct_orders(s),
        0 <= t < s.len(),
        forall|o: u32| #[trigger] coeff_of(s, o) == add_opt(coeff_of(a, o), coeff_of(b, o)),
    ensures
        (exists|x: int| 0 <= x < a.len() && a[x].0 == s[t].0) || (exists|x: int| 0 <= x < b.len() && b[x].0 == s[t].0),
{
    lemma_coeff_at(s, t);
    let o = s[t].0;
    assert(coeff_of(s, o) == add_opt(coeff_of(a, o), coeff_of(b, o)));
    if coeff_of(a, o) is Some {
        lemma_coeff_some(a, o);
    } else {
        lemma_coeff_some(b, o);
    }
}

/// The term `y^o * c` of a term list's value.
pub open spec fn term_value(t: (u32, u64), y: u64) -> u64 {
    fmul_spec(fpow(y, t.0 as nat), t.1)
}

pub proof fn lemma_value_canonical(s: Seq<(u32, u64)>, y: u64, n: nat)
    ensures
        ys_value(s, y) < MODULUS,
        fpow(y, n) < MODULUS,
{
    if s.len() > 0 {
        assert(ys_value(s, y) == fadd_spec(ys_value(s.drop_last(), y), term_value(s.last(), y)));
    }
    if n > 0 {
        assert(fpow(y, n) == fmul_spec(fpow(y, (n - 1) as nat), y));
    }
}

/// Powers of `y` add their exponents when multiplied.
pub proof fn lemma_fpow_add(y: u64, a: nat, b: nat)
    ensures
        fpow(y, a + b) == fmul_spec(fpow(y, a), fpow(y, b)),
    decreases b,
{
    lemma_value_canonical(Seq::empty(), y, a);
    if b == 0 {
        vstd::arithmetic::div_mod::lemma_small_mod(fpow(y, a) as nat, MODULUS as nat);
        assert(a + b == a);
    } else {
        lemma_fpow_add(y, a, (b - 1) as nat);
        assert(fpow(y, a + b) == fmul_spec(fpow(y, (a + b - 1) as nat), y));
        assert((a + b - 1) as nat == a + (b - 1) as nat);
        lemma_fmul_laws(fpow(y, a), fpow(y, (b - 1) as nat), y);
    }
}

pub proof fn lemma_value_push(s: Seq<(u32, u64)>, t: (u32, u64), y: u64)
    ensures
        ys_value(s.push(t), y) == fadd_spec(ys_value(s, y), term_value(t, y)),
{
    assert(s.push(t).drop_last() =~= s);
}

proof fn lemma_value_update(s: Seq<(u32, u64)>, i: int, c: u64, y: u64)
    requires
        0 <= i < s.len(),
    ensures
        ys_value(s.update(i, (s[i].0, fadd_spec(c, s[i].1))), y) == fadd_spec(ys_value(s, y), term_value((s[i].0, c), y)),
    decreases s.len(),
{
    let t = s.update(i, (s[i].0, fadd_spec(c, s[i].1)));
    let p = fpow(y, s[i].0 as nat);
    let d = term_value((s[i].0, c), y);
    let old_t = term_value(s[i], y);
    lemma_fmul_laws(p, c, s[i].1);
    if i == s.len() - 1 {
        assert(t.drop_last() =~= s.drop_last());
        let v0 = ys_value(s.drop_last(), y);
        lemma_fadd_laws(v0, d, old_t);
        lemma_fadd_laws(v0, old_t, d);
        lemma_fadd_laws(d, old_t, 0);
    } else {
        assert(t.drop_last() =~= s.drop_last().update(i, (s[i].0, fadd_spec(c, s[i].1))));
        assert(s.drop_last()[i] == s[i]);
        lemma_value_update(s.drop_last(), i, c, y);
        let v0 = ys_value(s.drop_last(), y);
        let last = term_value(s.last(), y);
        lemma_fadd_laws(v0, d, last);
        lemma_fadd_laws(v0, last, d);
        lemma_fadd_laws(d, last, 0);
    }
}

/// Adds `c * y^o` into a term list, keeping orders distinct.
fn add_term(v: &mut Vec<(u32, u64)>, o: u32, c: u64)
    requires
        distinct_orders(old(v)@),
    ensures
        distinct_orders(final(v)@),
        forall|p: u32|
            #[trigger] coeff_of(final(v)@, p) == if p == o {
                add_opt(coeff_of(old(v)@, p), Some(c))
            } else {
                coeff_of(old(v)@, p)
            },
        forall|y: u64| #[trigger] ys_value(final(v)@, y) == fadd_spec(ys_value(old(v)@, y), term_value((o, c), y)),
{
    let n = v.len();
    let mut i: usize = 0;
    while i < n
        invariant
            n == v.len(),
            0 <= i <= n,
            v@ == old(v)@,
            distinct_orders(v@),
            forall|k: int| 0 <= k < i ==> (#[trigger] v@[k]).0 != o,
        decreases n - i,
    {
        if v[i].0 == o {
            let old_c = v[i].1;
            let s = fadd(c, old_c);
            proof {
                lemma_coeff_at(v@, i as int);
                assert forall|p: u32| #[trigger]
                    coeff_of(v@.update(i as int, (o, s)), p) == if p == o {
                        add_opt(coeff_of(v@, p), Some(c))
                    } else {
                        coeff_of(v@, p)
                    } by {
                    lemma_coeff_update(v@, i as int, s, p);
                }
            }
            let ghost before = v@;
            v.set(i, (o, s));
            proof {
                assert forall|y: u64| #[trigger] ys_value(v@, y) == fadd_spec(ys_value(before, y), term_value((o, c), y)) by {
                    lemma_value_update(before, i as int, c, y);
                }
                assert(v@ =~= before.update(i as int, (o, s)));
                assert forall|a: int, b: int| 0 <= a < b < v@.len() implies (#[trigger] v@[a]).0
                    != (#[trigger] v@[b]).0 by {
                    assert(before[a].0 != before[b].0);
                }
            }
            return;
        }
        i += 1;
    }
    proof {
        lemma_coeff_absent(v@, o);
        assert forall|p: u32| #[trigger] coeff_of(v@.push((o, c)), p) == if p == o {
            add_opt(coeff_of(v@, p), Some(c))
        } else {
            coeff_of(v@, p)
        } by {
            lemma_coeff_push(v@, (o, c), p);
        }
    }
    let ghost before = v@;
    v.push((o, c));
    proof {
        assert forall|y: u64| #[trigger] ys_value(v@, y) == fadd_spec(ys_value(before, y), term_value((o, c), y)) by {
            lemma_value_push(before, (o, c), y);
        }
        assert forall|a: int, b: int| 0 <= a < b < v@.len() implies (#[trigger] v@[a]).0
            != (#[trigger] v@[b]).0 by {
            if b < before.len() {
                assert(before[a].0 != before[b].0);
            } else {
                assert(before[a].0 != o);
            }
        }
    }
}

impl ProveExpression {
    /// Adds the term list `r` into `l`: where an order occurs in both, the
    /// coefficients are added.
    pub fn ys_add_assign(l: &mut Vec<(u32, u64)>, r: Vec<(u32, u64)>)
        requires
            distinct_orders(old(l)@),
            distinct_orders(r@),
        ensures
            distinct_orders(final(l)@),
            forall|o: u32|
                #[trigger] coeff_of(final(l)@, o) == add_opt(coeff_of(old(l)@, o), coeff_of(r@, o)),
            forall|y: u64| #[trigger] ys_value(final(l)@, y) == fadd_spec(ys_value(old(l)@, y), ys_value(r@, y)),
    {
        let ghost l0 = l@;
        proof {
            assert forall|y: u64| #[trigger] ys_value(l@, y) == fadd_spec(ys_value(l0, y), ys_value(r@.subrange(0, 0), y)) by {
                lemma_value_canonical(l0, y, 0);
                lemma_fadd_laws(ys_value(l0, y), 0, 0);
                assert(r@.subrange(0, 0).len() == 0);
            }
        }
        let n = r.len();
        let mut k: usize = 0;
        while k < n
            invariant
                n == r.len(),
                0 <= k <= n,
                distinct_orders(r@),
                distinct_orders(l@),
                forall|o: u32|
                    #[trigger] coeff_of(l@, o) == add_opt(
                        coeff_of(l0, o),
                        coeff_of(r@.subrange(0, k as int), o),
                    ),
                forall|y: u64| #[trigger] ys_value(l@, y) == fadd_spec(ys_value(l0, y), ys_value(r@.subrange(0, k as int), y)),
            decreases n - k,
        {
            let (o, c) = r[k];
            let ghost before = l@;
            add_term(l, o, c);
            proof {
                let pre = r@.subrange(0, k as int);
                assert(r@.subrange(0, k as int + 1) =~= pre.push((o, c)));
                assert forall|p: u32| #[trigger]
                    coeff_of(l@, p) == add_opt(
                        coeff_of(l0, p),
                        coeff_of(r@.subrange(0, k as int + 1), p),
                    ) by {
                    lemma_coeff_push(pre, (o, c), p);
                    if p == o {
                        assert forall|m: int| 0 <= m < pre.len() implies (#[trigger] pre[m]).0
                            != o by {
                            assert(pre[m] == r@[m]);
                        }
                        lemma_coeff_absent(pre, o);
                    }
                }
                assert forall|y: u64| #[trigger] ys_value(l@, y) == fadd_spec(ys_value(l0, y), ys_value(r@.subrange(0, k as int + 1), y)) by {
                    lemma_value_push(pre, (o, c), y);
                    lemma_fadd_laws(ys_value(l0, y), ys_value(pre, y), term_value((o, c), y));
                    assert(ys_value(before, y) == fadd_spec(ys_value(l0, y), ys_value(pre, y)));
                }
            }
            k += 1;
        }
        assert(r@.subrange(0, n as int) =~= r@);
    }
}


/// Whether some term of `r` has an order that adds up to `o` with that of `a`.
pub open spec fn row_has(a: (u32, u64), r: Seq<(u32, u64)>, o: int) -> bool {
    exists|j: int| 0 <= j < r.len() && a.0 + (#[trigger] r[j]).0 == o
}

/// A coefficient accumulated so far: present when some pair contributed.
pub open spec fn acc_coeff(has: bool, sum: int) -> Option<u64> {
    if has {
        Some((sum % (MODULUS as int)) as u64)
    } else {
        None
    }
}

proof fn lemma_row_sum_zero(a: (u32, u64), r: Seq<(u32, u64)>, o: int)
    requires
        !row_has(a, r, o),
    ensures
        row_sum(a, r, o) == 0,
    decreases r.len(),
{
    if r.len() > 0 {
        assert(a.0 + r[r.len() - 1].0 != o);
        assert forall|j: int| 0 <= j < r.drop_last().len() implies a.0 + (
        #[trigger] r.drop_last()[j]).0 != o by {
            assert(r.drop_last()[j] == r[j]);
        }
        lemma_row_sum_zero(a, r.drop_last(), o);
    }
}

proof fn lemma_conv_sum_zero(l: Seq<(u32, u64)>, r: Seq<(u32, u64)>, o: int)
    requires
        !conv_has(l, r, o),
    ensures
        conv_sum(l, r, o) == 0,
    decreases l.len(),
{
    if l.len() > 0 {
        let a = l[l.len() - 1];
        assert forall|j: int| 0 <= j < r.len() implies a.0 + (#[trigger] r[j]).0 != o by {
            assert(l[l.len() - 1].0 + r[j].0 != o);
        }
        lemma_row_sum_zero(a, r, o);
        assert forall|i: int, j: int|
            0 <= i < l.drop_last().len() && 0 <= j < r.len() implies (
            #[trigger] l.drop_last()[i]).0 + (#[trigger] r[j]).0 != o by {
            assert(l.drop_last()[i] == l[i]);
        }
        lemma_conv_sum_zero(l.drop_last(), r, o);
    }
}

proof fn lemma_acc_step(has: bool, sum: int, f: u64)
    requires
        f < MODULUS,
        has || sum == 0,
    ensures
        add_opt(acc_coeff(has, sum), Some(f)) == acc_coeff(true, sum + f),
{
    let m = MODULUS as int;
    lemma_small_mod(f as nat, m as nat);
    lemma_add_mod_noop(f as int, sum, m);
    if has {
        assert(fadd_spec(f, (sum % m) as u64) == ((f as int + sum % m) % m) as u64);
        assert((f as int % m + sum % m) % m == (f as int + sum) % m);
    } else {
        assert(sum + f == f as int);
    }
}

pub proof fn lemma_mul4(pa: u64, a1: u64, pb: u64, b1: u64)
    ensures
        fmul_spec(fmul_spec(pa, pb), fmul_spec(a1, b1)) == fmul_spec(fmul_spec(pa, a1), fmul_spec(pb, b1)),
{
    lemma_fmul_laws(pa, pb, fmul_spec(a1, b1));
    lemma_fmul_laws(pb, a1, b1);
    lemma_fmul_laws(a1, pb, b1);
    lemma_fmul_laws(pa, a1, fmul_spec(pb, b1));
}

impl ProveExpression {
    /// The product of two term lists: every pair of terms contributes the
    /// product of its coefficients at the sum of its orders.
    pub fn ys_mul(l: &Vec<(u32, u64)>, r: &Vec<(u32, u64)>) -> (res: Vec<(u32, u64)>)
        requires
            orders_add_fit(l@, r@),
        ensures
            distinct_orders(res@),
            forall|o: u32| #[trigger] coeff_of(res@, o) == conv_coeff(l@, r@, o),
            forall|y: u64| #[trigger] ys_value(res@, y) == fmul_spec(ys_value(l@, y), ys_value(r@, y)),
    {
        let mut res: Vec<(u32, u64)> = Vec::new();
        proof {
            assert forall|y: u64| #[trigger] ys_value(res@, y) == fmul_spec(ys_value(l@.subrange(0, 0), y), ys_value(r@, y)) by {
                assert(l@.subrange(0, 0).len() == 0);
                lemma_fmul_laws(ys_value(r@, y), 0, 0);
                lemma_fmul_laws(0, ys_value(r@, y), 0);
            }
        }
        let nl = l.len();
        let nr = r.len();
        let mut i: usize = 0;
        while i < nl
            invariant
                nl == l.len(),
                nr == r.len(),
                0 <= i <= nl,
                orders_add_fit(l@, r@),
                distinct_orders(res@),
                forall|o: u32|
                    #[trigger] coeff_of(res@, o) == acc_coeff(
                        conv_has(l@.subrange(0, i as int), r@, o as int),
                        conv_sum(l@.subrange(0, i as int), r@, o as int),
                    ),
                forall|y: u64| #[trigger] ys_value(res@, y) == fmul_spec(ys_value(l@.subrange(0, i as int), y), ys_value(r@, y)),
            decreases nl - i,
        {
            let a = l[i];
            let ghost li = l@.subrange(0, i as int);
            proof {
                assert forall|y: u64| #[trigger] ys_value(res@, y) == fadd_spec(
                    fmul_spec(ys_value(li, y), ys_value(r@, y)),
                    fmul_spec(term_value(a, y), ys_value(r@.subrange(0, 0), y)),
                ) by {
                    let x = fmul_spec(ys_value(li, y), ys_value(r@, y));
                    assert(r@.subrange(0, 0).len() == 0);
                    lemma_fmul_laws(term_value(a, y), 0, 0);
                    lemma_fadd_laws(x, 0, 0);
                }
            }
            let mut j: usize = 0;
            while j < nr
                invariant
                    nl == l.len(),
                    nr == r.len(),
                    0 <= i < nl,
                    0 <= j <= nr,
                    a == l@[i as int],
                    li == l@.subrange(0, i as int),
                    orders_add_fit(l@, r@),
                    distinct_orders(res@),
                    forall|o: u32|
                        #[trigger] coeff_of(res@, o) == acc_coeff(
                            conv_has(li, r@, o as int) || row_has(a, r@.subrange(0, j as int), o as int),
                            conv_sum(li, r@, o as int) + row_sum(a, r@.subrange(0, j as int), o as int),
                        ),
                    forall|y: u64| #[trigger] ys_value(res@, y) == fadd_spec(
                        fmul_spec(ys_value(li, y), ys_value(r@, y)),
                        fmul_spec(term_value(a, y), ys_value(r@.subrange(0, j as int), y)),
                    ),
                decreases nr - j,
            {
                let b = r[j];
                assert(l@[i as int].0 + r@[j as int].0 <= u32::MAX);
                let o = a.0 + b.0;
                let f = fmul(a.1, b.1);
                let ghost before = res@;
                add_term(&mut res, o, f);
                proof {
                    let rj = r@.subrange(0, j as int);
                    let rj1 = r@.subrange(0, j as int + 1);
                    assert(rj1.drop_last() =~= rj);
                    assert forall|p: u32| #[trigger]
                        coeff_of(res@, p) == acc_coeff(
                            conv_has(li, r@, p as int) || row_has(a, rj1, p as int),
                            conv_sum(li, r@, p as int) + row_sum(a, rj1, p as int),
                        ) by {
                        let h0 = conv_has(li, r@, p as int) || row_has(a, rj, p as int);
                        let s0 = conv_sum(li, r@, p as int) + row_sum(a, rj, p as int);
                        if row_has(a, rj, p as int) {
                            let w = choose|w: int| 0 <= w < rj.len() && a.0 + (#[trigger] rj[w]).0 == p;
                            assert(rj1[w] == rj[w]);
                        }
                        if !h0 {
                            lemma_conv_sum_zero(li, r@, p as int);
                            lemma_row_sum_zero(a, rj, p as int);
                        }
                        if p == o {
                            assert(rj1[j as int] == b);
                            lemma_acc_step(h0, s0, f);
                        } else {
                            if row_has(a, rj1, p as int) {
                                let w = choose|w: int| 0 <= w < rj1.len() && a.0 + (#[trigger] rj1[w]).0 == p;
                                assert(w != j);
                                assert(rj[w] == rj1[w]);
                            }
                        }
                    }
                    assert forall|y: u64| #[trigger] ys_value(res@, y) == fadd_spec(
                        fmul_spec(ys_value(li, y), ys_value(r@, y)),
                        fmul_spec(term_value(a, y), ys_value(rj1, y)),
                    ) by {
                        let x = fmul_spec(ys_value(li, y), ys_value(r@, y));
                        let t = term_value(a, y);
                        let tb = term_value(b, y);
                        let rv = ys_value(rj, y);
                        lemma_value_push(rj, b, y);
                        assert(rj1 =~= rj.push(b));
                        lemma_fpow_add(y, a.0 as nat, b.0 as nat);
                        assert(o as nat == a.0 as nat + b.0 as nat);
                        lemma_mul4(fpow(y, a.0 as nat), a.1, fpow(y, b.0 as nat), b.1);
                        assert(term_value((o, f), y) == fmul_spec(t, tb));
                        lemma_fmul_laws(t, rv, tb);
                        lemma_fadd_laws(x, fmul_spec(t, rv), fmul_spec(t, tb));
                    }
                }
                j += 1;
            }
            proof {
                let li1 = l@.subrange(0, i as int + 1);
                assert(li1.drop_last() =~= li);
                assert(r@.subrange(0, nr as int) =~= r@);
                assert forall|y: u64| #[trigger] ys_value(res@, y) == fmul_spec(ys_value(li1, y), ys_value(r@, y)) by {
                    let lv = ys_value(li, y);
                    let t = term_value(a, y);
                    let rv = ys_value(r@, y);
                    assert(li1 =~= li.push(a));
                    lemma_value_push(li, a, y);
                    lemma_fmul_laws(rv, lv, t);
                    lemma_fmul_laws(lv, rv, 0);
                    lemma_fmul_laws(t, rv, 0);
                    lemma_fmul_laws(fadd_spec(lv, t), rv, 0);
                }
                assert forall|p: u32| #[trigger] coeff_of(res@, p) == acc_coeff(
                    conv_has(li1, r@, p as int),
                    conv_sum(li1, r@, p as int),
                ) by {
                    if conv_has(li, r@, p as int) {
                        let (x, y) = choose|x: int, y: int| 0 <= x < li.len() && 0 <= y < r@.len()
                            && (#[trigger] li[x]).0 + (#[trigger] r@[y]).0 == p;
                        assert(li1[x] == li[x]);
                    }
                    if row_has(a, r@, p as int) {
                        let y = choose|y: int| 0 <= y < r@.len() && a.0 + (#[trigger] r@[y]).0 == p;
                        assert(li1[i as int] == a);
                    }
                    if conv_has(li1, r@, p as int) {
                        let (x, y) = choose|x: int, y: int| 0 <= x < li1.len() && 0 <= y < r@.len()
                            && (#[trigger] li1[x]).0 + (#[trigger] r@[y]).0 == p;
                        if x < i {
                            assert(li[x] == li1[x]);
                        }
                    }
                }
            }
            i += 1;
        }
        assert(l@.subrange(0, nl as int) =~= l@);
        res
    }
}

} // verus!
