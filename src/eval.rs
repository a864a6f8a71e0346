//! Host evaluation of expression trees over a domain of column values.
//!
//! Every column holds one value per domain point. A cell read at rotation
//! `r` takes, at point `i`, the column's value at `i + r * rot_scale`,
//! wrapping around the domain. A `Y` leaf is the same scalar everywhere.
use vstd::prelude::*;
use vstd::arithmetic::div_mod::{lemma_fundamental_div_mod, lemma_fundamental_div_mod_converse};
use crate::expression::{LookupProveExpression, ProveExpression};
use crate::field::{fadd, fadd_spec, fmul, fmul_spec, MODULUS};
use crate::unit::ProveExpressionUnit;

verus! {

/// Column values in evaluation form, by kind and column index.
pub struct Columns {
    pub fixed: Vec<Vec<u64>>,
    pub advice: Vec<Vec<u64>>,
    pub instance: Vec<Vec<u64>>,
}

/// `y` to the power `n`, as a canonical scalar.
pub open spec fn fpow(y: u64, n: nat) -> u64
    decreases n,
{
    if n == 0 {
        1
    } else {
        fmul_spec(fpow(y, (n - 1) as nat), y)
    }
}

/// Whether `s` holds the first powers of `y`: `s[i] == y^i`.
pub open spec fn is_power_cache(s: Seq<u64>, y: u64) -> bool {
    forall|i: int| 0 <= i < s.len() ==> #[trigger] s[i] == fpow(y, i as nat)
}

/// The value of a term list at `y`: the sum of `y^o * c` over its terms
/// (0 for an empty list).
pub open spec fn ys_value(ys: Seq<(u32, u64)>, y: u64) -> u64
    decreases ys.len(),
{
    if ys.len() == 0 {
        0
    } else {
        fadd_spec(ys_value(ys.drop_last(), y), fmul_spec(fpow(y, ys.last().0 as nat), ys.last().1))
    }
}

impl Columns {
    /// The column that a cell reads.
    pub open spec fn column(&self, u: ProveExpressionUnit) -> Seq<u64> {
        match u {
            ProveExpressionUnit::Fixed { column_index, .. } => self.fixed@[column_index as int]@,
            ProveExpressionUnit::Advice { column_index, .. } => self.advice@[column_index as int]@,
            ProveExpressionUnit::Instance { column_index, .. } => self.instance@[column_index as int]@,
        }
    }

    /// Whether the column that a cell reads exists and has `n` values.
    pub open spec fn has_cell(&self, u: ProveExpressionUnit, n: nat) -> bool {
        &&& match u {
            ProveExpressionUnit::Fixed { column_index, .. } => column_index < self.fixed.len(),
            ProveExpressionUnit::Advice { column_index, .. } => column_index < self.advice.len(),
            ProveExpressionUnit::Instance { column_index, .. } => column_index < self.instance.len(),
        }
        &&& self.column(u).len() == n
    }

    /// Whether every cell of a tree reads a column of `n` values.
    pub open spec fn covers(&self, e: ProveExpression, n: nat) -> bool
        decreases e,
    {
        match e {
            ProveExpression::Unit(u) => self.has_cell(u, n),
            ProveExpression::Sum(l, r) => self.covers(*l, n) && self.covers(*r, n),
            ProveExpression::Product(l, r) => self.covers(*l, n) && self.covers(*r, n),
            ProveExpression::Y(_) => true,
        }
    }

    /// Whether every cell of a lookup expression reads a column of `n` values.
    pub open spec fn covers_lookup(&self, e: LookupProveExpression, n: nat) -> bool
        decreases e,
    {
        match e {
            LookupProveExpression::Expression(x) => self.covers(x, n),
            LookupProveExpression::LcTheta(l, r) => self.covers_lookup(*l, n) && self.covers_lookup(*r, n),
            LookupProveExpression::LcBeta(l, r) => self.covers_lookup(*l, n) && self.covers_lookup(*r, n),
            LookupProveExpression::AddGamma(l) => self.covers_lookup(*l, n),
        }
    }
}

/// Whether the cell `u` occurs in a tree.
pub open spec fn occurs(e: ProveExpression, u: ProveExpressionUnit) -> bool
    decreases e,
{
    match e {
        ProveExpression::Unit(v) => v == u,
        ProveExpression::Sum(l, r) => occurs(*l, u) || occurs(*r, u),
        ProveExpression::Product(l, r) => occurs(*l, u) || occurs(*r, u),
        ProveExpression::Y(_) => false,
    }
}

/// A tree is covered exactly when every cell that occurs in it reads a
/// column of `n` values.
pub proof fn lemma_covers_occurs(cols: Columns, e: ProveExpression, n: nat)
    ensures
        cols.covers(e, n) <==> forall|u: ProveExpressionUnit| #[trigger] occurs(e, u) ==> cols.has_cell(u, n),
    decreases e,
{
    match e {
        ProveExpression::Sum(l, r) => {
            lemma_covers_occurs(cols, *l, n);
            lemma_covers_occurs(cols, *r, n);
            if forall|u: ProveExpressionUnit| #[trigger] occurs(e, u) ==> cols.has_cell(u, n) {
                assert forall|u: ProveExpressionUnit| #[trigger] occurs(*l, u) implies cols.has_cell(u, n) by {
                    assert(occurs(e, u));
                }
                assert forall|u: ProveExpressionUnit| #[trigger] occurs(*r, u) implies cols.has_cell(u, n) by {
                    assert(occurs(e, u));
                }
            }
            if cols.covers(e, n) {
                assert forall|u: ProveExpressionUnit| #[trigger] occurs(e, u) implies cols.has_cell(u, n) by {
                    if occurs(*l, u) {
                    } else {
                        assert(occurs(*r, u));
                    }
                }
            }
        },
        ProveExpression::Product(l, r) => {
            lemma_covers_occurs(cols, *l, n);
            lemma_covers_occurs(cols, *r, n);
            if forall|u: ProveExpressionUnit| #[trigger] occurs(e, u) ==> cols.has_cell(u, n) {
                assert forall|u: ProveExpressionUnit| #[trigger] occurs(*l, u) implies cols.has_cell(u, n) by {
                    assert(occurs(e, u));
                }
                assert forall|u: ProveExpressionUnit| #[trigger] occurs(*r, u) implies cols.has_cell(u, n) by {
                    assert(occurs(e, u));
                }
            }
            if cols.covers(e, n) {
                assert forall|u: ProveExpressionUnit| #[trigger] occurs(e, u) implies cols.has_cell(u, n) by {
                    if occurs(*l, u) {
                    } else {
                        assert(occurs(*r, u));
                    }
                }
            }
        },
        ProveExpression::Unit(v) => {
            assert(occurs(e, v));
        },
        ProveExpression::Y(_) => {},
    }
}

/// The point that a cell at rotation `rot` reads when evaluated at point `i`.
pub open spec fn rotated(i: int, rot: i32, scale: usize, n: nat) -> int {
    (i + rot as int * scale as int) % (n as int)
}

/// The cell values at point `i`: each cell reads its column at the rotated
/// point, reduced to a canonical scalar.
pub open spec fn cell_at(cols: Columns, scale: usize, n: nat, i: int) -> spec_fn(ProveExpressionUnit) -> u64 {
    |u: ProveExpressionUnit| (cols.column(u)[rotated(i, u.rot(), scale, n)] % MODULUS) as u64
}

/// The value of a tree when each cell takes the value `a(cell)`.
pub open spec fn eval_with(e: ProveExpression, a: spec_fn(ProveExpressionUnit) -> u64, y: u64) -> u64
    decreases e,
{
    match e {
        ProveExpression::Unit(u) => a(u),
        ProveExpression::Sum(l, r) => fadd_spec(eval_with(*l, a, y), eval_with(*r, a, y)),
        ProveExpression::Product(l, r) => fmul_spec(eval_with(*l, a, y), eval_with(*r, a, y)),
        ProveExpression::Y(ys) => ys_value(ys@, y),
    }
}

/// The value of a tree at point `i` of a domain of `n` points.
pub open spec fn eval_at(e: ProveExpression, cols: Columns, y: u64, scale: usize, n: nat, i: int) -> u64 {
    eval_with(e, cell_at(cols, scale, n, i), y)
}

/// The value of a lookup expression at point `i`: `LcTheta(l, r)` is
/// `l + theta * r`, `LcBeta(l, r)` is `l + beta * r`, `AddGamma(l)` is `l + gamma`.
pub open spec fn lookup_eval_at(
    e: LookupProveExpression,
    cols: Columns,
    y: u64,
    beta: u64,
    theta: u64,
    gamma: u64,
    scale: usize,
    n: nat,
    i: int,
) -> u64
    decreases e,
{
    match e {
        LookupProveExpression::Expression(x) => eval_at(x, cols, y, scale, n, i),
        LookupProveExpression::LcTheta(l, r) => fadd_spec(
            lookup_eval_at(*l, cols, y, beta, theta, gamma, scale, n, i),
            fmul_spec(theta, lookup_eval_at(*r, cols, y, beta, theta, gamma, scale, n, i)),
        ),
        LookupProveExpression::LcBeta(l, r) => fadd_spec(
            lookup_eval_at(*l, cols, y, beta, theta, gamma, scale, n, i),
            fmul_spec(beta, lookup_eval_at(*r, cols, y, beta, theta, gamma, scale, n, i)),
        ),
        LookupProveExpression::AddGamma(l) => fadd_spec(
            lookup_eval_at(*l, cols, y, beta, theta, gamma, scale, n, i),
            gamma,
        ),
    }
}

/// The larger of two naturals.
pub open spec fn max_nat(a: nat, b: nat) -> nat {
    if a >= b { a } else { b }
}

/// Number of powers of `y` that a term list reads: one past its highest order.
pub open spec fn terms_need(ys: Seq<(u32, u64)>) -> nat
    decreases ys.len(),
{
    if ys.len() == 0 {
        0
    } else {
        max_nat(terms_need(ys.drop_last()), ys.last().0 as nat + 1)
    }
}

/// Number of powers of `y` that evaluating a tree reads.
pub open spec fn cache_need(e: ProveExpression) -> nat
    decreases e,
{
    match e {
        ProveExpression::Unit(_) => 0,
        ProveExpression::Sum(l, r) => max_nat(cache_need(*l), cache_need(*r)),
        ProveExpression::Product(l, r) => max_nat(cache_need(*l), cache_need(*r)),
        ProveExpression::Y(ys) => terms_need(ys@),
    }
}

/// Number of powers of `y` that evaluating a lookup expression reads.
pub open spec fn lookup_cache_need(e: LookupProveExpression) -> nat
    decreases e,
{
    match e {
        LookupProveExpression::Expression(x) => cache_need(x),
        LookupProveExpression::LcTheta(l, r) => max_nat(lookup_cache_need(*l), lookup_cache_need(*r)),
        LookupProveExpression::LcBeta(l, r) => max_nat(lookup_cache_need(*l), lookup_cache_need(*r)),
        LookupProveExpression::AddGamma(l) => lookup_cache_need(*l),
    }
}

/// `y^o`, read from the cache of powers, which grows as needed.
fn y_power(cache: &mut Vec<u64>, y: u64, o: u32) -> (r: u64)
    requires
        old(cache)@.len() >= 1,
        is_power_cache(old(cache)@, y),
    ensures
        final(cache)@.len() == max_nat(old(cache)@.len(), o as nat + 1),
        is_power_cache(final(cache)@, y),
        r == fpow(y, o as nat),
{
    while cache.len() <= o as usize
        invariant
            cache@.len() >= old(cache)@.len(),
            cache@.len() <= max_nat(old(cache)@.len(), o as nat + 1),
            cache@.len() >= 1,
            is_power_cache(cache@, y),
        decreases o as int + 1 - cache@.len(),
    {
        let last = cache[cache.len() - 1];
        let next = fmul(last, y);
        let ghost before = cache@;
        cache.push(next);
        proof {
            assert(before[before.len() - 1] == fpow(y, (before.len() - 1) as nat));
            assert forall|i: int| 0 <= i < cache@.len() implies #[trigger] cache@[i] == fpow(y, i as nat) by {
                if i < before.len() {
                    assert(cache@[i] == before[i]);
                }
            }
        }
    }
    cache[o as usize]
}

/// The point read at rotation `rot` from point `i`, wrapping around `n` points.
fn rotate_index(i: usize, rot: i32, scale: usize, n: usize) -> (r: usize)
    requires
        n > 0,
        i < n,
    ensures
        r == rotated(i as int, rot, scale, n as nat),
        r < n,
{
    assert(-0x8000_0000i128 * 0xffff_ffff_ffff_ffffi128 <= rot as i128 * scale as i128 <= 0x7fff_ffffi128 * 0xffff_ffff_ffff_ffffi128) by (nonlinear_arith)
        requires
            -0x8000_0000 <= rot <= 0x7fff_ffff,
            0 <= scale <= usize::MAX,
            usize::MAX <= 0xffff_ffff_ffff_ffffu64,
    {
    }
    let s: i128 = i as i128 + rot as i128 * scale as i128;
    let nn: i128 = n as i128;
    let ghost x = s as int;
    if s >= 0 {
        let r = (s as u128 % n as u128) as usize;
        r
    } else {
        let a: u128 = ((-s) as u128) % (n as u128);
        let r: usize = if a == 0 { 0 } else { (n as u128 - a) as usize };
        proof {
            let d = n as int;
            lemma_fundamental_div_mod(-x, d);
            let q = (-x) / d;
            assert(-x == d * q + a as int);
            if a == 0 {
                assert(x == (-q) * d + 0) by (nonlinear_arith)
                    requires -x == d * q + 0;
                lemma_fundamental_div_mod_converse(x, d, -q, 0);
            } else {
                assert(x == (-q - 1) * d + (d - a as int)) by (nonlinear_arith)
                    requires -x == d * q + a as int;
                lemma_fundamental_div_mod_converse(x, d, -q - 1, d - a as int);
            }
        }
        r
    }
}

impl Columns {
    /// The column that a cell reads.
    fn column_of(&self, u: &ProveExpressionUnit) -> (r: &Vec<u64>)
        requires
            exists|n: nat| self.has_cell(*u, n),
        ensures
            r@ == self.column(*u),
    {
        match u {
            ProveExpressionUnit::Fixed { column_index, .. } => &self.fixed[*column_index],
            ProveExpressionUnit::Advice { column_index, .. } => &self.advice[*column_index],
            ProveExpressionUnit::Instance { column_index, .. } => &self.instance[*column_index],
        }
    }
}

impl Columns {
    /// Whether the column that a cell reads exists and has `n` values.
    pub fn has_cell_check(&self, u: &ProveExpressionUnit, n: usize) -> (r: bool)
        ensures
            r == self.has_cell(*u, n as nat),
    {
        match u {
            ProveExpressionUnit::Fixed { column_index, .. } => *column_index < self.fixed.len() && self.fixed[*column_index].len() == n,
            ProveExpressionUnit::Advice { column_index, .. } => *column_index < self.advice.len() && self.advice[*column_index].len() == n,
            ProveExpressionUnit::Instance { column_index, .. } => *column_index < self.instance.len() && self.instance[*column_index].len() == n,
        }
    }

    /// Whether every cell of a tree reads a column of `n` values.
    pub fn covers_check(&self, e: &ProveExpression, n: usize) -> (r: bool)
        ensures
            r == self.covers(*e, n as nat),
        decreases e,
    {
        match e {
            ProveExpression::Unit(u) => self.has_cell_check(u, n),
            ProveExpression::Sum(l, r) => self.covers_check(l, n) && self.covers_check(r, n),
            ProveExpression::Product(l, r) => self.covers_check(l, n) && self.covers_check(r, n),
            ProveExpression::Y(_) => true,
        }
    }

    /// Whether every cell of a lookup expression reads a column of `n` values.
    pub fn covers_lookup_check(&self, e: &LookupProveExpression, n: usize) -> (r: bool)
        ensures
            r == self.covers_lookup(*e, n as nat),
        decreases e,
    {
        match e {
            LookupProveExpression::Expression(x) => self.covers_check(x, n),
            LookupProveExpression::LcTheta(l, r) => self.covers_lookup_check(l, n) && self.covers_lookup_check(r, n),
            LookupProveExpression::LcBeta(l, r) => self.covers_lookup_check(l, n) && self.covers_lookup_check(r, n),
            LookupProveExpression::AddGamma(l) => self.covers_lookup_check(l, n),
        }
    }
}

/// `n` copies of a scalar.
fn broadcast(c: u64, n: usize) -> (r: Vec<u64>)
    ensures
        r@.len() == n,
        forall|i: int| 0 <= i < n ==> #[trigger] r@[i] == c,
{
    let mut r: Vec<u64> = Vec::new();
    while r.len() < n
        invariant
            r@.len() <= n,
            forall|i: int| 0 <= i < r@.len() ==> #[trigger] r@[i] == c,
        decreases n - r@.len(),
    {
        r.push(c);
    }
    r
}

impl ProveExpression {
    /// Values of the tree at every point of a domain of `n` points, drawing
    /// powers of `y` from a cache shared across the whole walk.
    fn eval_node(&self, cols: &Columns, y: u64, scale: usize, n: usize, cache: &mut Vec<u64>) -> (r: Vec<u64>)
        requires
            n > 0,
            cols.covers(*self, n as nat),
            old(cache)@.len() >= 1,
            is_power_cache(old(cache)@, y),
        ensures
            final(cache)@.len() == max_nat(old(cache)@.len(), cache_need(*self)),
            is_power_cache(final(cache)@, y),
            r@.len() == n,
            forall|i: int| 0 <= i < n ==> #[trigger] r@[i] == eval_at(*self, *cols, y, scale, n as nat, i),
        decreases self,
    {
        match self {
            ProveExpression::Unit(u) => {
                let col = cols.column_of(u);
                let rot = u.rotation();
                let mut out: Vec<u64> = Vec::new();
                let mut i: usize = 0;
                while i < n
                    invariant
                        0 <= i <= n,
                        n > 0,
                        col@ == cols.column(*u),
                        col@.len() == n,
                        rot == u.rot(),
                        out@.len() == i,
                        forall|p: int| 0 <= p < i ==> #[trigger] out@[p] == (col@[rotated(p, rot, scale, n as nat)] % MODULUS) as u64,
                    decreases n - i,
                {
                    let j = rotate_index(i, rot, scale, n);
                    let ghost before = out@;
                    out.push(col[j] % MODULUS);
                    proof {
                        assert forall|p: int| 0 <= p < i + 1 implies #[trigger] out@[p] == (col@[rotated(p, rot, scale, n as nat)] % MODULUS) as u64 by {
                            if p < i {
                                assert(out@[p] == before[p]);
                            }
                        }
                    }
                    i += 1;
                }
                out
            },
            ProveExpression::Sum(l, r) => {
                let a = l.eval_node(cols, y, scale, n, cache);
                let b = r.eval_node(cols, y, scale, n, cache);
                let mut out: Vec<u64> = Vec::new();
                let mut i: usize = 0;
                while i < n
                    invariant
                        0 <= i <= n,
                        a@.len() == n,
                        b@.len() == n,
                        forall|p: int| 0 <= p < n ==> #[trigger] a@[p] == eval_at(**l, *cols, y, scale, n as nat, p),
                        forall|p: int| 0 <= p < n ==> #[trigger] b@[p] == eval_at(**r, *cols, y, scale, n as nat, p),
                        out@.len() == i,
                        forall|p: int| 0 <= p < i ==> #[trigger] out@[p] == fadd_spec(a@[p], b@[p]),
                    decreases n - i,
                {
                    let ghost before = out@;
                    out.push(fadd(a[i], b[i]));
                    proof {
                        assert forall|p: int| 0 <= p < i + 1 implies #[trigger] out@[p] == fadd_spec(a@[p], b@[p]) by {
                            if p < i {
                                assert(out@[p] == before[p]);
                            }
                        }
                    }
                    i += 1;
                }
                out
            },
            ProveExpression::Product(l, r) => {
                let a = l.eval_node(cols, y, scale, n, cache);
                let b = r.eval_node(cols, y, scale, n, cache);
                let mut out: Vec<u64> = Vec::new();
                let mut i: usize = 0;
                while i < n
                    invariant
                        0 <= i <= n,
                        a@.len() == n,
                        b@.len() == n,
                        forall|p: int| 0 <= p < n ==> #[trigger] a@[p] == eval_at(**l, *cols, y, scale, n as nat, p),
                        forall|p: int| 0 <= p < n ==> #[trigger] b@[p] == eval_at(**r, *cols, y, scale, n as nat, p),
                        out@.len() == i,
                        forall|p: int| 0 <= p < i ==> #[trigger] out@[p] == fmul_spec(a@[p], b@[p]),
                    decreases n - i,
                {
                    let ghost before = out@;
                    out.push(fmul(a[i], b[i]));
                    proof {
                        assert forall|p: int| 0 <= p < i + 1 implies #[trigger] out@[p] == fmul_spec(a@[p], b@[p]) by {
                            if p < i {
                                assert(out@[p] == before[p]);
                            }
                        }
                    }
                    i += 1;
                }
                out
            },
            ProveExpression::Y(ys) => {
                let mut acc: u64 = 0;
                let mut k: usize = 0;
                while k < ys.len()
                    invariant
                        0 <= k <= ys@.len(),
                        cache@.len() == max_nat(old(cache)@.len(), terms_need(ys@.subrange(0, k as int))),
                        old(cache)@.len() >= 1,
                        is_power_cache(cache@, y),
                        acc == ys_value(ys@.subrange(0, k as int), y),
                    decreases ys@.len() - k,
                {
                    let (o, c) = ys[k];
                    let p = y_power(cache, y, o);
                    acc = fadd(acc, fmul(p, c));
                    proof {
                        let s1 = ys@.subrange(0, k as int + 1);
                        assert(s1.drop_last() =~= ys@.subrange(0, k as int));
                        assert(s1.last() == (o, c));
                        assert(terms_need(s1) == max_nat(terms_need(ys@.subrange(0, k as int)), o as nat + 1));
                    }
                    k += 1;
                }
                assert(ys@.subrange(0, ys@.len() as int) =~= ys@);
                broadcast(acc, n)
            },
        }
    }

    /// Values of the tree at every point of a domain of `n` points, with
    /// column values in evaluation form and rotations scaled by `rot_scale`.
    ///
    /// A `Y` leaf with no terms stands for the zero polynomial and evaluates
    /// to 0; trees built by `new`, `from_expr`, `add_gate` and by re-factoring
    /// their normal forms hold no such leaf unless one was put in by hand.
    pub fn evaluate(&self, columns: &Columns, n: usize, y: u64, rot_scale: usize) -> (r: Vec<u64>)
        requires
            n > 0,
            columns.covers(*self, n as nat),
        ensures
            r@.len() == n,
            forall|i: int| 0 <= i < n ==> #[trigger] r@[i] == eval_at(*self, *columns, y, rot_scale, n as nat, i),
    {
        let mut cache: Vec<u64> = Vec::new();
        cache.push(1);
        self.eval_node(columns, y, rot_scale, n, &mut cache)
    }
}

impl LookupProveExpression {
    fn eval_node(
        &self,
        cols: &Columns,
        y: u64,
        beta: u64,
        theta: u64,
        gamma: u64,
        scale: usize,
        n: usize,
        cache: &mut Vec<u64>,
    ) -> (r: Vec<u64>)
        requires
            n > 0,
            cols.covers_lookup(*self, n as nat),
            old(cache)@.len() >= 1,
            is_power_cache(old(cache)@, y),
        ensures
            final(cache)@.len() == max_nat(old(cache)@.len(), lookup_cache_need(*self)),
            is_power_cache(final(cache)@, y),
            r@.len() == n,
            forall|i: int| 0 <= i < n ==> #[trigger] r@[i] == lookup_eval_at(*self, *cols, y, beta, theta, gamma, scale, n as nat, i),
        decreases self,
    {
        match self {
            LookupProveExpression::Expression(e) => e.eval_node(cols, y, scale, n, cache),
            LookupProveExpression::LcTheta(l, r) | LookupProveExpression::LcBeta(l, r) => {
                let factor = if matches!(self, LookupProveExpression::LcTheta(..)) { theta } else { beta };
                let a = l.eval_node(cols, y, beta, theta, gamma, scale, n, cache);
                let b = r.eval_node(cols, y, beta, theta, gamma, scale, n, cache);
                let mut out: Vec<u64> = Vec::new();
                let mut i: usize = 0;
                while i < n
                    invariant
                        0 <= i <= n,
                        a@.len() == n,
                        b@.len() == n,
                        forall|p: int| 0 <= p < n ==> #[trigger] a@[p] == lookup_eval_at(**l, *cols, y, beta, theta, gamma, scale, n as nat, p),
                        forall|p: int| 0 <= p < n ==> #[trigger] b@[p] == lookup_eval_at(**r, *cols, y, beta, theta, gamma, scale, n as nat, p),
                        out@.len() == i,
                        forall|p: int| 0 <= p < i ==> #[trigger] out@[p] == fadd_spec(a@[p], fmul_spec(factor, b@[p])),
                    decreases n - i,
                {
                    let ghost before = out@;
                    out.push(fadd(a[i], fmul(factor, b[i])));
                    proof {
                        assert forall|p: int| 0 <= p < i + 1 implies #[trigger] out@[p] == fadd_spec(a@[p], fmul_spec(factor, b@[p])) by {
                            if p < i {
                                assert(out@[p] == before[p]);
                            }
                        }
                    }
                    i += 1;
                }
                out
            },
            LookupProveExpression::AddGamma(l) => {
                let a = l.eval_node(cols, y, beta, theta, gamma, scale, n, cache);
                let mut out: Vec<u64> = Vec::new();
                let mut i: usize = 0;
                while i < n
                    invariant
                        0 <= i <= n,
                        a@.len() == n,
                        forall|p: int| 0 <= p < n ==> #[trigger] a@[p] == lookup_eval_at(**l, *cols, y, beta, theta, gamma, scale, n as nat, p),
                        out@.len() == i,
                        forall|p: int| 0 <= p < i ==> #[trigger] out@[p] == fadd_spec(a@[p], gamma),
                    decreases n - i,
                {
                    let ghost before = out@;
                    out.push(fadd(a[i], gamma));
                    proof {
                        assert forall|p: int| 0 <= p < i + 1 implies #[trigger] out@[p] == fadd_spec(a@[p], gamma) by {
                            if p < i {
                                assert(out@[p] == before[p]);
                            }
                        }
                    }
                    i += 1;
                }
                out
            },
        }
    }

    /// Values of the lookup expression at every point of a domain of `n`
    /// points, with the lookup challenges theta, beta and gamma.
    pub fn evaluate(
        &self,
        columns: &Columns,
        n: usize,
        y: u64,
        beta: u64,
        theta: u64,
        gamma: u64,
        rot_scale: usize,
    ) -> (r: Vec<u64>)
        requires
            n > 0,
            columns.covers_lookup(*self, n as nat),
        ensures
            r@.len() == n,
            forall|i: int| 0 <= i < n ==> #[trigger] r@[i] == lookup_eval_at(*self, *columns, y, beta, theta, gamma, rot_scale, n as nat, i),
    {
        let mut cache: Vec<u64> = Vec::new();
        cache.push(1);
        self.eval_node(columns, y, beta, theta, gamma, rot_scale, n, &mut cache)
    }
}

} // verus!
