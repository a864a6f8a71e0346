//! Scalars of the coefficient field: residues modulo a prime, held in a `u64`.
//!
//! Any `u64` stands for its residue; every operation returns the canonical
//! representative, below `MODULUS`.
use vstd::prelude::*;
use vstd::arithmetic::div_mod::{
    lemma_add_mod_noop_right, lemma_mod_twice, lemma_mul_mod_noop_left, lemma_mul_mod_noop_right,
    lemma_small_mod,
};
use vstd::arithmetic::mul::{lemma_mul_is_associative, lemma_mul_is_commutative, lemma_mul_is_distributive_add};

verus! {

/// The prime modulus of the scalar field, `2^64 - 2^32 + 1`.
pub const MODULUS: u64 = 0xffff_ffff_0000_0001;

/// The residue that a scalar stands for.
pub open spec fn fval(a: u64) -> int {
    (a as int) % (MODULUS as int)
}

/// Canonical sum of two scalars.
pub open spec fn fadd_spec(a: u64, b: u64) -> u64 {
    ((a as int + b as int) % (MODULUS as int)) as u64
}

/// Canonical product of two scalars.
pub open spec fn fmul_spec(a: u64, b: u64) -> u64 {
    ((a as int * b as int) % (MODULUS as int)) as u64
}

/// Canonical additive inverse of a scalar.
pub open spec fn fneg_spec(a: u64) -> u64 {
    ((MODULUS as int - fval(a)) % (MODULUS as int)) as u64
}

/// The sum of two scalars.
pub fn fadd(a: u64, b: u64) -> (r: u64)
    ensures
        r == fadd_spec(a, b),
        r < MODULUS,
{
    let s: u128 = (a as u128) + (b as u128);
    (s % (MODULUS as u128)) as u64
}

/// The product of two scalars.
pub fn fmul(a: u64, b: u64) -> (r: u64)
    ensures
        r == fmul_spec(a, b),
        r < MODULUS,
{
    assert((a as u128) * (b as u128) <= u128::MAX) by (nonlinear_arith)
        requires
            a <= u64::MAX,
            b <= u64::MAX,
    {
    }
    let p: u128 = (a as u128) * (b as u128);
    (p % (MODULUS as u128)) as u64
}

/// The additive inverse of a scalar.
pub fn fneg(a: u64) -> (r: u64)
    ensures
        r == fneg_spec(a),
        r < MODULUS,
        fadd_spec(a, r) == 0,
{
    let c: u64 = a % MODULUS;
    let r: u64 = if c == 0 { 0 } else { MODULUS - c };
    assert(fadd_spec(a, r) == 0) by (nonlinear_arith)
        requires
            c == a % MODULUS,
            r == (if c == 0 { 0 } else { MODULUS - c }),
            MODULUS == 0xffff_ffff_0000_0001u64,
    {
    }
    r
}

/// Addition of scalars is commutative and associative, with zero as identity
/// on canonical scalars.
pub proof fn lemma_fadd_laws(a: u64, b: u64, c: u64)
    ensures
        fadd_spec(a, b) == fadd_spec(b, a),
        fadd_spec(fadd_spec(a, b), c) == fadd_spec(a, fadd_spec(b, c)),
        a < MODULUS ==> fadd_spec(a, 0) == a,
{
    let m = MODULUS as int;
    lemma_add_mod_noop_right(c as int, a as int + b as int, m);
    lemma_add_mod_noop_right(a as int, b as int + c as int, m);
    assert(c as int + (a as int + b as int) == a as int + (b as int + c as int));
    if a < MODULUS {
        lemma_small_mod(a as nat, m as nat);
    }
}

/// Multiplication of scalars is commutative and associative, distributes
/// over addition, and has zero as an absorbing element.
pub proof fn lemma_fmul_laws(a: u64, b: u64, c: u64)
    ensures
        fmul_spec(a, b) == fmul_spec(b, a),
        fmul_spec(fmul_spec(a, b), c) == fmul_spec(a, fmul_spec(b, c)),
        fmul_spec(a, fadd_spec(b, c)) == fadd_spec(fmul_spec(a, b), fmul_spec(a, c)),
        fmul_spec(a, 0) == 0,
{
    let m = MODULUS as int;
    let (x, y, z) = (a as int, b as int, c as int);
    lemma_mul_is_commutative(x, y);
    lemma_mul_mod_noop_left(x * y, z, m);
    lemma_mul_mod_noop_right(x, y * z, m);
    lemma_mul_is_associative(x, y, z);
    lemma_mul_mod_noop_right(x, y + z, m);
    lemma_mul_is_distributive_add(x, y, z);
    assert(x * y >= 0 && x * z >= 0) by (nonlinear_arith)
        requires
            x >= 0,
            y >= 0,
            z >= 0,
    ;
    lemma_add_mod_noop_right(x * y % m, x * z, m);
    lemma_add_mod_noop_right(x * z, x * y, m);
    lemma_add_mod_noop_right(x * y, x * z, m);
    assert((x * z % m + x * y % m) % m == (x * z % m + x * y) % m) by {
        lemma_add_mod_noop_right(x * z % m, x * y, m);
    }
    assert((x * z % m + x * y) % m == (x * y + x * z) % m) by {
        lemma_add_mod_noop_right(x * y, x * z % m, m);
        lemma_add_mod_noop_right(x * y, x * z, m);
        assert(x * y + x * z % m == x * z % m + x * y);
    }
    assert(x * 0 == 0);
}

} // verus!
