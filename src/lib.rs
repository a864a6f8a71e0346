//! Symbolic constraint expressions of a PLONK-style prover.
//!
//! - `field`: scalars, residues modulo a 64-bit prime, and their ring laws.
//! - `unit`, `expression`: column cells, circuit expressions and the prover's
//!   expression trees; construction from gates and the degree bound.
//! - `terms`, `monomial`, `canonical`: normalisation into canonical monomial
//!   form, with exact coefficients and the tree's value preserved.
//! - `plan`: greedy re-factoring of a canonical form into an evaluation plan,
//!   which keeps the value and never costs more operations than the naive one.
//! - `eval`: host evaluation over a domain of column values, and the lookup
//!   combinations by theta, beta and gamma.
//! - `fft`: the pass schedule of the radix-decomposed forward transform.
//! - `cost`: proof-size accounting from a circuit's shape.
use vstd::prelude::*;

pub mod field;
pub mod unit;
pub mod expression;
pub mod terms;
pub mod monomial;
pub mod canonical;
pub mod plan;
pub mod eval;
pub mod cost;
pub mod fft;

verus! {

} // verus!
