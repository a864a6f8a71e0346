//! Proof-size accounting: how many group elements and scalars each part of a
//! proof contributes, from a circuit's shape.
use vstd::prelude::*;

verus! {

/// Commitments (group elements) and evaluations (scalars) that one part of a
/// proof contributes.
#[derive(Clone, Copy, Debug, PartialEq, Eq, Structural)]
pub struct ProofContribution {
    pub commitments: usize,
    pub evaluations: usize,
}

impl ProofContribution {
    pub fn new(commitments: usize, evaluations: usize) -> (r: Self)
        ensures
            r.commitments == commitments,
            r.evaluations == evaluations,
    {
        ProofContribution { commitments, evaluations }
    }

    /// Size in bytes, given the encoded sizes of a group element and a scalar.
    pub open spec fn spec_len(&self, point: usize, scalar: usize) -> int {
        self.commitments * point + self.evaluations * scalar
    }

    /// Size in bytes, given the encoded sizes of a group element and a scalar.
    pub fn len(&self, point: usize, scalar: usize) -> (r: usize)
        requires
            self.spec_len(point, scalar) <= usize::MAX,
        ensures
            r == self.spec_len(point, scalar),
    {
        assert(0 <= self.commitments * point <= self.commitments * point + self.evaluations * scalar) by (nonlinear_arith);
        assert(0 <= self.evaluations * scalar) by (nonlinear_arith);
        self.commitments * point + self.evaluations * scalar
    }
}

/// The shape of a circuit that decides its proof size.
#[derive(Clone, Copy, Debug, PartialEq, Eq, Structural)]
pub struct CircuitCost {
    /// Power-of-2 bound on the number of rows in the circuit.
    pub k: usize,
    /// Maximum degree of the circuit.
    pub max_deg: usize,
    /// Number of advice columns.
    pub advice_columns: usize,
    /// Number of direct queries of instance columns.
    pub instance_queries: usize,
    /// Number of direct queries of advice columns.
    pub advice_queries: usize,
    /// Number of direct queries of fixed columns.
    pub fixed_queries: usize,
    /// Number of lookup arguments.
    pub lookups: usize,
    /// Number of columns in the global permutation.
    pub permutation_cols: usize,
    /// Number of distinct sets of points in the multiopening argument.
    pub point_sets: usize,
}

/// The size of a proof, broken down into its contributing parts.
#[derive(Clone, Copy, Debug, PartialEq, Eq, Structural)]
pub struct ProofSize {
    pub instance: ProofContribution,
    pub advice: ProofContribution,
    pub fixed: ProofContribution,
    pub lookups: ProofContribution,
    pub equality: ProofContribution,
    pub vanishing: ProofContribution,
    pub multiopen: ProofContribution,
    pub polycomm: ProofContribution,
}

/// `ceil(a / b)`.
pub open spec fn ceil_div(a: int, b: int) -> int {
    (a + b - 1) / b
}

impl CircuitCost {
    /// Number of chunks the permutation argument splits its columns into.
    pub open spec fn chunks(&self) -> int {
        ceil_div(self.permutation_cols as int, self.max_deg - 2)
    }

    /// Whether every count of [`CircuitCost::proof_size`] fits in a `usize`
    /// for `instances` proofs.
    pub open spec fn proof_size_fits(&self, instances: usize) -> bool {
        let c = self.chunks();
        &&& self.max_deg > 2
        &&& self.permutation_cols + self.max_deg <= usize::MAX
        &&& c >= 1
        &&& self.instance_queries * instances <= usize::MAX
        &&& self.advice_columns * instances <= usize::MAX
        &&& self.advice_queries * instances <= usize::MAX
        &&& 5 * self.lookups <= usize::MAX
        &&& 5 * self.lookups * instances <= usize::MAX
        &&& 3 * c <= usize::MAX
        &&& c * instances <= usize::MAX
        &&& (3 * c - 1) * instances + self.permutation_cols <= usize::MAX
        &&& 1 + 2 * self.k <= usize::MAX
    }

    fn permutation_chunks(&self) -> (r: usize)
        requires
            self.max_deg > 2,
            self.permutation_cols + self.max_deg <= usize::MAX,
        ensures
            r == self.chunks(),
    {
        let chunk_size = self.max_deg - 2;
        (self.permutation_cols + chunk_size - 1) / chunk_size
    }

    /// The proof size for the given number of instances of the circuit.
    pub fn proof_size(&self, instances: usize) -> (r: ProofSize)
        requires
            self.proof_size_fits(instances),
        ensures
            r.instance == (ProofContribution { commitments: 0, evaluations: (self.instance_queries * instances) as usize }),
            r.advice == (ProofContribution {
                commitments: (self.advice_columns * instances) as usize,
                evaluations: (self.advice_queries * instances) as usize,
            }),
            r.fixed == (ProofContribution { commitments: 0, evaluations: self.fixed_queries }),
            r.lookups == (ProofContribution {
                commitments: (3 * self.lookups * instances) as usize,
                evaluations: (5 * self.lookups * instances) as usize,
            }),
            r.equality == (ProofContribution {
                commitments: (self.chunks() * instances) as usize,
                evaluations: ((3 * self.chunks() - 1) * instances + self.permutation_cols) as usize,
            }),
            r.vanishing == (ProofContribution { commitments: self.max_deg, evaluations: 1 }),
            r.multiopen == (ProofContribution { commitments: 1, evaluations: self.point_sets }),
            r.polycomm == (ProofContribution { commitments: (1 + 2 * self.k) as usize, evaluations: 2 }),
    {
        let chunks = self.permutation_chunks();
        proof {
            let (l, n) = (self.lookups as int, instances as int);
            assert(0 <= 3 * l * n <= 5 * l * n) by (nonlinear_arith)
                requires
                    l >= 0,
                    n >= 0,
            ;
            assert(0 <= self.instance_queries * instances) by (nonlinear_arith);
            assert(0 <= self.advice_columns * instances) by (nonlinear_arith);
            assert(0 <= self.advice_queries * instances) by (nonlinear_arith);
            assert(0 <= chunks * instances) by (nonlinear_arith);
            assert(0 <= (3 * chunks - 1) * instances) by (nonlinear_arith)
                requires
                    chunks >= 1,
            ;
        }
        ProofSize {
            instance: ProofContribution::new(0, self.instance_queries * instances),
            advice: ProofContribution::new(self.advice_columns * instances, self.advice_queries * instances),
            fixed: ProofContribution::new(0, self.fixed_queries),
            lookups: ProofContribution::new(3 * self.lookups * instances, 5 * self.lookups * instances),
            equality: ProofContribution::new(chunks * instances, (3 * chunks - 1) * instances + self.permutation_cols),
            vanishing: ProofContribution::new(self.max_deg, 1),
            multiopen: ProofContribution::new(1, self.point_sets),
            polycomm: ProofContribution::new(1 + 2 * self.k, 2),
        }
    }
}

impl ProofSize {
    /// Bytes of each part, given the encoded sizes of a group element and a scalar.
    pub open spec fn part_lens(&self, point: usize, scalar: usize) -> Seq<int> {
        seq![
            self.instance.spec_len(point, scalar),
            self.advice.spec_len(point, scalar),
            self.fixed.spec_len(point, scalar),
            self.lookups.spec_len(point, scalar),
            self.equality.spec_len(point, scalar),
            self.vanishing.spec_len(point, scalar),
            self.multiopen.spec_len(point, scalar),
            self.polycomm.spec_len(point, scalar),
        ]
    }

    /// Total size in bytes of all parts.
    pub open spec fn spec_total(&self, point: usize, scalar: usize) -> int {
        let p = self.part_lens(point, scalar);
        p[0] + p[1] + p[2] + p[3] + p[4] + p[5] + p[6] + p[7]
    }

    /// Total size in bytes, given the encoded sizes of a group element and a scalar.
    pub fn len(&self, point: usize, scalar: usize) -> (r: usize)
        requires
            self.spec_total(point, scalar) <= usize::MAX,
        ensures
            r == self.spec_total(point, scalar),
    {
        proof {
            let ps = seq![self.instance, self.advice, self.fixed, self.lookups, self.equality, self.vanishing, self.multiopen, self.polycomm];
            assert forall|i: int| 0 <= i < 8 implies 0 <= (#[trigger] ps[i]).spec_len(point, scalar) by {
                let c = ps[i];
                assert(0 <= c.commitments * point) by (nonlinear_arith);
                assert(0 <= c.evaluations * scalar) by (nonlinear_arith);
            }
            assert(ps[0] == self.instance && ps[1] == self.advice && ps[2] == self.fixed && ps[3] == self.lookups);
            assert(ps[4] == self.equality && ps[5] == self.vanishing && ps[6] == self.multiopen && ps[7] == self.polycomm);
        }
        let mut total: usize = self.instance.len(point, scalar);
        total = total + self.advice.len(point, scalar);
        total = total + self.fixed.len(point, scalar);
        total = total + self.lookups.len(point, scalar);
        total = total + self.equality.len(point, scalar);
        total = total + self.vanishing.len(point, scalar);
        total = total + self.multiopen.len(point, scalar);
        total = total + self.polycomm.len(point, scalar);
        total
    }
}

} // verus!
