//! Host side of the radix-decomposed forward transform: the schedule of its
//! passes (which bits each pass consumes, how wide each launch is) and the
//! tables of powers of the domain generator that the passes read.
use vstd::prelude::*;
use vstd::arithmetic::power2::{lemma_pow2_unfold, pow2};
use crate::eval::fpow;
use crate::field::{fmul, fmul_spec};
use crate::terms::lemma_fpow_add;

verus! {

/// Largest number of bits that one pass consumes.
pub const MAX_LOG2_RADIX: u32 = 8;

/// Largest log2 of a launch's local work size.
pub const MAX_LOG2_LOCAL_WORK_SIZE: u32 = 7;

/// One pass of the transform: the bits already consumed (`log_p`), the bits
/// this pass consumes (`deg`), and the launch's local and global work sizes.
#[derive(Clone, Copy, Debug, PartialEq, Eq, Structural)]
pub struct FftPass {
    pub log_p: u32,
    pub deg: u32,
    pub local_work_size: u32,
    pub global_work_size: u32,
}

/// Bits per pass for a domain of `2^log_n` points.
pub open spec fn max_deg(log_n: u32) -> u32 {
    if log_n < MAX_LOG2_RADIX { log_n } else { MAX_LOG2_RADIX }
}

/// The `i`-th pass: it starts after `i * max_deg` bits and consumes
/// `max_deg` bits, or what is left.
pub open spec fn expected_pass(log_n: u32, i: int) -> FftPass {
    let md = max_deg(log_n);
    let log_p = (i * md) as u32;
    let deg = if log_n - log_p < md { (log_n - log_p) as u32 } else { md };
    let lw = if deg - 1 < MAX_LOG2_LOCAL_WORK_SIZE { (deg - 1) as u32 } else { MAX_LOG2_LOCAL_WORK_SIZE };
    FftPass {
        log_p,
        deg,
        local_work_size: 1u32 << lw,
        global_work_size: (1u32 << log_n) >> deg,
    }
}

/// The passes of the transform over `2^log_n` points: as many as it takes
/// to consume all `log_n` bits, `max_deg` bits at a time.
pub fn fft_schedule(log_n: u32) -> (r: Vec<FftPass>)
    requires
        log_n < 32,
    ensures
        r@.len() * max_deg(log_n) >= log_n,
        r@.len() == 0 || (r@.len() - 1) * max_deg(log_n) < log_n,
        forall|i: int| 0 <= i < r@.len() ==> #[trigger] r@[i] == expected_pass(log_n, i),
{
    let md: u32 = if log_n < MAX_LOG2_RADIX { log_n } else { MAX_LOG2_RADIX };
    let mut passes: Vec<FftPass> = Vec::new();
    let mut log_p: u32 = 0;
    while log_p < log_n
        invariant
            log_n < 32,
            md == max_deg(log_n),
            log_p <= log_n,
            log_p < log_n ==> log_p == passes@.len() * md,
            log_p == log_n && log_n > 0 ==> passes@.len() * md >= log_n && passes@.len() >= 1 && (passes@.len() - 1) * md < log_n,
            log_n == 0 ==> passes@.len() == 0,
            forall|i: int| 0 <= i < passes@.len() ==> #[trigger] passes@[i] == expected_pass(log_n, i),
        decreases log_n - log_p,
    {
        let deg: u32 = if log_n - log_p < md { log_n - log_p } else { md };
        let lw: u32 = if deg - 1 < MAX_LOG2_LOCAL_WORK_SIZE { deg - 1 } else { MAX_LOG2_LOCAL_WORK_SIZE };
        let n: u32 = 1u32 << log_n;
        let pass = FftPass { log_p, deg, local_work_size: 1u32 << lw, global_work_size: n >> deg };
        let ghost k = passes@.len();
        passes.push(pass);
        proof {
            assert(passes@[k as int] == expected_pass(log_n, k as int));
            assert(passes@.len() * md == k * md + md) by (nonlinear_arith)
                requires
                    passes@.len() == k + 1,
            ;
        }
        log_p = log_p + deg;
    }
    passes
}

/// Number of entries of the table of successive powers `omegas`.
pub const LOG2_MAX_ELEMENTS: usize = 32;

/// The tables a transform over `2^log_n` points with generator `omega`
/// reads: `pq[i] == t^i` for `i < 2^(max_deg - 1)`, where
/// `t == omega^(2^(log_n - max_deg))`, and `omegas[i] == omega^(2^i)` for
/// `i < 32`.
pub fn twiddle_tables(omega: u64, log_n: u32) -> (r: (Vec<u64>, Vec<u64>))
    requires
        1 <= log_n < 32,
    ensures
        r.1@.len() == LOG2_MAX_ELEMENTS,
        forall|i: int| 0 <= i < LOG2_MAX_ELEMENTS ==> #[trigger] r.1@[i] == fpow(omega, pow2(i as nat)),
        r.0@.len() == pow2((max_deg(log_n) - 1) as nat),
        forall|i: int| 0 <= i < r.0@.len() ==> #[trigger] r.0@[i] == fpow(
            fpow(omega, pow2((log_n - max_deg(log_n)) as nat)),
            i as nat,
        ),
{
    let mut omegas: Vec<u64> = Vec::new();
    proof {
        vstd::arithmetic::power2::lemma2_to64();
        assert(fpow(omega, 0) == 1);
    }
    omegas.push(fmul(1, omega));
    proof {
        assert(fpow(omega, 1) == fmul_spec(fpow(omega, 0), omega));
        assert(pow2(0) == 1);
    }
    while omegas.len() < LOG2_MAX_ELEMENTS
        invariant
            1 <= omegas@.len() <= LOG2_MAX_ELEMENTS,
            forall|i: int| 0 <= i < omegas@.len() ==> #[trigger] omegas@[i] == fpow(omega, pow2(i as nat)),
        decreases LOG2_MAX_ELEMENTS - omegas@.len(),
    {
        let k = omegas.len();
        let prev = omegas[k - 1];
        let next = fmul(prev, prev);
        proof {
            lemma_pow2_unfold(k as nat);
            let h = pow2((k - 1) as nat);
            lemma_fpow_add(omega, h, h);
            assert(h + h == pow2(k as nat));
        }
        let ghost before = omegas@;
        omegas.push(next);
        proof {
            assert forall|i: int| 0 <= i < omegas@.len() implies #[trigger] omegas@[i] == fpow(omega, pow2(i as nat)) by {
                if i < before.len() {
                    assert(omegas@[i] == before[i]);
                }
            }
        }
    }
    let md: u32 = if log_n < MAX_LOG2_RADIX { log_n } else { MAX_LOG2_RADIX };
    let t = omegas[(log_n - md) as usize];
    let size: usize = 1usize << (md - 1);
    proof {
        assert(size == pow2((md - 1) as nat)) by {
            vstd::arithmetic::power2::lemma2_to64();
            assert(md - 1 < 8);
            assert(1usize << 0u32 == 1 && 1usize << 1u32 == 2 && 1usize << 2u32 == 4 && 1usize << 3u32 == 8) by (bit_vector);
            assert(1usize << 4u32 == 16 && 1usize << 5u32 == 32 && 1usize << 6u32 == 64 && 1usize << 7u32 == 128) by (bit_vector);
        }
    }
    let mut pq: Vec<u64> = Vec::new();
    pq.push(1);
    proof {
        assert(fpow(t, 0) == 1);
    }
    while pq.len() < size
        invariant
            1 <= pq@.len() <= size,
            forall|i: int| 0 <= i < pq@.len() ==> #[trigger] pq@[i] == fpow(t, i as nat),
        decreases size - pq@.len(),
    {
        let prev = pq[pq.len() - 1];
        let ghost before = pq@;
        pq.push(fmul(prev, t));
        proof {
            assert forall|i: int| 0 <= i < pq@.len() implies #[trigger] pq@[i] == fpow(t, i as nat) by {
                if i < before.len() {
                    assert(pq@[i] == before[i]);
                }
            }
        }
    }
    (pq, omegas)
}

} // verus!
