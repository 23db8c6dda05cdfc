//! Degree samplers: the Ideal Soliton distribution, and the Robust
//! Soliton construction built on top of it.
//!
//! The classical construction draws `y` uniform in `[0, 1)` and returns
//! `ceil(1/y)` when `y >= 1/k`, else `1`.  Here `y` is the 64-bit draw `u`
//! scaled by `2^64`, so the comparison is `u * k >= 2^64` and the degree
//! is `ceil(2^64 / u)`, all in exact integer arithmetic.

use vstd::prelude::*;
use crate::prng::{sm_output, SplitMix64};

verus! {

/// The Ideal Soliton degree for a raw 64-bit draw `u` over `k` blocks.
pub open spec fn ideal_degree(u: u64, k: int) -> int {
    if (u as int) * k >= 0x10000000000000000 {
        (0x10000000000000000 + u - 1) / (u as int)
    } else {
        1
    }
}

/// Every Ideal Soliton degree lies in `[1, k]`.
pub proof fn lemma_ideal_degree_range(u: u64, k: int)
    requires
        k >= 1,
    ensures
        1 <= ideal_degree(u, k) <= k,
{
    let t = 0x10000000000000000int;
    if (u as int) * k >= t {
        assert(u >= 1) by (nonlinear_arith)
            requires
                (u as int) * k >= t,
                k >= 1,
                u < t,
        ;
        assert(1 <= (t + u - 1) / (u as int) <= k) by (nonlinear_arith)
            requires
                1 <= u < t,
                (u as int) * k >= t,
        ;
    }
}

/// Seeded Ideal Soliton sampler over degrees `1..=k`.
pub struct IdealSoliton {
    k: usize,
    rng: SplitMix64,
}

impl IdealSoliton {
    /// Number of source blocks this sampler draws degrees for.
    pub closed spec fn chunks(self) -> int {
        self.k as int
    }

    /// The seed the degree stream started from.
    pub closed spec fn seed(self) -> u64 {
        self.rng.seed@
    }

    /// How many degrees have been drawn.
    pub closed spec fn pos(self) -> nat {
        self.rng.pos@
    }

    /// Internal consistency of the sampler.
    pub closed spec fn wf(self) -> bool {
        self.k >= 1 && self.rng.wf()
    }

    /// The `n`-th degree that a sampler seeded with `seed` over `k`
    /// blocks yields.
    pub open spec fn degree_at(seed: u64, k: int, n: nat) -> int {
        ideal_degree(sm_output(seed, n), k)
    }

    /// A sampler over `k >= 1` blocks, seeded with `seed`.
    pub fn new(k: usize, seed: u64) -> (r: IdealSoliton)
        requires
            k >= 1,
        ensures
            r.wf(),
            r.chunks() == k,
            r.seed() == seed,
            r.pos() == 0,
    {
        IdealSoliton { k, rng: SplitMix64::new(seed) }
    }

    /// Draw the next degree; it is a function of the seed, the position
    /// in the stream, and `k` alone.
    pub fn next(&mut self) -> (d: usize)
        requires
            old(self).wf(),
        ensures
            final(self).wf(),
            final(self).chunks() == old(self).chunks(),
            final(self).seed() == old(self).seed(),
            final(self).pos() == old(self).pos() + 1,
            d == Self::degree_at(old(self).seed(), old(self).chunks(), old(self).pos()),
            1 <= d <= old(self).chunks(),
    {
        let u = self.rng.next_u64();
        let k = self.k;
        proof {
            lemma_ideal_degree_range(u, k as int);
        }
        let t: u128 = 1u128 << 64u128;
        proof {
            assert((u as int) * (k as int) < 0x100000000000000000000000000000000int)
                by (nonlinear_arith)
                requires
                    (u as int) < 0x10000000000000000int,
                    (k as int) < 0x10000000000000000int,
                    (u as int) >= 0,
                    (k as int) >= 0,
            ;
            assert((1u128 << 64u128) == 0x10000000000000000u128) by (bit_vector);
        }
        if (u as u128) * (k as u128) >= t {
            proof {
                assert(u >= 1) by (nonlinear_arith)
                    requires
                        (u as int) * (k as int) >= 0x10000000000000000int,
                        (k as int) >= 0,
                        (u as int) >= 0,
                        (u as int) < 0x10000000000000000int,
                ;
            }
            let d128: u128 = (t + (u as u128) - 1) / (u as u128);
            proof {
                assert(d128 == ideal_degree(u, k as int));
            }
            d128 as usize
        } else {
            1
        }
    }
}

/// Degree-sampler seed reproducibility: the `n`-th degree is a function
/// of `(seed, k, n)`, so two samplers built from the same seed over the
/// same block count yield identical degree sequences.
pub proof fn lemma_ideal_soliton_reproducible(seed: u64, k: int, n: nat, d1: int, d2: int)
    requires
        d1 == IdealSoliton::degree_at(seed, k, n),
        d2 == IdealSoliton::degree_at(seed, k, n),
    ensures
        d1 == d2,
{
}

/// A positive rational parameter, used for the Robust Soliton's `c` and
/// `delta`, which classical treatments give as small real numbers.
#[derive(Debug, Clone, Copy)]
pub struct Ratio {
    /// Numerator; at least 1.
    pub num: u64,
    /// Denominator; at least 1.
    pub den: u64,
}

/// A valid parameter fraction: positive, with both parts small enough
/// for fixed-point arithmetic.
pub open spec fn ratio_wf(r: Ratio) -> bool {
    1 <= r.num <= 0xFFFF_FFFFu64 && 1 <= r.den <= 0xFFFF_FFFFu64
}

/// The integer square root, as a function: the unique `r >= 0` with
/// `r * r <= n < (r + 1) * (r + 1)`.
pub open spec fn sqrt_floor(n: int) -> int {
    choose|r: int| 0 <= r && #[trigger] (r * r) <= n && n < (r + 1) * (r + 1)
}

/// Any witness of the square-root property is `sqrt_floor`.
proof fn lemma_sqrt_floor_unique(n: int, r: int)
    requires
        0 <= r,
        r * r <= n,
        n < (r + 1) * (r + 1),
    ensures
        sqrt_floor(n) == r,
{
    assert(exists|x: int| 0 <= x && #[trigger] (x * x) <= n && n < (x + 1) * (x + 1)) by {
        assert(0 <= r && r * r <= n && n < (r + 1) * (r + 1));
    }
    let w = sqrt_floor(n);
    assert(0 <= w && w * w <= n && n < (w + 1) * (w + 1));
    assert(w == r) by (nonlinear_arith)
        requires
            0 <= w,
            w * w <= n,
            n < (w + 1) * (w + 1),
            0 <= r,
            r * r <= n,
            n < (r + 1) * (r + 1),
    ;
}

/// Integer square root by bisection: the greatest `r` with `r * r <= n`.
fn isqrt(n: u128) -> (r: u128)
    requires
        n < 0x1000000000000000000000000000000,
    ensures
        r * r <= n,
        n < (r + 1) * (r + 1),
        r == sqrt_floor(n as int),
{
    let mut lo: u128 = 0;
    let mut hi: u128 = 0x8000000000000000;
    proof {
        assert(hi * hi > n) by (nonlinear_arith)
            requires
                hi == 0x8000000000000000u128,
                n < 0x1000000000000000000000000000000,
        ;
    }
    while lo + 1 < hi
        invariant
            lo < hi <= 0x8000000000000000,
            lo * lo <= n,
            n < hi * hi,
        decreases hi - lo,
    {
        let mid = lo + (hi - lo) / 2;
        proof {
            assert(mid * mid < 0x100000000000000000000000000000000) by (nonlinear_arith)
                requires
                    mid <= 0x8000000000000000u128,
            ;
        }
        if mid * mid <= n {
            lo = mid;
        } else {
            hi = mid;
        }
    }
    proof {
        lemma_sqrt_floor_unique(n as int, lo as int);
    }
    lo
}

/// Two to the `n`-th, over the integers.
spec fn pow2i(n: int) -> int
    decreases n,
{
    if n <= 0 {
        1
    } else {
        2 * pow2i(n - 1)
    }
}

proof fn lemma_pow2i_pos(n: int)
    ensures
        pow2i(n) >= 1,
    decreases
            if n > 0 {
                n
            } else {
                0
            },
{
    if n > 0 {
        lemma_pow2i_pos(n - 1);
    }
}

proof fn lemma_pow2i_mono(a: int, b: int)
    requires
        a <= b,
    ensures
        pow2i(a) <= pow2i(b),
        pow2i(a) >= 1,
    decreases b - a,
{
    lemma_pow2i_pos(a);
    if a < b {
        lemma_pow2i_mono(a, b - 1);
        lemma_pow2i_pos(b - 1);
    }
}

/// Mantissa normalization: halve until below two, counting doublings.
pub open spec fn ln_norm(m: int, e: int) -> (int, int)
    decreases m,
{
    if m >= 0x200000000 && e < 128 {
        ln_norm(m / 2, e + 1)
    } else {
        (m, e)
    }
}

/// One squaring step per fractional log2 bit.
pub open spec fn ln_bits(m: int, f: int, b: int) -> (int, int)
    decreases 32 - b,
{
    if b >= 32 {
        (m, f)
    } else {
        let sq = m * m / 0x100000000;
        if sq >= 0x200000000 {
            ln_bits(sq / 2, 2 * f + 1, b + 1)
        } else {
            ln_bits(sq, 2 * f, b + 1)
        }
    }
}

/// The exact value `ln_q32` computes.
pub open spec fn ln_q32_spec(x: int) -> int {
    let m0 = ln_norm(x, 0).0;
    let e = ln_norm(x, 0).1;
    let m1 = if m0 >= 0x200000000 {
        0x100000000
    } else {
        m0
    };
    let f = ln_bits(m1, 0, 0).1;
    (e * 0x100000000 + f) * 2977044472 / 0x100000000
}

/// Natural logarithm in Q32 fixed point, for arguments at least one:
/// normalize to `[1, 2)`, extract fractional log2 bits by repeated
/// squaring, and scale by `ln 2`.
fn ln_q32(x: u128) -> (r: u64)
    requires
        x >= 0x100000000,
    ensures
        r < 0x8000000000u64,
        r == ln_q32_spec(x as int),
{
    let mut m: u128 = x;
    let mut e: u64 = 0;
    while m >= 0x200000000 && e < 128
        invariant
            m >= 0x100000000,
            e <= 128,
            ln_norm(m as int, e as int) == ln_norm(x as int, 0),
        decreases m,
    {
        m = m / 2;
        e = e + 1;
    }
    proof {
        assert(ln_norm(m as int, e as int) == (m as int, e as int));
        assert(m as int == ln_norm(x as int, 0).0 && e as int == ln_norm(x as int, 0).1);
    }
    if m >= 0x200000000 {
        // a 128-bit argument always normalizes within 128 halvings;
        // this keeps the bound local
        m = 0x100000000;
    }
    let ghost m1 = m as int;
    let mut f: u64 = 0;
    let mut b: usize = 0;
    proof {
        lemma_pow2i_mono(0, 32);
        assert(pow2i(32) == 0x100000000) by {
            reveal_with_fuel(pow2i, 33);
        }
    }
    while b < 32
        invariant
            b <= 32,
            0x100000000 <= m < 0x200000000,
            (f as int) < pow2i(b as int),
            pow2i(32) == 0x100000000,
            ln_bits(m as int, f as int, b as int) == ln_bits(m1, 0, 0),
        decreases 32 - b,
    {
        proof {
            lemma_pow2i_mono(b + 1, 32);
            assert(pow2i(b as int + 1) == 2 * pow2i(b as int));
            assert(m * m < 0x40000000000000000u128) by (nonlinear_arith)
                requires
                    m < 0x200000000u128,
            ;
        }
        let sq: u128 = (m * m) / 0x100000000;
        if sq >= 0x200000000 {
            proof {
                assert(sq < 0x400000000u128) by (nonlinear_arith)
                    requires
                        sq == m * m / 0x100000000,
                        m < 0x200000000u128,
                ;
            }
            m = sq / 2;
            f = f * 2 + 1;
        } else {
            proof {
                assert(sq >= 0x100000000u128) by (nonlinear_arith)
                    requires
                        sq == m * m / 0x100000000,
                        m >= 0x100000000u128,
                        m < 0x200000000u128,
                ;
            }
            m = sq;
            f = f * 2;
        }
        b += 1;
    }
    proof {
        assert(ln_bits(m as int, f as int, 32) == (m as int, f as int));
        assert(f as int == ln_bits(m1, 0, 0).1);
    }
    // ln 2 in Q32
    let ln2: u64 = 2977044472;
    let whole: u128 = (e as u128) * 0x100000000 + (f as u128);
    let r128: u128 = (whole * (ln2 as u128)) / 0x100000000;
    proof {
        assert(r128 < 0x8000000000u128) by (nonlinear_arith)
            requires
                whole <= 129 * 0x100000000u128,
                r128 == whole * 2977044472 / 0x100000000,
        ;
    }
    r128 as u64
}

/// `R = c * ln(k/delta) * sqrt(k)` in Q32 fixed point, clamped to at
/// least one and to 64 bits.
pub open spec fn robust_r_q32(k: int, c: Ratio, delta: Ratio) -> int {
    let k_over_delta = k * (delta.den as int) * 0x100000000int / (delta.num as int);
    let ln_kd: int = if k_over_delta >= 0x100000000 {
        ln_q32_spec(k_over_delta)
    } else {
        0
    };
    let sqrt_k = sqrt_floor(k * 0x10000000000000000);
    let c_q32 = (c.num as int) * 0x100000000int / (c.den as int);
    let r_wide = c_q32 * ln_kd / 0x100000000int * sqrt_k / 0x100000000int;
    if r_wide == 0 {
        1
    } else if r_wide > 0xFFFF_FFFF_FFFF_FFFF {
        0xFFFF_FFFF_FFFF_FFFF
    } else {
        r_wide
    }
}

/// The spike position `M`: the override clamped to `[1, k]`, or
/// `floor(k / R)` without one.
pub open spec fn robust_spike_pos(k: int, r_q32: int, spike: Option<usize>) -> int {
    match spike {
        Some(m) => if (m as int) < 1 {
            1
        } else if (m as int) > k {
            k
        } else {
            m as int
        },
        None => {
            let m0 = k * 0x100000000int / r_q32 / 0x100000000int;
            if m0 < 1 {
                1
            } else if m0 > k {
                k
            } else {
                m0
            }
        },
    }
}

/// `tau(M) = R * ln(R/delta) / k`, clamped at zero and to 64 bits.
pub open spec fn robust_tau_spike(k: int, r_q32: int, delta: Ratio) -> int {
    let r_over_delta = r_q32 * (delta.den as int) / (delta.num as int);
    if r_over_delta >= 0x100000000 {
        let w = r_q32 * ln_q32_spec(r_over_delta) / 0x100000000int / k;
        if w > 0xFFFF_FFFF_FFFF_FFFF {
            0xFFFF_FFFF_FFFF_FFFF
        } else {
            w
        }
    } else {
        0
    }
}

/// The unnormalized weight `rho(d) + tau(d)` of degree `d`, floored at
/// one so every degree stays reachable.
pub open spec fn robust_weight(k: int, c: Ratio, delta: Ratio, spike: Option<usize>, d: int) -> int {
    let r_q32 = robust_r_q32(k, c, delta);
    let m_pos = robust_spike_pos(k, r_q32, spike);
    let rho = if d == 1 {
        0x100000000int / k
    } else {
        0x100000000int / (d * (d - 1))
    };
    let tau = if d < m_pos {
        r_q32 / (d * k)
    } else if d == m_pos {
        robust_tau_spike(k, r_q32, delta)
    } else {
        0
    };
    let w = rho + tau;
    if w == 0 {
        1
    } else {
        w
    }
}

/// The cumulative weight of degrees `1..=d`, saturating at 64 bits.
pub open spec fn robust_cdf_at(k: int, c: Ratio, delta: Ratio, spike: Option<usize>, d: int) -> int
    decreases d,
{
    let prev: int = if d <= 1 {
        0
    } else {
        robust_cdf_at(k, c, delta, spike, d - 1)
    };
    let wide = prev + robust_weight(k, c, delta, spike, d);
    if wide > 0xFFFF_FFFF_FFFF_FFFF {
        0xFFFF_FFFF_FFFF_FFFF
    } else {
        wide
    }
}

/// The whole cached table, as a function of the parameters alone.
pub open spec fn robust_table(k: int, c: Ratio, delta: Ratio, spike: Option<usize>) -> Seq<u64> {
    Seq::new(k as nat, |j: int| robust_cdf_at(k, c, delta, spike, j + 1) as u64)
}

/// Seeded Robust Soliton sampler over degrees `1..=k`: the Ideal Soliton
/// weights plus the `tau` spike, sampled by inverse CDF over a cached
/// cumulative table of length `k`.
pub struct RobustSoliton {
    k: usize,
    rng: SplitMix64,
    cdf: Vec<u64>,
}

/// The target a 64-bit draw scales to within a table of total weight
/// `total`.
pub open spec fn scaled_target(u: u64, total: u64) -> int {
    (u * total) / 0x10000000000000000
}

/// Index of the first table entry strictly above `target`, scanning
/// from `i`; the last index if none is.
pub open spec fn cdf_pick(cdf: Seq<u64>, target: u64, i: int) -> int
    decreases cdf.len() - i,
{
    if i >= cdf.len() - 1 {
        cdf.len() - 1
    } else if (target as int) < cdf[i] {
        i
    } else {
        cdf_pick(cdf, target, i + 1)
    }
}

impl RobustSoliton {
    /// Number of source blocks this sampler draws degrees for.
    pub closed spec fn chunks(self) -> int {
        self.k as int
    }

    /// The seed the degree stream started from.
    pub closed spec fn seed(self) -> u64 {
        self.rng.seed@
    }

    /// How many degrees have been drawn.
    pub closed spec fn pos(self) -> nat {
        self.rng.pos@
    }

    /// The cached cumulative weight table.
    pub closed spec fn table(self) -> Seq<u64> {
        self.cdf@
    }

    /// Internal consistency: a nondecreasing table of length `k` with
    /// positive total weight.
    pub closed spec fn wf(self) -> bool {
        &&& self.k >= 1
        &&& self.rng.wf()
        &&& self.cdf@.len() == self.k
        &&& forall|j: int| 0 < j < self.cdf@.len() ==> self.cdf@[j - 1] <= #[trigger] self.cdf@[j]
        &&& self.cdf@[self.cdf@.len() - 1] >= 1
    }

    /// Build the sampler: `R = c * ln(k/delta) * sqrt(k)`, spike position
    /// `M = floor(k/R)` unless overridden, `tau` as the classical
    /// construction gives it, weights `rho(d) + tau(d)` accumulated into
    /// a fixed-point cumulative table.
    pub fn new(k: usize, seed: u64, c: Ratio, delta: Ratio, spike: Option<usize>) -> (r:
        RobustSoliton)
        requires
            1 <= k <= 0xFFFF_FFFF,
            ratio_wf(c),
            ratio_wf(delta),
            delta.num < delta.den,
        ensures
            r.wf(),
            r.chunks() == k,
            r.seed() == seed,
            r.pos() == 0,
            r.table() == robust_table(k as int, c, delta, spike),
    {
        // R = c * ln(k / delta) * sqrt(k), all in Q32
        proof {
            assert((k as int) * (delta.den as int) <= 0x10000000000000000int
                && (k as int) * (delta.den as int) >= 0) by (nonlinear_arith)
                requires
                    1 <= k as int <= 0x100000000int,
                    1 <= delta.den as int <= 0x100000000int,
            ;
        }
        let kd: u128 = (k as u128) * (delta.den as u128);
        let k_over_delta: u128 = kd * 0x100000000 / (delta.num as u128);
        let ln_kd: u64 = if k_over_delta >= 0x100000000 {
            ln_q32(k_over_delta)
        } else {
            0
        };
        let sqrt_k: u128 = isqrt((k as u128) * 0x10000000000000000);
        proof {
            assert(sqrt_k <= 0x1000000000000u128) by (nonlinear_arith)
                requires
                    sqrt_k * sqrt_k <= (k as int) * 0x10000000000000000,
                    (k as int) <= 0x100000000int,
                    sqrt_k >= 0,
            ;
        }
        let c_q32: u128 = (c.num as u128) * 0x100000000 / (c.den as u128);
        proof {
            assert(c_q32 <= 0x10000000000000000u128);
            assert(c_q32 * (ln_kd as u128) <= 0x10000000000000000u128 * 0x8000000000u128)
                by (nonlinear_arith)
                requires
                    c_q32 <= 0x10000000000000000u128,
                    (ln_kd as int) <= 0x8000000000int,
                    c_q32 >= 0,
                    (ln_kd as int) >= 0,
            ;
            assert((c_q32 * (ln_kd as u128)) / 0x100000000 * sqrt_k <= 0x80000000000000000000u128
                * 0x1000000000000u128) by (nonlinear_arith)
                requires
                    (c_q32 * (ln_kd as u128)) / 0x100000000 <= 0x80000000000000000000u128,
                    sqrt_k <= 0x1000000000000u128,
                    (c_q32 * (ln_kd as u128)) / 0x100000000 >= 0,
                    sqrt_k >= 0,
            ;
        }
        let r_wide: u128 = ((c_q32 * (ln_kd as u128)) / 0x100000000) * sqrt_k / 0x100000000;
        let r_q32: u64 = if r_wide == 0 {
            1
        } else if r_wide > 0xFFFF_FFFF_FFFF_FFFF {
            u64::MAX
        } else {
            r_wide as u64
        };
        proof {
            assert(r_q32 as int == robust_r_q32(k as int, c, delta));
        }
        // spike position
        let m_raw: u128 = (k as u128) * 0x100000000 / (r_q32 as u128);
        let m_pos: usize = match spike {
            Some(m) => {
                if m < 1 {
                    1
                } else if m > k {
                    k
                } else {
                    m
                }
            },
            None => {
                let m0 = m_raw / 0x100000000;
                if m0 < 1 {
                    1
                } else if m0 > (k as u128) {
                    k
                } else {
                    m0 as usize
                }
            },
        };
        proof {
            assert(m_pos as int == robust_spike_pos(k as int, r_q32 as int, spike));
        }
        // tau at the spike: R * ln(R / delta) / k, clamped at zero
        proof {
            assert((r_q32 as int) * (delta.den as int) < 0x100000000000000000000000000000000int)
                by (nonlinear_arith)
                requires
                    0 <= (r_q32 as int) < 0x10000000000000000int,
                    0 <= (delta.den as int) <= 0x100000000int,
            ;
        }
        let r_over_delta: u128 = ((r_q32 as u128) * (delta.den as u128)) / (delta.num as u128);
        let tau_spike: u64 = if r_over_delta >= 0x100000000 {
            let ln_rd = ln_q32(r_over_delta);
            proof {
                assert((r_q32 as int) * (ln_rd as int) < 0x100000000000000000000000000000000int)
                    by (nonlinear_arith)
                    requires
                        0 <= (r_q32 as int) < 0x10000000000000000int,
                        0 <= (ln_rd as int) < 0x8000000000int,
                ;
            }
            let w: u128 = ((r_q32 as u128) * (ln_rd as u128) / 0x100000000) / (k as u128);
            if w > 0xFFFF_FFFF_FFFF_FFFF {
                u64::MAX
            } else {
                w as u64
            }
        } else {
            0
        };
        proof {
            assert(tau_spike as int == robust_tau_spike(k as int, r_q32 as int, delta));
        }
        // accumulate rho(d) + tau(d), saturating
        let mut cdf: Vec<u64> = Vec::new();
        let mut di: usize = 0;
        let mut cum: u64 = 0;
        while di < k
            invariant
                di <= k,
                1 <= k <= 0xFFFF_FFFF,
                ratio_wf(c),
                ratio_wf(delta),
                delta.num < delta.den,
                r_q32 as int == robust_r_q32(k as int, c, delta),
                m_pos as int == robust_spike_pos(k as int, r_q32 as int, spike),
                tau_spike as int == robust_tau_spike(k as int, r_q32 as int, delta),
                cdf@.len() == di,
                forall|j: int| 0 < j < cdf@.len() ==> cdf@[j - 1] <= #[trigger] cdf@[j],
                cdf@.len() > 0 ==> cdf@[cdf@.len() - 1] == cum,
                cdf@.len() > 0 ==> cum >= 1,
                di == 0 ==> cum == 0,
                forall|j: int|
                    0 <= j < di ==> (#[trigger] cdf@[j]) as int == robust_cdf_at(
                        k as int,
                        c,
                        delta,
                        spike,
                        j + 1,
                    ),
                cum as int == if di == 0 {
                    0int
                } else {
                    robust_cdf_at(k as int, c, delta, spike, di as int)
                },
            decreases k - di,
        {
            let d = di + 1;
            let rho: u128 = if d == 1 {
                0x100000000u128 / (k as u128)
            } else {
                proof {
                    assert(2 <= (d as int) * ((d - 1) as int)
                        && (d as int) * ((d - 1) as int) <= 0x10000000000000000int)
                        by (nonlinear_arith)
                        requires
                            2 <= d as int <= 0x100000000int,
                    ;
                }
                0x100000000u128 / ((d as u128) * ((d - 1) as u128))
            };
            let tau: u128 = if d < m_pos {
                proof {
                    assert(1 <= (d as int) * (k as int)
                        && (d as int) * (k as int) <= 0x10000000000000000int) by (nonlinear_arith)
                        requires
                            1 <= d as int <= 0x100000000int,
                            1 <= k as int <= 0x100000000int,
                    ;
                }
                (r_q32 as u128) / ((d as u128) * (k as u128))
            } else if d == m_pos {
                tau_spike as u128
            } else {
                0
            };
            // a floor of one keeps every degree reachable and the
            // total weight positive
            let mut w: u128 = rho + tau;
            if w == 0 {
                w = 1;
            }
            let wide: u128 = (cum as u128) + w;
            let new_cum: u64 = if wide > 0xFFFF_FFFF_FFFF_FFFF {
                u64::MAX
            } else {
                wide as u64
            };
            proof {
                assert(new_cum >= cum);
                assert(new_cum >= 1);
            }
            proof {
                assert(w == robust_weight(k as int, c, delta, spike, d as int));
                assert(new_cum as int == robust_cdf_at(k as int, c, delta, spike, d as int));
            }
            cdf.push(new_cum);
            cum = new_cum;
            di += 1;
        }
        proof {
            assert(cdf@ =~= robust_table(k as int, c, delta, spike)) by {
                assert forall|j: int| 0 <= j < k implies cdf@[j] == robust_table(
                    k as int,
                    c,
                    delta,
                    spike,
                )[j] by {
                    assert(cdf@[j] as int == robust_cdf_at(k as int, c, delta, spike, j + 1));
                }
            }
        }
        RobustSoliton { k, rng: SplitMix64::new(seed), cdf }
    }

    /// Draw the next degree by inverse CDF; it is a function of the
    /// table, the seed and the position in the stream alone.
    #[verifier::rlimit(50)]
    pub fn next(&mut self) -> (d: usize)
        requires
            old(self).wf(),
        ensures
            final(self).wf(),
            final(self).chunks() == old(self).chunks(),
            final(self).seed() == old(self).seed(),
            final(self).table() == old(self).table(),
            final(self).pos() == old(self).pos() + 1,
            d == cdf_pick(
                old(self).table(),
                scaled_target(
                    sm_output(old(self).seed(), old(self).pos()),
                    old(self).table()[old(self).table().len() - 1],
                ) as u64,
                0,
            ) + 1,
            1 <= d <= old(self).chunks(),
    {
        let u = self.rng.next_u64();
        let total: u64 = self.cdf[self.k - 1];
        proof {
            assert((u as int) * (total as int) < 0x100000000000000000000000000000000int
                && (u as int) * (total as int) / 0x10000000000000000 < 0x10000000000000000int)
                by (nonlinear_arith)
                requires
                    0 <= (u as int) < 0x10000000000000000int,
                    0 <= (total as int) < 0x10000000000000000int,
            ;
        }
        let target128: u128 = (u as u128) * (total as u128) / 0x10000000000000000;
        let target: u64 = target128 as u64;
        let mut i: usize = 0;
        while i < self.k - 1 && self.cdf[i] <= target
            invariant
                self.wf(),
                i < self.k,
                cdf_pick(self.cdf@, target, 0) == cdf_pick(self.cdf@, target, i as int),
            decreases self.k - i,
        {
            i += 1;
        }
        proof {
            assert(cdf_pick(self.cdf@, target, i as int) == i as int);
        }
        i + 1
    }
}

/// The `n`-th degree a Robust Soliton sampler built from
/// `(k, c, delta, spike, seed)` yields.
pub open spec fn robust_degree_at(
    k: int,
    c: Ratio,
    delta: Ratio,
    spike: Option<usize>,
    seed: u64,
    n: nat,
) -> int {
    let tbl = robust_table(k, c, delta, spike);
    cdf_pick(tbl, scaled_target(sm_output(seed, n), tbl[tbl.len() - 1]) as u64, 0) + 1
}

/// Robust-sampler seed reproducibility: the `n`-th degree is a function
/// of the construction parameters and the seed alone, so two samplers
/// built alike yield identical degree sequences.
pub proof fn lemma_robust_soliton_reproducible(
    k: int,
    c: Ratio,
    delta: Ratio,
    spike: Option<usize>,
    seed: u64,
    n: nat,
    d1: int,
    d2: int,
)
    requires
        d1 == robust_degree_at(k, c, delta, spike, seed, n),
        d2 == robust_degree_at(k, c, delta, spike, seed, n),
    ensures
        d1 == d2,
{
}

} // verus!
