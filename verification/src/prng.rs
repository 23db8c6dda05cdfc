//! Seeded deterministic random source for the degree samplers and for the
//! encoder's droplet seeds: SplitMix64, a standard, well-documented
//! generator whose whole behaviour is pinned by spec functions, so that
//! encoder-side draws are reproducible from the seed alone.

use vstd::prelude::*;

verus! {

/// One SplitMix64 state advance.
pub open spec fn sm_advance(s: u64) -> u64 {
    s.wrapping_add(0x9E3779B97F4A7C15u64)
}

/// The SplitMix64 output mix of an advanced state.
pub open spec fn sm_mix(z0: u64) -> u64 {
    let z1 = (z0 ^ (z0 >> 30u64)).wrapping_mul(0xBF58476D1CE4E5B9u64);
    let z2 = (z1 ^ (z1 >> 27u64)).wrapping_mul(0x94D049BB133111EBu64);
    z2 ^ (z2 >> 31u64)
}

/// The state after `n` draws from `seed`.
pub open spec fn sm_state_at(seed: u64, n: nat) -> u64
    decreases n,
{
    if n == 0 {
        seed
    } else {
        sm_advance(sm_state_at(seed, (n - 1) as nat))
    }
}

/// The `n`-th (0-based) output of the stream seeded with `seed`.
pub open spec fn sm_output(seed: u64, n: nat) -> u64 {
    sm_mix(sm_advance(sm_state_at(seed, n)))
}

/// SplitMix64 generator state.
pub struct SplitMix64 {
    /// Current internal state.
    pub state: u64,
    /// The seed this stream started from.
    pub seed: Ghost<u64>,
    /// How many draws have been taken.
    pub pos: Ghost<nat>,
}

impl SplitMix64 {
    /// The state is exactly `pos` advances from `seed`.
    pub open spec fn wf(self) -> bool {
        self.state == sm_state_at(self.seed@, self.pos@)
    }

    /// Start the deterministic stream at `seed`.
    pub fn new(seed: u64) -> (r: SplitMix64)
        ensures
            r.wf(),
            r.seed@ == seed,
            r.pos@ == 0,
    {
        SplitMix64 { state: seed, seed: Ghost(seed), pos: Ghost(0) }
    }

    /// Draw the next 64-bit value of the stream.
    pub fn next_u64(&mut self) -> (r: u64)
        requires
            old(self).wf(),
        ensures
            final(self).wf(),
            final(self).seed@ == old(self).seed@,
            final(self).pos@ == old(self).pos@ + 1,
            r == sm_output(old(self).seed@, old(self).pos@),
    {
        let s = self.state.wrapping_add(0x9E3779B97F4A7C15u64);
        self.state = s;
        let z1 = (s ^ (s >> 30u64)).wrapping_mul(0xBF58476D1CE4E5B9u64);
        let z2 = (z1 ^ (z1 >> 27u64)).wrapping_mul(0x94D049BB133111EBu64);
        let r = z2 ^ (z2 >> 31u64);
        proof {
            self.pos@ = self.pos@ + 1;
            assert(sm_state_at(self.seed@, self.pos@) == sm_advance(
                sm_state_at(self.seed@, (self.pos@ - 1) as nat),
            ));
        }
        r
    }
}

} // verus!
