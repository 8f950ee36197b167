//! SplitMix64.
//!
//! Hand-rolled on purpose: the exact bit stream is part of the meaning of a stored scenario. If the
//! generator ever changed, every recorded scenario would silently start describing another run.

use vstd::prelude::*;

verus! {

/// The increment SplitMix64 adds to its state before every output.
pub const GOLDEN_GAMMA: u64 = 0x9E37_79B9_7F4A_7C15;

/// The state after one step.
pub open spec fn spec_advance(state: u64) -> u64 {
    vstd::wrapping::u64_specs::wrapping_add(state, GOLDEN_GAMMA)
}

/// The output mixed from a (new) state.
pub open spec fn spec_mix(z0: u64) -> u64 {
    let z1 = vstd::wrapping::u64_specs::wrapping_mul(z0 ^ (z0 >> 30u64), 0xBF58_476D_1CE4_E5B9u64);
    let z2 = vstd::wrapping::u64_specs::wrapping_mul(z1 ^ (z1 >> 27u64), 0x94D0_49BB_1331_11EBu64);
    z2 ^ (z2 >> 31u64)
}

/// The state after `k` steps from `state`.
pub open spec fn spec_advance_n(state: u64, k: nat) -> u64
    decreases k,
{
    if k == 0 {
        state
    } else {
        spec_advance(spec_advance_n(state, (k - 1) as nat))
    }
}

/// The `k`-th output (from zero) of a generator seeded with `seed`.
pub open spec fn spec_stream(seed: u64, k: nat) -> u64 {
    spec_mix(spec_advance_n(seed, k + 1))
}

/// A SplitMix64 generator. Its view is its whole state.
pub struct Rng {
    state: u64,
}

impl View for Rng {
    type V = u64;

    closed spec fn view(&self) -> u64 {
        self.state
    }
}

impl Rng {
    pub fn new(seed: u64) -> (r: Rng)
        ensures
            r@ == seed,
    {
        Rng { state: seed }
    }

    pub fn next_u64(&mut self) -> (x: u64)
        ensures
            final(self)@ == spec_advance(old(self)@),
            x == spec_mix(final(self)@),
    {
        self.state = self.state.wrapping_add(GOLDEN_GAMMA);
        let mut z = self.state;
        z = (z ^ (z >> 30u64)).wrapping_mul(0xBF58_476D_1CE4_E5B9u64);
        z = (z ^ (z >> 27u64)).wrapping_mul(0x94D0_49BB_1331_11EBu64);
        z ^ (z >> 31u64)
    }

    /// Uniform in `[lo, hi)`: `lo` plus the next output reduced modulo the width.
    pub fn range(&mut self, lo: u64, hi: u64) -> (x: u64)
        requires
            hi > lo,
        ensures
            final(self)@ == spec_advance(old(self)@),
            x == lo + spec_mix(final(self)@) % ((hi - lo) as u64),
            lo <= x < hi,
    {
        let v = self.next_u64();
        let w = hi - lo;
        let m = v % w;
        lo + m
    }
}

/// The generator is a function of its seed: after `k` draws from a generator seeded with `seed`,
/// the state is `k` steps on from the seed, and the next output is the `k`-th of the stream.
pub proof fn lemma_stream_step(seed: u64, k: nat)
    ensures
        spec_mix(spec_advance(spec_advance_n(seed, k))) == spec_stream(seed, k),
        spec_advance_n(seed, k + 1) == spec_advance(spec_advance_n(seed, k)),
{
}

} // verus!
