//! A tiny deterministic pseudo random generator (splitmix64).
//!
//! The same seed always reproduces the same sequence of values. splitmix64 is
//! small, well known, and passes basic statistical tests, which is plenty for
//! driving randomized memory access patterns.
use vstd::prelude::*;

verus! {

/// The state increment of splitmix64, an odd number close to 2^64 divided by
/// the golden ratio.
pub const GOLDEN_GAMMA: u64 = 0x9E37_79B9_7F4A_7C15;

/// The state that follows `state`.
pub open spec fn next_state(state: u64) -> u64 {
    state.wrapping_add(GOLDEN_GAMMA)
}

/// The value that splitmix64 makes of a state: two rounds of xor shift and
/// multiply, and a last xor shift.
pub open spec fn mix(state: u64) -> u64 {
    let a = (state ^ (state >> 30)).wrapping_mul(0xBF58_476D_1CE4_E5B9);
    let b = (a ^ (a >> 27)).wrapping_mul(0x94D0_49BB_1331_11EB);
    b ^ (b >> 31)
}

/// A seedable splitmix64 generator.
#[derive(Debug, Clone)]
pub struct Rng {
    state: u64,
}

impl View for Rng {
    type V = u64;

    closed spec fn view(&self) -> u64 {
        self.state
    }
}

impl Rng {
    /// Create a generator from a seed.
    #[must_use]
    pub fn new(seed: u64) -> (rng: Self)
        ensures
            rng@ == seed,
    {
        Self { state: seed }
    }

    /// Return the next 64 bit value and advance the state.
    pub fn next_u64(&mut self) -> (value: u64)
        ensures
            final(self)@ == next_state(old(self)@),
            value == mix(next_state(old(self)@)),
    {
        self.state = self.state.wrapping_add(GOLDEN_GAMMA);
        let mut z: u64 = self.state;
        z = (z ^ (z >> 30)).wrapping_mul(0xBF58_476D_1CE4_E5B9);
        z = (z ^ (z >> 27)).wrapping_mul(0x94D0_49BB_1331_11EB);
        z ^ (z >> 31)
    }

    /// Return a value in the half open range `[0, bound)`.
    pub fn below(&mut self, bound: u64) -> (value: u64)
        requires
            bound > 0,
        ensures
            final(self)@ == next_state(old(self)@),
            value == mix(next_state(old(self)@)) % bound,
            value < bound,
    {
        self.next_u64() % bound
    }

    /// Return true with probability one in `n`.
    pub fn one_in(&mut self, n: u64) -> (yes: bool)
        requires
            n > 0,
        ensures
            final(self)@ == next_state(old(self)@),
            yes == (mix(next_state(old(self)@)) % n == 0),
    {
        self.below(n) == 0
    }
}

} // verus!
