//! A small seedable pseudo-random source.
//!
//! Every random draw of the evolutionary loop (cut points, mutation
//! positions, selection) goes through one [`Rng`] owned by the
//! population, so a run is reproducible from its seed. The generator is
//! a 64-bit linear congruential step; draws come from the high bits.

use vstd::prelude::*;

verus! {

/// Multiplier of the linear congruential step.
pub const MUL: u64 = 6364136223846793005;

/// Increment of the linear congruential step.
pub const INC: u64 = 1442695040888963407;

/// Seedable pseudo-random generator.
pub struct Rng {
    state: u64,
}

/// The state that follows `s`: `s * MUL + INC`, wrapping around `u64`.
pub open spec fn next_state(s: u64) -> u64 {
    vstd::wrapping::u64_specs::wrapping_add(vstd::wrapping::u64_specs::wrapping_mul(s, MUL), INC)
}

/// The draw taken from state `s` for an upper bound `bound`.
pub open spec fn draw(s: u64, bound: u64) -> u64 {
    (next_state(s) >> 33u64) % bound
}

impl View for Rng {
    type V = u64;

    closed spec fn view(&self) -> u64 {
        self.state
    }
}

impl Rng {
    /// A generator whose first state is the seed itself.
    pub fn new(seed: u64) -> (r: Rng)
        ensures
            r@ == seed,
    {
        Rng { state: seed }
    }

    /// Draw a value in `[0, bound)` and step the state. Both the draw and
    /// the new state are exact functions of the old state.
    pub fn below(&mut self, bound: usize) -> (r: usize)
        requires
            bound >= 1,
        ensures
            final(self)@ == next_state(old(self)@),
            r as u64 == draw(old(self)@, bound as u64),
            r < bound,
    {
        self.state = self.state.wrapping_mul(MUL).wrapping_add(INC);
        let hi = self.state >> 33u64;
        let m = hi % (bound as u64);
        proof {
            assert(m < bound as u64);
        }
        m as usize
    }
}

} // verus!
