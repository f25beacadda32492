//! Where the bombs' places come from.

use vstd::prelude::*;
use vstd::wrapping::u64_specs::{wrapping_add, wrapping_mul};

verus! {

/// A source of numbers for the placing of bombs.
///
/// Nothing is asked of the numbers: a grid is generated correctly from any
/// source. How evenly the bombs spread is as good as the source is.
pub trait RandomSource {
    fn next_u64(&mut self) -> u64;
}

/// The state that follows `state` in the SplitMix64 sequence.
pub open spec fn splitmix_step(state: u64) -> u64 {
    wrapping_add(state, 0x9E37_79B9_7F4A_7C15)
}

/// The number that SplitMix64 gives out in the state `state`.
pub open spec fn splitmix_output(state: u64) -> u64 {
    let a = wrapping_mul(state ^ (state >> 30), 0xBF58_476D_1CE4_E5B9);
    let b = wrapping_mul(a ^ (a >> 27), 0x94D0_49BB_1331_11EB);
    b ^ (b >> 31)
}

/// A SplitMix64 generator: the same seed gives the same numbers, on every machine.
#[derive(Clone, Copy, Debug)]
pub struct SeededRandom {
    state: u64,
}

impl SeededRandom {
    pub closed spec fn state(&self) -> u64 {
        self.state
    }

    pub fn new(seed: u64) -> (source: SeededRandom)
        ensures
            source.state() == seed,
    {
        SeededRandom { state: seed }
    }
}

impl RandomSource for SeededRandom {
    fn next_u64(&mut self) -> (number: u64)
        ensures
            final(self).state() == splitmix_step(old(self).state()),
            number == splitmix_output(final(self).state()),
    {
        self.state = self.state.wrapping_add(0x9E37_79B9_7F4A_7C15);
        let z: u64 = self.state;
        let a: u64 = (z ^ (z >> 30)).wrapping_mul(0xBF58_476D_1CE4_E5B9);
        let b: u64 = (a ^ (a >> 27)).wrapping_mul(0x94D0_49BB_1331_11EB);
        b ^ (b >> 31)
    }
}

} // verus!
