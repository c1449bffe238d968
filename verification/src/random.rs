//! The randomness boundary.
//!
//! Maze generation draws uniformly distributed integers from an injected
//! source; any conforming generator is acceptable. [`SeededSource`] is a
//! small deterministic generator (a SplitMix-style mixer) for reproducible
//! mazes and tests; callers wanting system entropy implement
//! [`RandomSource`] over a generator of their choice.

use vstd::prelude::*;

verus! {

/// A source of uniformly distributed integers in caller-chosen ranges.
pub trait RandomSource {
    /// An integer drawn from `0..bound`.
    fn pick(&mut self, bound: usize) -> (r: usize)
        requires
            bound >= 1,
        ensures
            r < bound,
    ;
}

/// A deterministic pseudo-random source: identical seeds give identical
/// draw sequences.
pub struct SeededSource {
    pub state: u64,
}

impl SeededSource {
    /// A source whose whole draw sequence is fixed by `seed`.
    pub fn new(seed: u64) -> (r: SeededSource)
        ensures
            r.state == seed,
    {
        SeededSource { state: seed }
    }
}

impl RandomSource for SeededSource {
    fn pick(&mut self, bound: usize) -> (r: usize) {
        self.state = self.state.wrapping_add(0x9E3779B97F4A7C15);
        let mut z: u64 = self.state;
        z = (z ^ (z >> 30)).wrapping_mul(0xBF58476D1CE4E5B9);
        z = (z ^ (z >> 27)).wrapping_mul(0x94D049BB133111EB);
        z = z ^ (z >> 31);
        (z % (bound as u64)) as usize
    }
}

} // verus!
