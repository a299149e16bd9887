//! Injected randomness for relocation choices.
//!
//! The cuckoo filter never touches global state: it draws eviction slots
//! from a source handed to its constructor.  A seeded source makes the
//! whole structure deterministic.

use vstd::prelude::*;
use rand::Rng;

verus! {

/// A source of random indices: each draw yields some index below `n`.
pub trait RandomSource {
    fn random_index(&mut self, n: usize) -> (r: usize)
        requires
            n > 0,
        ensures
            r < n,
    ;
}

/// A deterministic source: a counter run through the 64-bit finalizer.
pub struct SplitMixRandom {
    state: u64,
}

impl SplitMixRandom {
    pub fn new(seed: u64) -> (r: Self) {
        SplitMixRandom { state: seed }
    }
}

impl RandomSource for SplitMixRandom {
    fn random_index(&mut self, n: usize) -> (r: usize) {
        self.state = self.state.wrapping_add(1);
        (crate::hash::mix64(self.state) % (n as u64)) as usize
    }
}

#[verifier::external_type_specification]
#[verifier::external_body]
pub struct ExThreadRng(rand::rngs::ThreadRng);

/// Randomness drawn from the `rand` crate's thread-local generator.
pub struct ThreadRandom {
    rng: rand::rngs::ThreadRng,
}

impl ThreadRandom {
    /// Relies on `rand::thread_rng`: a handle to the thread-local
    /// generator.
    #[verifier::external_body]
    pub fn new() -> (r: Self) {
        ThreadRandom { rng: rand::thread_rng() }
    }

    /// Relies on `rand::Rng::gen`: an arbitrary `usize`, reduced modulo
    /// `n`; nothing is assumed beyond the range of the result.
    #[verifier::external_body]
    fn draw(&mut self, n: usize) -> (r: usize)
        requires
            n > 0,
        ensures
            r < n,
    {
        self.rng.gen::<usize>() % n
    }
}

impl RandomSource for ThreadRandom {
    fn random_index(&mut self, n: usize) -> (r: usize) {
        self.draw(n)
    }
}

} // verus!
