//! The source of randomness for walk sampling.
//!
//! Each output line draws from its own generator.  In production the
//! generator is seeded from the thread-local entropy source; for
//! reproducible fixtures a caller may seed one explicitly.  Nothing is
//! promised of the drawn values beyond their range: sampling is
//! intentionally non-deterministic across lines and runs.

use vstd::prelude::*;

verus! {

#[verifier::external_type_specification]
#[verifier::external_body]
pub struct ExXoshiro256PlusPlus(rand_xoshiro::Xoshiro256PlusPlus);

/// A per-line random source.
pub struct WalkRng {
    inner: rand_xoshiro::Xoshiro256PlusPlus,
}

impl WalkRng {
    /// Relies on `rand::thread_rng` and
    /// `rand_xoshiro::Xoshiro256PlusPlus::from_rng`: a generator seeded
    /// from the thread-local entropy source, or `None` if seeding from it
    /// fails.  If the operating system's entropy source itself cannot be
    /// read, `thread_rng`'s thread-local initialization panics at its
    /// first use in the thread, so that case aborts the run instead of
    /// returning `None`; every failure is fatal either way.
    #[verifier::external_body]
    pub fn new() -> (r: Option<WalkRng>) {
        match rand_xoshiro::rand_core::SeedableRng::from_rng(rand::thread_rng()) {
            Ok(inner) => Some(WalkRng { inner }),
            Err(_) => None,
        }
    }

    /// Relies on `rand::Rng::gen_range`: a value drawn from `[0, n)`.
    /// It panics only when the range is empty, which the precondition
    /// rules out; nothing is promised of the distribution.
    #[verifier::external_body]
    pub fn next_below(&mut self, n: usize) -> (r: usize)
        requires
            n >= 1,
        ensures
            r < n,
    {
        rand::Rng::gen_range(&mut self.inner, 0, n)
    }
}

} // verus!
