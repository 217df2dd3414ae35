//! Random sources for evaluation.
//!
//! The evaluator is generic over [`RandomSource`], so every random draw is an
//! explicit, passed-in dependency. [`SeededRng`] is a deterministic generator
//! for reproducible runs; [`ThreadRandom`] draws from the process-level
//! generator of the `rand` crate.

use rand::RngExt;
use vstd::prelude::*;

verus! {

/// A source of random draws for the evaluator.
///
/// Implementations promise only the bounds of each draw, never a
/// distribution; the evaluator is verified for every possible outcome.
pub trait RandomSource {
    /// Picks a value in the inclusive range `lo..=hi`.
    fn pick_range(&mut self, lo: i64, hi: i64) -> (r: i64)
        requires
            lo <= hi,
        ensures
            lo <= r <= hi,
    ;

    /// Picks an index below `len`.
    fn pick_index(&mut self, len: usize) -> (r: usize)
        requires
            len > 0,
        ensures
            r < len,
    ;
}

/// A small deterministic generator with an explicit 64-bit seed, for
/// reproducible evaluation. The stream of draws is a fixed function of the
/// seed.
pub struct SeededRng {
    state: u64,
}

impl SeededRng {
    /// Creates a generator from a seed; equal seeds give equal streams.
    pub fn new(seed: u64) -> SeededRng {
        SeededRng { state: seed }
    }

    /// Advances the state and returns the next raw 64-bit draw.
    fn next_u64(&mut self) -> u64 {
        self.state = self.state.wrapping_add(0x9E3779B97F4A7C15);
        let mut z: u64 = self.state;
        z = (z ^ (z >> 30)).wrapping_mul(0xBF58476D1CE4E5B9);
        z = (z ^ (z >> 27)).wrapping_mul(0x94D049BB133111EB);
        z ^ (z >> 31)
    }
}

impl RandomSource for SeededRng {
    fn pick_range(&mut self, lo: i64, hi: i64) -> (r: i64) {
        let width: i128 = (hi as i128) - (lo as i128) + 1;
        let x: u64 = self.next_u64();
        let k: i128 = (x as i128) % width;
        let r128: i128 = (lo as i128) + k;
        r128 as i64
    }

    fn pick_index(&mut self, len: usize) -> (r: usize) {
        let x: u64 = self.next_u64();
        (x % (len as u64)) as usize
    }
}

/// A random source backed by the process-level generator of the `rand`
/// crate.
pub struct ThreadRandom {
    rng: rand::rngs::ThreadRng,
}

/// The process-level generator type of the `rand` crate, opaque to
/// verification.
#[verifier::external_type_specification]
#[verifier::external_body]
pub struct ExThreadRng(rand::rngs::ThreadRng);

/// Relies on `rand::rng`: returns a handle to the thread-local generator.
#[verifier::external_body]
fn fresh_thread_rng() -> rand::rngs::ThreadRng {
    rand::rng()
}

/// Relies on `rand::RngExt::random_range`: returns a uniform value in the
/// given non-empty inclusive range.
#[verifier::external_body]
fn thread_pick_range(rng: &mut rand::rngs::ThreadRng, lo: i64, hi: i64) -> (r: i64)
    requires
        lo <= hi,
    ensures
        lo <= r <= hi,
{
    rng.random_range(lo..=hi)
}

/// Relies on `rand::RngExt::random_range`: returns a uniform index below the
/// given positive bound.
#[verifier::external_body]
fn thread_pick_index(rng: &mut rand::rngs::ThreadRng, len: usize) -> (r: usize)
    requires
        len > 0,
    ensures
        r < len,
{
    rng.random_range(0..len)
}

impl ThreadRandom {
    /// Creates a source that draws from the thread-local generator.
    pub fn new() -> ThreadRandom {
        ThreadRandom { rng: fresh_thread_rng() }
    }
}

impl RandomSource for ThreadRandom {
    fn pick_range(&mut self, lo: i64, hi: i64) -> (r: i64) {
        thread_pick_range(&mut self.rng, lo, hi)
    }

    fn pick_index(&mut self, len: usize) -> (r: usize) {
        thread_pick_index(&mut self.rng, len)
    }
}

} // verus!
