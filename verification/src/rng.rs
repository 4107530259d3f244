//! A seedable pseudo-random source, threaded explicitly through generation.
//!
//! The executable draws come from `rand`'s xoshiro256++ generator, a fixed,
//! portable algorithm whose whole output stream is determined by its seed.
//! The contracts therefore speak of an abstract stream: `stream_word(seed, i)`
//! names the `i`-th value the generator seeded with `seed` yields, which is
//! what makes generation provably deterministic for a fixed seed.

use vstd::prelude::*;

verus! {

/// Declares `rand::rngs::Xoshiro256PlusPlus` so that a verified struct can
/// hold one; its value stays opaque, and all knowledge about it goes
/// through the contracts below.
#[verifier::external_type_specification]
#[verifier::external_body]
pub struct ExXoshiro256PlusPlus(rand::rngs::Xoshiro256PlusPlus);

/// The `index`-th 64-bit value drawn from a xoshiro256++ generator seeded
/// with `seed` through `SeedableRng::seed_from_u64`. A function of its two
/// arguments alone: the algorithm is fixed and keeps no other state.
pub uninterp spec fn stream_word(seed: u64, index: nat) -> u64;

/// A deterministic pseudo-random source: a seeded generator together with
/// the count of values already drawn from it.
pub struct Prng {
    inner: rand::rngs::Xoshiro256PlusPlus,
    seed: Ghost<u64>,
    taken: Ghost<nat>,
}

impl Prng {
    /// The seed this source was made from.
    pub closed spec fn seed(self) -> u64 {
        self.seed@
    }

    /// How many words have been drawn so far.
    pub closed spec fn taken(self) -> nat {
        self.taken@
    }

    /// Relies on `rand::rngs::Xoshiro256PlusPlus` and
    /// `SeedableRng::seed_from_u64`: seeding is a pure function of the `u64`
    /// seed (a SplitMix64 expansion), so the fresh source stands at position
    /// zero of the stream named by `stream_word(seed, _)`.
    #[verifier::external_body]
    pub fn from_seed_value(seed: u64) -> (r: Prng)
        ensures
            r.seed() == seed,
            r.taken() == 0,
    {
        Prng {
            inner: <rand::rngs::Xoshiro256PlusPlus as rand::SeedableRng>::seed_from_u64(seed),
            seed: Ghost(seed),
            taken: Ghost(0),
        }
    }

    /// Relies on `rand::Rng::next_u64` for `Xoshiro256PlusPlus`: each call
    /// advances the fixed xoshiro256++ state by one step and returns the next
    /// value of the stream determined by the seed.
    #[verifier::external_body]
    pub fn next_word(&mut self) -> (r: u64)
        ensures
            r == stream_word(old(self).seed(), old(self).taken()),
            final(self).seed() == old(self).seed(),
            final(self).taken() == old(self).taken() + 1,
    {
        rand::Rng::next_u64(&mut self.inner)
    }

    /// A value in `lo..hi` drawn from the stream by reduction of the next
    /// word; the exact value is pinned by the stream, so it is the same on
    /// every run with the same seed.
    pub fn next_in(&mut self, lo: u64, hi: u64) -> (r: u64)
        requires
            lo < hi,
        ensures
            r == lo + stream_word(old(self).seed(), old(self).taken()) as int % (hi - lo),
            lo <= r < hi,
            final(self).seed() == old(self).seed(),
            final(self).taken() == old(self).taken() + 1,
    {
        let w = self.next_word();
        let span = hi - lo;
        let m = w % span;
        lo + m
    }
}

/// Relies on `rand::random`: one entropy-seeded value from the operating
/// system's randomness; nothing is promised of it.
#[verifier::external_body]
pub fn entropy_seed() -> u64 {
    rand::random::<u64>()
}

} // verus!
