//! The seeded pseudo-random source behind every sampling decision.

use vstd::prelude::*;

verus! {

/// Number of points in the lattice that uniform variates are drawn from: 2^53.
pub const LATTICE: u64 = 0x20_0000_0000_0000;

/// Number of raw 64-bit draws that fall on one lattice point: 2^11.
pub const DRAWS_PER_POINT: u64 = 0x800;

/// The numerator over 2^53 of the uniform variate that a raw draw stands for.
pub open spec fn lattice_point(draw: u64) -> nat {
    draw as nat / DRAWS_PER_POINT as nat
}

/// The generator state that `oorandom::Rand64::new` arrives at for a seed:
/// the pair that `Rand64::state` reports, state word first, increment second.
pub uninterp spec fn seeded_state(seed: u128) -> (u128, u128);

/// What one call of `oorandom::Rand64::rand_u64` does to a generator whose
/// state word is `state` and whose increment is `increment`: the value it
/// returns, and the state word it leaves behind.
pub uninterp spec fn generator_step(state: u128, increment: u128) -> (u64, u128);

/// Calls `oorandom::Rand64::new` and reads the fresh generator's state back
/// with `Rand64::state`. The contract only gives that pair its name.
#[verifier::external_body]
fn rand64_seed(seed: u128) -> (r: (u128, u128))
    ensures
        r == seeded_state(seed),
{
    oorandom::Rand64::new(seed).state()
}

/// Rebuilds a generator with `oorandom::Rand64::from_state`, calls
/// `Rand64::rand_u64` once, and reads the state word back with
/// `Rand64::state`. The increment is never changed by a draw, so only the
/// value and the new state word are returned.
#[verifier::external_body]
fn rand64_next(state: u128, increment: u128) -> (r: (u64, u128))
    ensures
        r == generator_step(state, increment),
{
    let mut generator = oorandom::Rand64::from_state((state, increment));
    let value = generator.rand_u64();
    (value, generator.state().0)
}

/// A reproducible generator of 64-bit draws, held as the two words of a
/// permuted congruential generator: its state and its increment.
pub struct RandomSource {
    state: u128,
    increment: u128,
}

impl RandomSource {
    /// The source that a seed gives rise to.
    pub closed spec fn seeded(seed: u128) -> Self {
        RandomSource { state: seeded_state(seed).0, increment: seeded_state(seed).1 }
    }

    /// The value that the next draw from this source returns.
    pub closed spec fn output(self) -> u64 {
        generator_step(self.state, self.increment).0
    }

    /// The numerator over 2^53 of the uniform variate that the next draw from
    /// this source stands for.
    pub open spec fn point(self) -> nat {
        lattice_point(self.output())
    }

    /// This source after one draw.
    pub closed spec fn advanced(self) -> Self {
        RandomSource {
            state: generator_step(self.state, self.increment).1,
            increment: self.increment,
        }
    }

    /// Creates the source for a seed. Equal seeds give equal sources.
    pub fn new(seed: u128) -> (source: Self)
        ensures
            source == Self::seeded(seed),
    {
        let words = rand64_seed(seed);
        RandomSource { state: words.0, increment: words.1 }
    }

    /// Draws the next raw 64-bit value and advances the source.
    pub fn draw(&mut self) -> (value: u64)
        ensures
            value == old(self).output(),
            *final(self) == old(self).advanced(),
    {
        let step = rand64_next(self.state, self.increment);
        self.state = step.1;
        step.0
    }

    /// Draws a uniform variate from the lattice of 2^53 equally spaced points
    /// in the unit interval, 0 included and 1 not, and returns its numerator.
    pub fn uniform(&mut self) -> (point: u64)
        ensures
            point == old(self).point(),
            point < LATTICE,
            *final(self) == old(self).advanced(),
    {
        self.draw() / DRAWS_PER_POINT
    }
}

} // verus!
