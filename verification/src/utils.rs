//! Small utilities: an explicit, seedable random generator and uniform
//! choice from a vector.
//!
//! The generator is injected wherever the engine or a game needs randomness,
//! so that distinct ensemble members can be determinized with distinct seeds
//! and runs are reproducible.

use vstd::prelude::*;

verus! {

#[verifier::external_type_specification]
#[verifier::external_body]
pub struct ExXoshiro(rand::rngs::Xoshiro256PlusPlus);

/// A seedable pseudo-random generator.
///
/// Nothing is ever assumed about the values it produces beyond their type;
/// every function that consumes them is verified for all possible outcomes.
#[derive(Debug)]
pub struct Rng {
    inner: rand::rngs::Xoshiro256PlusPlus,
}

impl Rng {
    /// Relies on rand's `SeedableRng::seed_from_u64` for
    /// `Xoshiro256PlusPlus`: builds a generator from an integer seed.
    #[verifier::external_body]
    pub fn from_seed(seed: u64) -> Rng {
        Rng { inner: rand::SeedableRng::seed_from_u64(seed) }
    }

    /// Relies on rand's `Rng::next_u64` for `Xoshiro256PlusPlus`: the next
    /// word of the stream.  No property of the value is assumed.
    #[verifier::external_body]
    pub fn next_word(&mut self) -> u64 {
        rand::Rng::next_u64(&mut self.inner)
    }

    /// Relies on `Xoshiro256PlusPlus::clone`: a generator with the same
    /// state.  Nothing is assumed of the copy's stream.
    #[verifier::external_body]
    pub fn fork(&self) -> Rng {
        Rng { inner: self.inner.clone() }
    }

    /// A uniform index below `n`.
    pub fn below(&mut self, n: u64) -> (r: u64)
        requires
            n >= 1,
        ensures
            r < n,
    {
        self.next_word() % n
    }
}

/// Return a random element from the vector.
pub fn choose_random<'a, T>(rng: &mut Rng, vec: &'a Vec<T>) -> (r: &'a T)
    requires
        vec.len() >= 1,
    ensures
        exists|i: int| 0 <= i < vec.len() && r == &vec[i],
{
    let idx = rng.below(vec.len() as u64) as usize;
    &vec[idx]
}

/// Return a random mutable element from the vector.
pub fn choose_random_mut<'a, T>(rng: &mut Rng, vec: &'a mut Vec<T>) -> (r: &'a mut T)
    requires
        old(vec).len() >= 1,
    ensures
        exists|i: int|
            {
                &&& 0 <= i < old(vec).len()
                &&& *r == old(vec)[i]
                &&& final(vec)@ == old(vec)@.update(i, *final(r))
            },
{
    let idx = rng.below(vec.len() as u64) as usize;
    &mut vec[idx]
}

} // verus!
