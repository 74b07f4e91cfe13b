//! Seeded randomness, taken from the `rand` crate.
//!
//! A generator is an opaque value here. What a draw returns, and the
//! generator that it leaves behind, is named as a function of the generator
//! before the draw and of the draw's own arguments: equal generators asked
//! the same question give the same answer and stay equal. That is all the
//! rest of the crate needs in order to be reproducible from a seed.

use vstd::prelude::*;

use rand::distributions::{Bernoulli, Distribution};
use rand::rngs::StdRng;
use rand::{Rng, SeedableRng};

verus! {

/// `rand`'s standard generator, carried as an opaque value.
#[verifier::external_type_specification]
#[verifier::external_body]
pub struct ExStdRng(StdRng);

/// `rand`'s yes/no distribution with a fixed probability, carried as an
/// opaque value.
#[verifier::external_type_specification]
#[verifier::external_body]
pub struct ExBernoulli(Bernoulli);

/// The generator that `StdRng::seed_from_u64` builds from a seed.
pub uninterp spec fn seeded_generator(seed: u64) -> StdRng;

/// What `Rng::gen_range` draws from `lo..=hi`, and the generator it leaves.
pub uninterp spec fn range_draw(rng: StdRng, lo: u64, hi: u64) -> (u64, StdRng);

/// What sampling a `Bernoulli` gives, and the generator it leaves.
pub uninterp spec fn chance_draw(rng: StdRng, chance: Bernoulli) -> (bool, StdRng);

/// Calls `StdRng::seed_from_u64`. The seed is expanded and handed to the
/// cipher behind `StdRng`; nothing else goes in, so the generator is a
/// function of the seed.
#[verifier::external_body]
pub(crate) fn generator_from_seed(seed: u64) -> (rng: StdRng)
    ensures
        rng == seeded_generator(seed),
{
    StdRng::seed_from_u64(seed)
}

/// Calls `Rng::gen_range` on an inclusive range. The call panics on an empty
/// range, so `lo <= hi` is asked for. The number drawn lies in the range;
/// which one it is, and the generator afterwards, depend on the generator
/// and the two bounds alone.
#[verifier::external_body]
pub(crate) fn draw_in_range(rng: &mut StdRng, lo: u64, hi: u64) -> (drawn: u64)
    requires
        lo <= hi,
    ensures
        lo <= drawn <= hi,
        (drawn, *final(rng)) == range_draw(*old(rng), lo, hi),
{
    rng.gen_range(lo..=hi)
}

/// Calls `Distribution::sample` on a `Bernoulli`, which is what
/// `Rng::gen_bool` does once it has built the distribution. The answer and
/// the generator afterwards depend on the generator and the distribution
/// alone.
#[verifier::external_body]
pub(crate) fn draw_chance(rng: &mut StdRng, chance: &Bernoulli) -> (hit: bool)
    ensures
        (hit, *final(rng)) == chance_draw(*old(rng), *chance),
{
    chance.sample(rng)
}

} // verus!
