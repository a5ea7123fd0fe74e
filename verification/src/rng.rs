//! The pseudo-random stream that picks tiles: xoshiro128++ of `rand_xoshiro`,
//! seeded once.
//!
//! The generator is an outside type. What it will hand out next depends on
//! nothing but its four state words, so the contracts below speak of those
//! words and give each outcome a name.

use rand::{Rng, SeedableRng};
use rand_xoshiro::Xoshiro128PlusPlus;
use vstd::prelude::*;

verus! {

/// `rand_xoshiro::Xoshiro128PlusPlus`, taken as it is: nothing is said of
/// what is inside a generator but through the names below.
#[verifier::external_type_specification]
#[verifier::external_body]
pub struct ExXoshiro128PlusPlus(Xoshiro128PlusPlus);

/// The state words of a generator.
pub uninterp spec fn rng_words(rng: Xoshiro128PlusPlus) -> Seq<u32>;

/// The state words of the generator that `seed_from_u64` makes from a seed.
pub uninterp spec fn seeded_words(seed: u64) -> Seq<u32>;

/// What `gen_range(0..bound)` does on a generator with the given state words:
/// the value it returns, and the state words it leaves.
pub uninterp spec fn range_draw(words: Seq<u32>, bound: u64) -> (u64, Seq<u32>);

/// `Xoshiro128PlusPlus::seed_from_u64`: the generator for a seed. Its state is
/// a function of the seed alone.
#[verifier::external_body]
pub(crate) fn seed_rng(seed: u64) -> (rng: Xoshiro128PlusPlus)
    ensures
        rng_words(rng) == seeded_words(seed),
{
    Xoshiro128PlusPlus::seed_from_u64(seed)
}

/// `Rng::gen_range` on `0..bound`, for `u64`: a number below `bound`. The
/// number and the state left behind are functions of the state before and of
/// `bound`. The call panics on an empty range, which `requires` leaves out.
#[verifier::external_body]
pub(crate) fn draw_below(rng: &mut Xoshiro128PlusPlus, bound: u64) -> (r: u64)
    requires
        bound > 0,
    ensures
        r < bound,
        r == range_draw(rng_words(*old(rng)), bound).0,
        rng_words(*final(rng)) == range_draw(rng_words(*old(rng)), bound).1,
{
    rng.gen_range(0..bound)
}

} // verus!
