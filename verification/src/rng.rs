use vstd::prelude::*;

verus! {

/// The engine's random source: rand's standard generator, seeded once and
/// owned exclusively by the engine. Its state is opaque here; every
/// contract below states only what holds of any draw.
#[verifier::external_type_specification]
#[verifier::external_body]
pub struct ExStdRng(rand::rngs::StdRng);

/// Relies on rand's `SeedableRng::seed_from_u64`: builds a generator whose
/// stream is a function of the seed alone.
#[verifier::external_body]
pub(crate) fn rng_from_seed(seed: u64) -> rand::rngs::StdRng {
    <rand::rngs::StdRng as rand::SeedableRng>::seed_from_u64(seed)
}

/// Relies on rand's `RngExt::random_ratio`: true with chance
/// `num`-in-`den`; guaranteed true when `num == den` and guaranteed false
/// when `num == 0`; panics only on an empty or improper ratio, which the
/// precondition rules out.
#[verifier::external_body]
pub(crate) fn rng_ratio(rng: &mut rand::rngs::StdRng, num: u32, den: u32) -> (r: bool)
    requires
        0 < den,
        num <= den,
    ensures
        num == den ==> r,
        num == 0 ==> !r,
{
    rand::RngExt::random_ratio(rng, num, den)
}

/// Relies on rand's `RngExt::random_range` on a half-open range: the draw
/// lies in `lo .. hi`; panics only on an empty range, which the
/// precondition rules out.
#[verifier::external_body]
pub(crate) fn rng_below(rng: &mut rand::rngs::StdRng, lo: usize, hi: usize) -> (r: usize)
    requires
        lo < hi,
    ensures
        lo <= r < hi,
{
    rand::RngExt::random_range(rng, lo..hi)
}

} // verus!
