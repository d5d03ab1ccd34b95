//! The pseudo-random source. The generator itself is the `rand` crate's; the
//! functions here state what the library relies on and nothing more.

use vstd::prelude::*;
use rand::rngs::OsRng;
use rand::rngs::StdRng;
use rand::Rng;
use rand::SeedableRng;

verus! {

/// The standard generator of `rand`, `rand::rngs::StdRng`. Nothing is known
/// of what a value of it holds.
#[verifier::external_type_specification]
#[verifier::external_body]
pub struct ExStdRng(StdRng);

/// Calls `SeedableRng::seed_from_u64` of `rand` for its standard generator.
/// Nothing is claimed of the generator that comes back.
#[verifier::external_body]
pub(crate) fn seeded_rng(seed: u64) -> StdRng {
    StdRng::seed_from_u64(seed)
}

/// The error of `rand`, `rand::Error`: why a generator could not be made or
/// could not draw. Nothing is known of what a value of it holds.
#[verifier::external_type_specification]
#[verifier::external_body]
pub struct ExRandError(rand::Error);

/// Calls `SeedableRng::from_rng` of `rand` for its standard generator, with
/// the operating system's generator `OsRng` as the source of the seed. The
/// call fails, with the error of `rand`, where the system has no entropy to
/// give. Nothing is claimed of the generator that comes back.
#[verifier::external_body]
pub(crate) fn entropy_rng() -> Result<StdRng, rand::Error> {
    StdRng::from_rng(OsRng)
}

/// The seed of the generator that stands in where the operating system has
/// no entropy to give.
pub const FALLBACK_SEED: u64 = 0x5eed_0f_f1ee7;

/// A generator seeded by the operating system, or, where the system has no
/// entropy to give, with `FALLBACK_SEED`.
pub(crate) fn system_rng() -> StdRng {
    match entropy_rng() {
        Ok(rng) => rng,
        Err(_) => seeded_rng(FALLBACK_SEED),
    }
}

/// Calls `Rng::gen_range` of `rand` with the half-open range from 0 to
/// `bound`. The claim: the number drawn lies in that range. An empty range
/// makes `gen_range` panic, so `bound` must be positive.
#[verifier::external_body]
pub(crate) fn draw_below(rng: &mut StdRng, bound: u64) -> (drawn: u64)
    requires
        bound > 0,
    ensures
        drawn < bound,
{
    rng.gen_range(0..bound)
}

/// Calls `Rng::gen` of `rand` for a `bool`. Nothing is claimed of the result.
#[verifier::external_body]
pub(crate) fn draw_bool(rng: &mut StdRng) -> bool {
    rng.gen()
}

/// Calls `Rng::gen_ratio` of `rand`, which is `true` with the chance
/// `numerator / denominator`. The claim is what its documentation promises
/// of the two ends: always `true` where the two are equal, never where the
/// numerator is 0. It panics on a zero denominator and on a numerator above
/// the denominator, which `requires` leaves out.
#[verifier::external_body]
pub(crate) fn draw_ratio(rng: &mut StdRng, numerator: u32, denominator: u32) -> (drawn: bool)
    requires
        denominator > 0,
        numerator <= denominator,
    ensures
        numerator == denominator ==> drawn,
        numerator == 0 ==> !drawn,
{
    rng.gen_ratio(numerator, denominator)
}

} // verus!
