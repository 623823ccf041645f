use vstd::prelude::*;

verus! {

/// rltk's seeded random number generator.
#[verifier::external_type_specification]
#[verifier::external_body]
pub struct ExRandomNumberGenerator(rltk::RandomNumberGenerator);

/// Relies on rltk's `RandomNumberGenerator::range`: a value drawn uniformly from
/// the half-open range `lo..hi` (it panics on an empty range, hence `lo < hi`).
#[verifier::external_body]
pub(crate) fn roll_range(rng: &mut rltk::RandomNumberGenerator, lo: i32, hi: i32) -> (r: i32)
    requires
        lo < hi,
    ensures
        lo <= r < hi,
{
    rng.range(lo, hi)
}

} // verus!
