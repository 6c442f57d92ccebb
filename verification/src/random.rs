use vstd::prelude::*;
use bracket_random::prelude::RandomNumberGenerator;

verus! {

/// The random number generator of `bracket_random`, carried through as it
/// is: nothing is known of its state.
#[verifier::external_type_specification]
#[verifier::external_body]
pub struct ExRandomNumberGenerator(RandomNumberGenerator);

/// Draws from `RandomNumberGenerator::range`, which samples the half-open
/// interval from `min` up to, but not including, `max`. Nothing is claimed
/// of the draw beyond its lying in that interval. The generator refuses an
/// empty interval, so callers must pass `min < max`.
#[verifier::external_body]
pub(crate) fn range(rng: &mut RandomNumberGenerator, min: i32, max: i32) -> (r: i32)
    requires
        min < max,
    ensures
        min <= r < max,
{
    rng.range(min, max)
}

} // verus!
