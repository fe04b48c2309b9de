//! The random number generator the builders and the spawner draw from.

use rltk::RandomNumberGenerator;
use vstd::prelude::*;

verus! {

/// rltk's seeded random number generator, carried through the builders.
#[verifier::external_type_specification]
#[verifier::external_body]
pub struct ExRandomNumberGenerator(RandomNumberGenerator);

/// Relies on rltk's `RandomNumberGenerator::range`: a value from `min`
/// included to `max` excluded (it panics when the range is empty).
#[verifier::external_body]
pub(crate) fn rng_range(rng: &mut RandomNumberGenerator, min: i32, max: i32) -> (r: i32)
    requires
        min < max,
    ensures
        min <= r < max,
{
    rng.range(min, max)
}

/// Relies on rltk's `RandomNumberGenerator::roll_dice`: the sum of `n` rolls,
/// each from 1 to `die_type`.
#[verifier::external_body]
pub(crate) fn roll_dice(rng: &mut RandomNumberGenerator, n: i32, die_type: i32) -> (r: i32)
    requires
        0 <= n,
        1 <= die_type < i32::MAX,
        n * die_type <= i32::MAX,
    ensures
        n <= r <= n * die_type,
{
    rng.roll_dice(n, die_type)
}

} // verus!
