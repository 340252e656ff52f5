use vstd::prelude::*;

verus! {

/// The seeded xorshift generator of the rltk crate. Generation and
/// decoration take one explicitly, never a global source, so a fixed seed
/// reproduces an identical dungeon.
#[verifier::external_type_specification]
#[verifier::external_body]
pub struct ExRandomNumberGenerator(rltk::RandomNumberGenerator);

/// Relies on rltk::RandomNumberGenerator::range: returns a value that is
/// at least `min` and strictly below `max`, and panics when the range is
/// empty. Nothing more is assumed of the value drawn.
#[verifier::external_body]
pub(crate) fn rng_range(rng: &mut rltk::RandomNumberGenerator, min: i32, max: i32) -> (r: i32)
    requires
        min < max,
    ensures
        min <= r < max,
{
    rng.range(min, max)
}

} // verus!
