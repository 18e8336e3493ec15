//! Randomness for sampling. The generator is `rand`'s `SmallRng`; the one
//! trusted wrapper draws a uniform fixed-point value in `[0, 1)`. Nothing
//! more is assumed of a draw, so everything computed from one is verified
//! for every value the wrapper can return.

use vstd::prelude::*;
use rand::Rng;
use rand::rngs::SmallRng;
use crate::fixed::SCALE;
use crate::vector::Vector3;

verus! {

#[verifier::external_type_specification]
#[verifier::external_body]
pub struct ExSmallRng(SmallRng);

/// Relies on rand's `Rng::gen_range`: a uniform draw from the given
/// half-open range, here `[0, SCALE)`.
#[verifier::external_body]
pub(crate) fn rng_unit(rng: &mut SmallRng) -> (r: i64)
    ensures
        0 <= r < SCALE,
{
    rng.gen_range(0..SCALE)
}

/// A uniform fixed-point draw from `[-1, 1)`, derived from the unit draw.
pub(crate) fn rng_symmetric(rng: &mut SmallRng) -> (r: i64)
    ensures
        -SCALE <= r < SCALE,
{
    let u = rng_unit(rng);
    2 * u - SCALE
}

impl Vector3 {
    /// A vector whose components are uniform draws from `[0, 1)`; the raw
    /// material for random albedos.
    pub fn random(rng: &mut SmallRng) -> (r: Vector3)
        ensures
            0 <= r.x < SCALE,
            0 <= r.y < SCALE,
            0 <= r.z < SCALE,
    {
        let x = rng_unit(rng);
        let y = rng_unit(rng);
        let z = rng_unit(rng);
        Vector3 { x, y, z }
    }
}

} // verus!

