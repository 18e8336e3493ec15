//! The surface scattering model: a closed set of material behaviors, each
//! working in a local shading frame whose +Z axis is the oriented surface
//! normal. Directions handed in and out point away from the surface, except
//! that a refracted continuation direction points through it.
//!
//! Sampling draws from `rand` behind the unit-draw wrapper; everything done
//! with a drawn value is verified for every value the wrapper can return.

use vstd::prelude::*;
use rand::rngs::SmallRng;
use crate::fixed::{SCALE, abs_of, tdiv, lemma_mul_le, tdiv128, isqrt128, lemma_tdiv_scale_id};
use crate::vector::{Vector3, Color3, vabs_le, dot2_of, isqrt_of, lemma_isqrt_unique};
use crate::hittable::Facing;
use crate::rng::{rng_unit, rng_symmetric};

verus! {

/// Pi at the fixed-point scale, rounded to nearest.
pub const PI_FP: i64 = 205887;

/// One sampled continuation of a light path: the outgoing direction in the
/// local frame, the sampling density, whether the distribution is a delta,
/// and the throughput weight.
#[derive(Clone, Copy, Debug)]
pub struct ScatterSample {
    pub dir_out: Vector3,
    pub pdf: i64,
    pub is_specular: bool,
    pub weight: Color3,
}

#[derive(Clone, Copy, Debug)]
pub struct Diffuse {
    pub albedo: Color3,
}

#[derive(Clone, Copy, Debug)]
pub struct Metal {
    pub albedo: Color3,
    pub fuzziness: i64,
}

#[derive(Clone, Copy, Debug)]
pub struct Dielectric {
    pub index_of_refraction: i64,
}

#[derive(Clone, Copy, Debug)]
pub enum Material {
    Diffuse(Diffuse),
    Metal(Metal),
    Dielectric(Dielectric),
}

/// A color with components in `[0, 1]`, and for a dielectric a positive
/// index: what scene construction guarantees of every material.
pub open spec fn material_fits(m: Material) -> bool {
    match m {
        Material::Diffuse(d) => vabs_le(d.albedo, SCALE as int),
        Material::Metal(mt) => vabs_le(mt.albedo, SCALE as int)
            && 0 <= mt.fuzziness <= SCALE,
        Material::Dielectric(di) => 4096 <= di.index_of_refraction <= 16 * SCALE,
    }
}

/// Mirror reflection about the local +Z axis: negate the tangential
/// components.
pub open spec fn mirror_of(wi: Vector3) -> Vector3 {
    Vector3 { x: (-wi.x) as i64, y: (-wi.y) as i64, z: wi.z }
}

/// The diffuse reflectance: albedo over pi, componentwise.
pub open spec fn diffuse_reflectance_of(albedo: Color3) -> Color3 {
    Vector3 {
        x: tdiv(albedo.x * SCALE as int, PI_FP as int) as i64,
        y: tdiv(albedo.y * SCALE as int, PI_FP as int) as i64,
        z: tdiv(albedo.z * SCALE as int, PI_FP as int) as i64,
    }
}

/// The cosine-weighted density: |cos| over pi.
pub open spec fn cosine_pdf_of(z: int) -> int {
    tdiv(abs_of(z) * SCALE as int, PI_FP as int)
}

/// A specular weight: the color over |cos| of the outgoing direction, so
/// that the integrator's cosine factor cancels; zero at grazing.
pub open spec fn specular_weight_of(c: Color3, z: int) -> Color3 {
    if z == 0 {
        Vector3 { x: 0i64, y: 0i64, z: 0i64 }
    } else {
        Vector3 {
            x: tdiv(c.x * SCALE as int, abs_of(z)) as i64,
            y: tdiv(c.y * SCALE as int, abs_of(z)) as i64,
            z: tdiv(c.z * SCALE as int, abs_of(z)) as i64,
        }
    }
}

/// The refraction ratio the dielectric uses: entering from outside divides
/// one by the index, leaving divides the index by one.
pub open spec fn refraction_ratio_of(ior: int, facing: Facing) -> int {
    match facing {
        Facing::Front => tdiv(SCALE as int * SCALE as int, ior),
        Facing::Back => ior,
    }
}

/// Schlick's approximation of the Fresnel reflectance for the given
/// incidence cosine and ratio-independent index, mirrored exactly.
pub open spec fn schlick_of(cosine: int, ior: int) -> int {
    let a = tdiv((SCALE - ior) * SCALE as int, SCALE + ior);
    let r0 = tdiv(a * a, SCALE as int);
    let t = SCALE - cosine;
    let t2 = tdiv(t * t, SCALE as int);
    let t4 = tdiv(t2 * t2, SCALE as int);
    let t5 = tdiv(t4 * t, SCALE as int);
    r0 + tdiv((SCALE - r0) * t5, SCALE as int)
}

/// The vector form of Snell's law in the local frame, applied to the
/// continuation direction `uv` (pointing into the surface): the tangential
/// part scales by the ratio, and the axial part restores unit length.
pub open spec fn refract_of(uv: Vector3, ratio: int) -> Vector3 {
    let cos = if -uv.z <= SCALE { -uv.z as int } else { SCALE as int };
    let px = tdiv(ratio * uv.x, SCALE as int);
    let py = tdiv(ratio * uv.y, SCALE as int);
    let pz = tdiv(ratio * (uv.z + cos), SCALE as int);
    let m2 = px * px + py * py + pz * pz;
    let pl = isqrt_of(abs_of(SCALE as int * SCALE as int - m2));
    Vector3 { x: px as i64, y: py as i64, z: (pz - pl) as i64 }
}

/// Total internal reflection: the refraction ratio times the incidence
/// sine exceeds one, so Snell's law admits no transmitted direction.
pub open spec fn dielectric_reflects_of(z: int, ior: int, facing: Facing) -> bool {
    let ratio = refraction_ratio_of(ior, facing);
    let cos = crate::fixed::min_of(z, SCALE as int);
    let sin = isqrt_of(SCALE as int * SCALE as int - cos * cos);
    ratio * sin > SCALE as int * SCALE as int
}

/// The continuation direction the dielectric takes for the uniform draw
/// `u`: the mirror on total internal reflection or when Schlick's
/// reflectance exceeds the draw, Snell's refraction otherwise.
pub open spec fn dielectric_direction_of(dir_in: Vector3, ior: int, facing: Facing, u: int)
    -> Vector3 {
    let cos = crate::fixed::min_of(dir_in.z as int, SCALE as int);
    if dielectric_reflects_of(dir_in.z as int, ior, facing) || schlick_of(cos, ior) > u {
        mirror_of(dir_in)
    } else {
        refract_of(
            Vector3 { x: (-dir_in.x) as i64, y: (-dir_in.y) as i64, z: (-dir_in.z) as i64 },
            refraction_ratio_of(ior, facing))
    }
}

impl Diffuse {
    /// Sample a cosine-weighted direction on the upper hemisphere: a point
    /// on the unit disk projected up. Succeeds always; the density is the
    /// cosine over pi of the direction actually drawn.
    pub fn scatter(&self, rng: &mut SmallRng) -> (r: ScatterSample)
        requires
            vabs_le(self.albedo, SCALE as int),
        ensures
            !r.is_specular,
            vabs_le(r.dir_out, SCALE as int),
            0 <= r.dir_out.z,
            r.pdf == cosine_pdf_of(r.dir_out.z as int),
            r.weight == diffuse_reflectance_of(self.albedo),
            SCALE as int * SCALE as int - 2 * SCALE as int
                <= dot2_of(r.dir_out, r.dir_out) <= SCALE as int * SCALE as int,
    {
        let (x, y) = sample_unit_disk(rng);
        proof {
            lemma_mul_le(x as int, x as int, SCALE as int, SCALE as int);
            lemma_mul_le(y as int, y as int, SCALE as int, SCALE as int);
        }
        proof {
            assert(x as int * x as int >= 0) by (nonlinear_arith);
            assert(y as int * y as int >= 0) by (nonlinear_arith);
        }
        let d2: i64 = (x as i128 * x as i128 + y as i128 * y as i128) as i64;
        let rest: i64 = SCALE * SCALE - d2;
        let zu = isqrt128(rest as u128);
        proof {
            assert(zu <= SCALE) by (nonlinear_arith)
                requires
                    zu as int * zu as int <= SCALE as int * SCALE as int,
                    zu >= 0,
            ;
        }
        let z = zu as i64;
        proof {
            lemma_isqrt_unique(rest as int, z as int);
        }
        let dir = Vector3 { x, y, z };
        proof {
            // The projected direction is within one ulp of unit length: the
            // floor root loses at most 2z+1 of the squared length.
            assert(dot2_of(dir, dir) == d2 + z as int * z as int);
            assert(z as int * z as int <= rest as int);
            assert((z as int + 1) * (z as int + 1) > rest as int);
            assert(SCALE as int * SCALE as int - 2 * SCALE as int
                <= dot2_of(dir, dir) <= SCALE as int * SCALE as int) by (nonlinear_arith)
                requires
                    dot2_of(dir, dir) == d2 + z as int * z as int,
                    rest as int == SCALE as int * SCALE as int - d2,
                    0 <= d2,
                    z as int * z as int <= rest as int,
                    (z as int + 1) * (z as int + 1) > rest as int,
                    0 <= z <= SCALE,
            ;
        }
        let pdf = cosine_pdf(z);
        ScatterSample {
            dir_out: dir,
            pdf,
            is_specular: false,
            weight: diffuse_reflectance(self.albedo),
        }
    }

    /// The constant diffuse reflectance, for any direction pair.
    pub fn reflectance(&self) -> (r: Color3)
        requires
            vabs_le(self.albedo, SCALE as int),
        ensures
            r == diffuse_reflectance_of(self.albedo),
    {
        diffuse_reflectance(self.albedo)
    }

    /// The cosine-weighted density of an outgoing direction.
    pub fn pdf(&self, dir_out: &Vector3) -> (r: i64)
        requires
            vabs_le(*dir_out, 2 * SCALE as int),
        ensures
            r == cosine_pdf_of(dir_out.z as int),
    {
        cosine_pdf(dir_out.z)
    }
}

/// A point drawn uniformly from the unit disk by rejection, with a bounded
/// number of attempts; the origin stands in for the astronomically rare
/// case that every attempt lands outside the disk.
fn sample_unit_disk(rng: &mut SmallRng) -> (r: (i64, i64))
    ensures
        abs_of(r.0 as int) <= SCALE as int,
        abs_of(r.1 as int) <= SCALE as int,
        r.0 * r.0 + r.1 * r.1 <= SCALE as int * SCALE as int,
{
    let mut tries: usize = 0;
    while tries < 64
        invariant
            tries <= 64,
        decreases 64 - tries,
    {
        let x = rng_symmetric(rng);
        let y = rng_symmetric(rng);
        proof {
            lemma_mul_le(x as int, x as int, SCALE as int, SCALE as int);
            lemma_mul_le(y as int, y as int, SCALE as int, SCALE as int);
        }
        let m2 = x as i128 * x as i128 + y as i128 * y as i128;
        if m2 <= SCALE as i128 * SCALE as i128 {
            proof {
                assert(x as int * x as int >= 0) by (nonlinear_arith);
                assert(y as int * y as int >= 0) by (nonlinear_arith);
            }
            return (x, y);
        }
        tries += 1;
    }
    (0, 0)
}

fn diffuse_reflectance(albedo: Color3) -> (r: Color3)
    requires
        vabs_le(albedo, SCALE as int),
    ensures
        r == diffuse_reflectance_of(albedo),
{
    proof {
        lemma_mul_le(albedo.x as int, SCALE as int, SCALE as int, SCALE as int);
        lemma_mul_le(albedo.y as int, SCALE as int, SCALE as int, SCALE as int);
        lemma_mul_le(albedo.z as int, SCALE as int, SCALE as int, SCALE as int);
    }
    Vector3 {
        x: tdiv128(albedo.x as i128 * SCALE as i128, PI_FP as i128) as i64,
        y: tdiv128(albedo.y as i128 * SCALE as i128, PI_FP as i128) as i64,
        z: tdiv128(albedo.z as i128 * SCALE as i128, PI_FP as i128) as i64,
    }
}

fn cosine_pdf(z: i64) -> (r: i64)
    requires
        abs_of(z as int) <= 2 * SCALE as int,
    ensures
        r == cosine_pdf_of(z as int),
{
    let az: i64 = if z >= 0 { z } else { -z };
    proof {
        lemma_mul_le(az as int, SCALE as int, 2 * SCALE as int, SCALE as int);
    }
    tdiv128(az as i128 * SCALE as i128, PI_FP as i128) as i64
}

impl Metal {
    /// Mirror the incoming direction about the local normal, optionally
    /// perturbed by the fuzz parameter; a perturbed direction that dips
    /// under the surface is absorbed. The density is a delta, taken as
    /// one, and the weight pre-divides by the outgoing cosine so the
    /// integrator's cosine term cancels.
    pub fn scatter(&self, dir_in: &Vector3, rng: &mut SmallRng) -> (r: Option<ScatterSample>)
        requires
            vabs_le(self.albedo, SCALE as int),
            0 <= self.fuzziness <= SCALE,
            vabs_le(*dir_in, SCALE as int),
        ensures
            match r {
                Some(s) => {
                    &&& s.is_specular
                    &&& s.pdf == SCALE
                    &&& s.dir_out.z > 0
                    &&& vabs_le(s.dir_out, 2 * SCALE as int)
                    &&& s.weight == specular_weight_of(self.albedo, s.dir_out.z as int)
                    &&& self.fuzziness == 0 ==> s.dir_out == mirror_of(*dir_in)
                    &&& exists|f: Vector3|
                        #[trigger] vabs_le(f, SCALE as int)
                        && s.dir_out.x == mirror_of(*dir_in).x
                            + tdiv(f.x * self.fuzziness, SCALE as int)
                        && s.dir_out.y == mirror_of(*dir_in).y
                            + tdiv(f.y * self.fuzziness, SCALE as int)
                        && s.dir_out.z == mirror_of(*dir_in).z
                            + tdiv(f.z * self.fuzziness, SCALE as int)
                },
                None => self.fuzziness > 0 || mirror_of(*dir_in).z <= 0,
            },
    {
        let ghost zero_fuzz = Vector3 { x: 0i64, y: 0i64, z: 0i64 };
        let reflected = Vector3 { x: -dir_in.x, y: -dir_in.y, z: dir_in.z };
        let ghost mut wit = zero_fuzz;
        let dir_out = if self.fuzziness == 0 {
            proof {
                crate::fixed::lemma_mul_le(0, self.fuzziness as int, 0, SCALE as int);
            }
            reflected
        } else {
            let f = random_in_sphere(rng);
            proof {
                lemma_mul_le(f.x as int, self.fuzziness as int, SCALE as int, SCALE as int);
                lemma_mul_le(f.y as int, self.fuzziness as int, SCALE as int, SCALE as int);
                lemma_mul_le(f.z as int, self.fuzziness as int, SCALE as int, SCALE as int);
                wit = f;
            }
            reflected.plus(f.times(self.fuzziness))
        };
        proof {
            assert(vabs_le(wit, SCALE as int));
            assert(dir_out.x == mirror_of(*dir_in).x
                + tdiv(wit.x * self.fuzziness, SCALE as int));
        }
        if dir_out.z > 0 {
            Some(ScatterSample {
                dir_out,
                pdf: SCALE,
                is_specular: true,
                weight: specular_weight(self.albedo, dir_out.z),
            })
        } else {
            None
        }
    }

    /// The delta reflectance: the weight on the exact mirror direction,
    /// zero elsewhere.
    pub fn reflectance(&self, dir_in: &Vector3, dir_out: &Vector3) -> (r: Color3)
        requires
            vabs_le(self.albedo, SCALE as int),
            vabs_le(*dir_in, SCALE as int),
        ensures
            r == (if *dir_out == mirror_of(*dir_in) {
                specular_weight_of(self.albedo, dir_out.z as int)
            } else {
                Vector3 { x: 0i64, y: 0i64, z: 0i64 }
            }),
    {
        if dir_out.x == -dir_in.x && dir_out.y == -dir_in.y && dir_out.z == dir_in.z {
            let w = specular_weight(self.albedo, dir_out.z);
            proof {
                assert(*dir_out == mirror_of(*dir_in));
            }
            w
        } else {
            proof {
                assert(*dir_out != mirror_of(*dir_in));
            }
            Vector3 { x: 0, y: 0, z: 0 }
        }
    }

    /// The delta density: one on the exact mirror direction, zero
    /// elsewhere.
    pub fn pdf(&self, dir_in: &Vector3, dir_out: &Vector3) -> (r: i64)
        requires
            vabs_le(*dir_in, SCALE as int),
        ensures
            r == (if *dir_out == mirror_of(*dir_in) { SCALE as int } else { 0 }),
    {
        if dir_out.x == -dir_in.x && dir_out.y == -dir_in.y && dir_out.z == dir_in.z {
            proof {
                assert(*dir_out == mirror_of(*dir_in));
            }
            SCALE
        } else {
            proof {
                assert(*dir_out != mirror_of(*dir_in));
            }
            0
        }
    }
}

/// A vector of length at most one with a random direction: a cube sample
/// scaled down; the zero draw is kept as-is, which only shortens the fuzz
/// perturbation.
fn random_in_sphere(rng: &mut SmallRng) -> (r: Vector3)
    ensures
        vabs_le(r, SCALE as int),
{
    let x = rng_symmetric(rng);
    let y = rng_symmetric(rng);
    let z = rng_symmetric(rng);
    let p = Vector3 { x, y, z };
    if x == 0 && y == 0 && z == 0 {
        return p;
    }
    proof {
        lemma_mul_le(x as int, x as int, SCALE as int, SCALE as int);
        lemma_mul_le(y as int, y as int, SCALE as int, SCALE as int);
        lemma_mul_le(z as int, z as int, SCALE as int, SCALE as int);
        assert(dot2_of(p, p) >= 1) by (nonlinear_arith)
            requires !(p.x == 0 && p.y == 0 && p.z == 0), dot2_of(p, p) == p.x * p.x + p.y * p.y + p.z * p.z,
        ;
    }
    Vector3::unit_vector(p)
}

fn specular_weight(c: Color3, z: i64) -> (r: Color3)
    requires
        vabs_le(c, SCALE as int),
        abs_of(z as int) <= 0x10000000000,
    ensures
        r == specular_weight_of(c, z as int),
{
    if z == 0 {
        Vector3 { x: 0, y: 0, z: 0 }
    } else {
        let az: i64 = if z >= 0 { z } else { -z };
        proof {
            lemma_mul_le(c.x as int, SCALE as int, SCALE as int, SCALE as int);
            lemma_mul_le(c.y as int, SCALE as int, SCALE as int, SCALE as int);
            lemma_mul_le(c.z as int, SCALE as int, SCALE as int, SCALE as int);
        }
        Vector3 {
            x: tdiv128(c.x as i128 * SCALE as i128, az as i128) as i64,
            y: tdiv128(c.y as i128 * SCALE as i128, az as i128) as i64,
            z: tdiv128(c.z as i128 * SCALE as i128, az as i128) as i64,
        }
    }
}

impl Dielectric {
    /// The deterministic kernel of the dielectric: given the uniform draw,
    /// the continuation direction is a function of the arguments — the
    /// mirror on total internal reflection or when Schlick's reflectance
    /// exceeds the draw, Snell's refraction otherwise.
    pub fn refraction_direction(&self, dir_in: &Vector3, facing: Facing, u: i64)
        -> (r: Vector3)
        requires
            4096 <= self.index_of_refraction <= 16 * SCALE,
            vabs_le(*dir_in, SCALE as int),
            0 <= u,
        ensures
            r == dielectric_direction_of(*dir_in, self.index_of_refraction as int, facing, u as int),
            vabs_le(r, 0x10000000000),
    {
        let refraction_ratio: i64 = match facing {
            Facing::Front => tdiv128(
                SCALE as i128 * SCALE as i128, self.index_of_refraction as i128) as i64,
            Facing::Back => self.index_of_refraction,
        };
        proof {
            vstd::arithmetic::div_mod::lemma_div_is_ordered_by_denominator(
                SCALE as int * SCALE as int, 4096, self.index_of_refraction as int);
            assert((0x100000000int) / (0x1000int) == 0x100000int);
            assert(0 <= refraction_ratio as int <= 16 * SCALE as int);
            assert(refraction_ratio as int
                == refraction_ratio_of(self.index_of_refraction as int, facing));
        }
        let cos_theta: i64 = if dir_in.z <= SCALE { dir_in.z } else { SCALE };
        proof {
            lemma_mul_le(cos_theta as int, cos_theta as int, SCALE as int, SCALE as int);
            assert(cos_theta as int * cos_theta as int >= 0) by (nonlinear_arith);
        }
        let sin2: i64 = (SCALE as i128 * SCALE as i128
            - cos_theta as i128 * cos_theta as i128) as i64;
        let su = isqrt128(sin2 as u128);
        proof {
            assert(su <= 0x20000) by (nonlinear_arith)
                requires
                    su as int * su as int <= sin2 as int,
                    sin2 as int <= 2 * (SCALE as int * SCALE as int),
                    su >= 0,
            ;
        }
        let sin_theta = su as i64;
        proof {
            lemma_isqrt_unique(sin2 as int, sin_theta as int);
            lemma_mul_le(refraction_ratio as int, sin_theta as int,
                0x100000000, 0x20000);
        }
        let cannot_refract = refraction_ratio as i128 * sin_theta as i128
            > SCALE as i128 * SCALE as i128;
        proof {
            assert(cannot_refract == dielectric_reflects_of(
                dir_in.z as int, self.index_of_refraction as int, facing));
        }
        let refl = schlick(cos_theta, self.index_of_refraction);
        let uv = Vector3 { x: -dir_in.x, y: -dir_in.y, z: -dir_in.z };
        if cannot_refract || refl > u {
            Vector3 { x: -dir_in.x, y: -dir_in.y, z: dir_in.z }
        } else {
            refract(&uv, refraction_ratio)
        }
    }

    /// Refract by Snell's law, or mirror on total internal reflection or
    /// when the stochastic Schlick test selects reflection; the direction
    /// is the deterministic kernel applied to a fresh uniform draw. The
    /// density is a delta and the weight is white over the outgoing cosine.
    pub fn scatter(&self, dir_in: &Vector3, facing: Facing, rng: &mut SmallRng)
        -> (r: ScatterSample)
        requires
            4096 <= self.index_of_refraction <= 16 * SCALE,
            vabs_le(*dir_in, SCALE as int),
        ensures
            r.is_specular,
            r.pdf == SCALE,
            vabs_le(r.dir_out, 0x10000000000),
            r.weight == specular_weight_of(
                Vector3 { x: SCALE, y: SCALE, z: SCALE }, r.dir_out.z as int),
            exists|u: int| 0 <= u < SCALE
                && r.dir_out == #[trigger] dielectric_direction_of(*dir_in,
                    self.index_of_refraction as int, facing, u),
            dielectric_reflects_of(dir_in.z as int, self.index_of_refraction as int, facing)
                ==> r.dir_out == mirror_of(*dir_in),
            r.dir_out == mirror_of(*dir_in)
                || r.dir_out == refract_of(
                    Vector3 { x: (-dir_in.x) as i64, y: (-dir_in.y) as i64,
                        z: (-dir_in.z) as i64 },
                    refraction_ratio_of(self.index_of_refraction as int, facing)),
    {
        let u = rng_unit(rng);
        let dir_out = self.refraction_direction(dir_in, facing, u);
        proof {
            assert(dir_out == dielectric_direction_of(*dir_in,
                self.index_of_refraction as int, facing, u as int));
        }
        ScatterSample {
            dir_out,
            pdf: SCALE,
            is_specular: true,
            weight: specular_weight(
                Vector3 { x: SCALE, y: SCALE, z: SCALE }, dir_out.z),
        }
    }

    /// Schlick's reflectance for the incidence cosine, exactly as the
    /// sampling test computes it.
    pub fn reflectance(&self, cosine: i64) -> (r: i64)
        requires
            4096 <= self.index_of_refraction <= 16 * SCALE,
            abs_of(cosine as int) <= 2 * SCALE as int,
        ensures
            r == schlick_of(cosine as int, self.index_of_refraction as int),
    {
        schlick(cosine, self.index_of_refraction)
    }
}

fn schlick(cosine: i64, ior: i64) -> (r: i64)
    requires
        1 <= ior <= 16 * SCALE,
        abs_of(cosine as int) <= 2 * SCALE as int,
    ensures
        r == schlick_of(cosine as int, ior as int),
{
    proof {
        lemma_mul_le((SCALE - ior) as int, SCALE as int, 0x100000, SCALE as int);
    }
    let a = tdiv128((SCALE as i128 - ior as i128) * SCALE as i128,
        SCALE as i128 + ior as i128) as i64;
    proof {
        assert(abs_of(a as int) == abs_of((SCALE as int - ior) * SCALE as int)
            / (SCALE as int + ior));
        vstd::arithmetic::div_mod::lemma_div_is_ordered_by_denominator(
            abs_of((SCALE as int - ior) * SCALE as int), SCALE as int, SCALE as int + ior);
        vstd::arithmetic::div_mod::lemma_div_is_ordered(
            abs_of((SCALE as int - ior) * SCALE as int), 0x100000int * 0x10000int, SCALE as int);
        assert((0x100000int * 0x10000int) / 0x10000int == 0x100000int);
        assert(abs_of(a as int) <= 0x100000);
        lemma_mul_le(a as int, a as int, 0x100000, 0x100000);
    }
    let r0 = crate::fixed::div_by_scale(a as i128 * a as i128);
    proof {
        vstd::arithmetic::div_mod::lemma_div_is_ordered(
            abs_of(a as int * a as int), 0x10000000000, SCALE as int);
        assert(0x10000000000int / 0x10000int == 0x1000000int);
        assert(abs_of(r0 as int) <= 0x1000000);
    }
    let t = SCALE - cosine;
    proof {
        lemma_mul_le(t as int, t as int, 0x30000, 0x30000);
    }
    let t2 = crate::fixed::div_by_scale(t as i128 * t as i128);
    proof {
        vstd::arithmetic::div_mod::lemma_div_is_ordered(
            abs_of(t as int * t as int), 0x900000000, SCALE as int);
        assert(0x900000000int / 0x10000int == 0x90000int);
        assert(abs_of(t2 as int) <= 0x90000);
        lemma_mul_le(t2 as int, t2 as int, 0x90000, 0x90000);
    }
    let t4 = crate::fixed::div_by_scale(t2 as i128 * t2 as i128);
    proof {
        vstd::arithmetic::div_mod::lemma_div_is_ordered(
            abs_of(t2 as int * t2 as int), 0x51000000000, SCALE as int);
        assert(0x51000000000int / 0x10000int == 0x5100000int);
        assert(abs_of(t4 as int) <= 0x5100000);
        lemma_mul_le(t4 as int, t as int, 0x5100000, 0x30000);
    }
    let t5 = crate::fixed::div_by_scale(t4 as i128 * t as i128);
    proof {
        vstd::arithmetic::div_mod::lemma_div_is_ordered(
            abs_of(t4 as int * t as int), 0xf3000000000, SCALE as int);
        assert(0xf3000000000int / 0x10000int == 0xf300000int);
        assert(abs_of(t5 as int) <= 0xf300000);
        lemma_mul_le((SCALE - r0) as int, t5 as int, 0x1010000, 0xf300000);
    }
    r0 + crate::fixed::div_by_scale((SCALE as i128 - r0 as i128) * t5 as i128)
}

/// Snell's law on the continuation direction, mirroring `refract_of`
/// exactly.
fn refract(uv: &Vector3, ratio: i64) -> (r: Vector3)
    requires
        vabs_le(*uv, SCALE as int),
        0 <= ratio <= 16 * SCALE,
    ensures
        r == refract_of(*uv, ratio as int),
        vabs_le(r, 0x10000000000),
{
    let cos: i64 = if -uv.z <= SCALE { -uv.z } else { SCALE };
    proof {
        lemma_mul_le(ratio as int, uv.x as int, 0x100000, SCALE as int);
        lemma_mul_le(ratio as int, uv.y as int, 0x100000, SCALE as int);
        lemma_mul_le(ratio as int, (uv.z + cos) as int, 0x100000, 2 * SCALE as int);
    }
    let px = tdiv128(ratio as i128 * uv.x as i128, SCALE as i128) as i64;
    let py = tdiv128(ratio as i128 * uv.y as i128, SCALE as i128) as i64;
    let pz = tdiv128(ratio as i128 * (uv.z as i128 + cos as i128), SCALE as i128) as i64;
    proof {
        assert(abs_of(px as int) <= 0x1000000000);
        assert(abs_of(py as int) <= 0x1000000000);
        assert(abs_of(pz as int) <= 0x1000000000);
        lemma_mul_le(px as int, px as int, 0x1000000000, 0x1000000000);
        lemma_mul_le(py as int, py as int, 0x1000000000, 0x1000000000);
        lemma_mul_le(pz as int, pz as int, 0x1000000000, 0x1000000000);
        assert(px as int * px as int >= 0) by (nonlinear_arith);
        assert(py as int * py as int >= 0) by (nonlinear_arith);
        assert(pz as int * pz as int >= 0) by (nonlinear_arith);
    }
    let m2 = px as i128 * px as i128 + py as i128 * py as i128 + pz as i128 * pz as i128;
    let va = SCALE as i128 * SCALE as i128 - m2;
    let vabs: i128 = if va >= 0 { va } else { -va };
    let plu = isqrt128(vabs as u128);
    proof {
        assert(plu <= 0x8000000000) by (nonlinear_arith)
            requires
                plu as int * plu as int <= vabs as int,
                vabs as int <= 0x4000000000000000000,
                plu >= 0,
        ;
    }
    let pl = plu as i64;
    proof {
        lemma_isqrt_unique(vabs as int, pl as int);
    }
    Vector3 { x: px, y: py, z: pz - pl }
}

impl Material {
    /// Sample a continuation direction for the incoming local direction.
    /// Only a fuzzed metal can absorb the path.
    pub fn scatter(&self, dir_in: &Vector3, facing: Facing, rng: &mut SmallRng)
        -> (r: Option<ScatterSample>)
        requires
            material_fits(*self),
            vabs_le(*dir_in, SCALE as int),
        ensures
            match *self {
                Material::Diffuse(d) => r is Some && (r matches Some(s) ==> {
                    &&& !s.is_specular
                    &&& s.pdf == cosine_pdf_of(s.dir_out.z as int)
                    &&& s.weight == diffuse_reflectance_of(d.albedo)
                    &&& s.dir_out.z >= 0
                    &&& vabs_le(s.dir_out, SCALE as int)
                    &&& SCALE as int * SCALE as int - 2 * SCALE as int
                        <= dot2_of(s.dir_out, s.dir_out) <= SCALE as int * SCALE as int
                }),
                Material::Metal(mt) => match r {
                    Some(s) => {
                        &&& s.is_specular
                        &&& s.pdf == SCALE
                        &&& s.dir_out.z > 0
                        &&& vabs_le(s.dir_out, 2 * SCALE as int)
                        &&& s.weight == specular_weight_of(mt.albedo, s.dir_out.z as int)
                        &&& mt.fuzziness == 0 ==> s.dir_out == mirror_of(*dir_in)
                        &&& exists|f: Vector3|
                            #[trigger] vabs_le(f, SCALE as int)
                            && s.dir_out.x == mirror_of(*dir_in).x
                                + tdiv(f.x * mt.fuzziness, SCALE as int)
                            && s.dir_out.y == mirror_of(*dir_in).y
                                + tdiv(f.y * mt.fuzziness, SCALE as int)
                            && s.dir_out.z == mirror_of(*dir_in).z
                                + tdiv(f.z * mt.fuzziness, SCALE as int)
                    },
                    None => mt.fuzziness > 0 || mirror_of(*dir_in).z <= 0,
                },
                Material::Dielectric(di) => r is Some && (r matches Some(s) ==> {
                    &&& s.is_specular
                    &&& s.pdf == SCALE
                    &&& vabs_le(s.dir_out, 0x10000000000)
                    &&& s.weight == specular_weight_of(
                        Vector3 { x: SCALE, y: SCALE, z: SCALE }, s.dir_out.z as int)
                    &&& exists|u: int| 0 <= u < SCALE
                        && s.dir_out == #[trigger] dielectric_direction_of(*dir_in,
                            di.index_of_refraction as int, facing, u)
                    &&& (dielectric_reflects_of(dir_in.z as int,
                            di.index_of_refraction as int, facing)
                        ==> s.dir_out == mirror_of(*dir_in))
                    &&& (s.dir_out == mirror_of(*dir_in)
                        || s.dir_out == refract_of(
                            Vector3 { x: (-dir_in.x) as i64, y: (-dir_in.y) as i64,
                                z: (-dir_in.z) as i64 },
                            refraction_ratio_of(di.index_of_refraction as int, facing)))
                }),
            },
    {
        match self {
            Material::Diffuse(material) => Some(material.scatter(rng)),
            Material::Metal(material) => material.scatter(dir_in, rng),
            Material::Dielectric(material) => Some(material.scatter(dir_in, facing, rng)),
        }
    }
}

/// The law behind the diffuse estimator: in exact rational arithmetic the
/// single-sample quantity `reflectance * cosine / pdf` is the albedo
/// itself, because `(albedo/pi) * cos / (cos/pi)` cancels, so averaging
/// samples converges to the albedo. Rationals are carried as numerator and
/// denominator pairs; equality of `a/b` and `c/d` is `a*d == c*b`.
pub proof fn lemma_diffuse_estimator(albedo: int, cos_theta: int, pi_num: int, pi_den: int)
    requires
        cos_theta > 0,
        pi_num > 0,
        pi_den > 0,
    ensures
        ((albedo * pi_den) * cos_theta) * pi_num == albedo * (pi_num * (cos_theta * pi_den)),
{
    assert(((albedo * pi_den) * cos_theta) * pi_num
        == albedo * (pi_num * (cos_theta * pi_den))) by (nonlinear_arith);
}

/// For a unit index of refraction the refracted continuation direction is
/// the incoming direction itself: no bending. Holds of every exactly-unit
/// incoming direction headed into the surface; a direction whose squared
/// length misses one by rounding can bend by an ulp.
pub proof fn lemma_dielectric_identity(uv: Vector3)
    requires
        dot2_of(uv, uv) == SCALE as int * SCALE as int,
        uv.z < 0,
        vabs_le(uv, SCALE as int),
    ensures
        refract_of(uv, SCALE as int) == uv,
{
    let cos = -uv.z as int;
    assert(cos <= SCALE);
    lemma_tdiv_scale_id(uv.x as int);
    lemma_tdiv_scale_id(uv.y as int);
    lemma_tdiv_scale_id(uv.z as int + cos);
    assert(tdiv(SCALE as int * uv.x, SCALE as int) == uv.x) by {
        assert(SCALE as int * uv.x == uv.x * SCALE as int) by (nonlinear_arith);
    }
    assert(tdiv(SCALE as int * uv.y, SCALE as int) == uv.y) by {
        assert(SCALE as int * uv.y == uv.y * SCALE as int) by (nonlinear_arith);
    }
    assert(tdiv(SCALE as int * (uv.z + cos), SCALE as int) == uv.z + cos) by {
        assert(SCALE as int * (uv.z + cos) == (uv.z + cos) * SCALE as int) by (nonlinear_arith);
    }
    let px = uv.x as int;
    let py = uv.y as int;
    let m2 = px * px + py * py + 0 * 0;
    assert(m2 == dot2_of(uv, uv) - uv.z * uv.z);
    let va = SCALE as int * SCALE as int - m2;
    assert(va == uv.z * uv.z);
    assert(va >= 0) by (nonlinear_arith)
        requires va == uv.z * uv.z,
    ;
    assert(abs_of(va) == va);
    assert(cos * cos == va) by (nonlinear_arith)
        requires cos == -uv.z as int, va == uv.z * uv.z,
    ;
    assert((cos + 1) * (cos + 1) > va) by (nonlinear_arith)
        requires cos >= 0, cos * cos == va,
    ;
    lemma_isqrt_unique(va, cos);
    assert(refract_of(uv, SCALE as int).z == 0 - cos);
}

} // verus!
