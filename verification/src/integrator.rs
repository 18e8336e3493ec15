//! The recursive light-transport estimator, run iteratively: cast, hit,
//! scatter, accumulate throughput, and stop on the environment, on the
//! bounce limit, or by Russian roulette. A sample whose arithmetic
//! degenerates (a zero direction or normal, a zero density, a throughput
//! outside the carried range) is discarded as a whole by returning no
//! color, and the caller averages only the samples that survive.

use vstd::prelude::*;
use rand::rngs::SmallRng;
use crate::fixed::{SCALE, COORD_MAX, abs_of, tdiv, lemma_mul_le, tdiv128, lemma_tdiv_scale_id};
use crate::vector::{Vector3, Color3, vabs_le, dot2_of, unit_of, lemma_unit_dot2};
use crate::ray::Ray;
use crate::hittable::{Hittable, Interaction, T_LIMIT};
use crate::bvh::{HittableList, wf_list, some_hit};
use crate::material::{Material, material_fits};
use crate::rng::rng_unit;

verus! {

/// The self-intersection guard: just above one thousandth.
pub const T_EPS: i64 = 66;

/// Cap on any throughput or radiance component; a sample that would pass
/// it is treated as a numerical anomaly and discarded.
pub const BETA_CAP: i64 = 0x4000000000;

/// Bounces after which Russian roulette may terminate a path.
pub const RR_START: usize = 3;

/// The survival floor: five hundredths.
pub const RR_FLOOR: i64 = 3277;

/// Black: the radiance of an exhausted or absorbed path.
pub open spec fn black_of() -> Color3 {
    Vector3 { x: 0i64, y: 0i64, z: 0i64 }
}

/// The environment: a vertical gradient from white at the horizon's
/// underside to a pale blue overhead, keyed by the unit direction's
/// vertical component.
pub open spec fn environment_of(dir: Vector3) -> Color3 {
    let t = tdiv(dir.y + SCALE as int, 2);
    Vector3 {
        x: tdiv((SCALE - t) * SCALE as int + t * 32768, SCALE as int) as i64,
        y: tdiv((SCALE - t) * SCALE as int + t * 45875, SCALE as int) as i64,
        z: tdiv((SCALE - t) * SCALE as int + t * 65536, SCALE as int) as i64,
    }
}

/// All components lie in `[0, cap]`.
pub open spec fn color_in_range(c: Color3, cap: int) -> bool {
    &&& 0 <= c.x <= cap
    &&& 0 <= c.y <= cap
    &&& 0 <= c.z <= cap
}

/// Scene-wide side conditions the integrator needs: every primitive's
/// material index resolves, and every material is in range.
pub open spec fn scene_ok(world: HittableList, materials: Seq<Material>) -> bool {
    &&& forall|j: int| 0 <= j < world.objects@.len()
        ==> ((#[trigger] world.objects@[j]) matches Hittable::Sphere(s)
            && (s.material as int) < materials.len())
    &&& forall|m: int| 0 <= m < materials.len() ==> material_fits(#[trigger] materials[m])
}

/// The environment gradient at a unit direction.
pub fn environment(dir: &Vector3) -> (r: Color3)
    requires
        vabs_le(*dir, SCALE as int),
    ensures
        r == environment_of(*dir),
        color_in_range(r, SCALE as int),
{
    let t = tdiv128(dir.y as i128 + SCALE as i128, 2) as i64;
    proof {
        vstd::arithmetic::div_mod::lemma_div_pos_is_pos(dir.y as int + SCALE as int, 2);
        vstd::arithmetic::div_mod::lemma_div_is_ordered(dir.y as int + SCALE as int,
            2 * SCALE as int, 2);
        assert((2 * SCALE as int) / 2int == SCALE as int);
        assert(0 <= t <= SCALE);
    }
    let r = Vector3 {
        x: tdiv128(((SCALE - t) as i128 * SCALE as i128 + t as i128 * 32768), SCALE as i128)
            as i64,
        y: tdiv128(((SCALE - t) as i128 * SCALE as i128 + t as i128 * 45875), SCALE as i128)
            as i64,
        z: tdiv128(((SCALE - t) as i128 * SCALE as i128 + t as i128 * 65536), SCALE as i128)
            as i64,
    };
    proof {
        lemma_env_range(t as int, 32768);
        lemma_env_range(t as int, 45875);
        lemma_env_range(t as int, 65536);
    }
    r
}

/// The blended gradient channel stays within one.
proof fn lemma_env_range(t: int, c: int)
    requires
        0 <= t <= SCALE,
        0 <= c <= SCALE,
    ensures
        0 <= tdiv((SCALE - t) * SCALE as int + t * c, SCALE as int) <= SCALE,
{
    let num = (SCALE - t) * SCALE as int + t * c;
    assert(0 <= num <= SCALE as int * SCALE as int) by (nonlinear_arith)
        requires
            num == (SCALE - t) * SCALE as int + t * c,
            0 <= t <= SCALE,
            0 <= c <= SCALE,
    ;
    assert(tdiv(num, SCALE as int) == num / SCALE as int);
    vstd::arithmetic::div_mod::lemma_div_is_ordered(num, SCALE as int * SCALE as int,
        SCALE as int);
    assert((SCALE as int * SCALE as int) / SCALE as int == SCALE as int) by {
        vstd::arithmetic::div_mod::lemma_div_multiples_vanish(SCALE as int, SCALE as int);
    }
    vstd::arithmetic::div_mod::lemma_div_pos_is_pos(num, SCALE as int);
}

/// An orthonormal-to-rounding shading frame from a nonzero normal: the
/// normalized normal as +Z, a first tangent from the cross with the
/// coordinate axis least parallel to it, and the second tangent closing
/// the frame. Each vector's components stay within twice the scale.
fn build_onb(n: &Vector3) -> (r: (Vector3, Vector3, Vector3))
    requires
        vabs_le(*n, 0x400000000000),
        dot2_of(*n, *n) >= 1,
    ensures
        vabs_le(r.0, 2 * SCALE as int),
        vabs_le(r.1, 2 * SCALE as int),
        vabs_le(r.2, SCALE as int),
        r.2 == unit_of(*n),
{
    let w = Vector3::unit_vector(*n);
    let ax = if w.x >= 0 { w.x } else { -w.x };
    let ay = if w.y >= 0 { w.y } else { -w.y };
    let az = if w.z >= 0 { w.z } else { -w.z };
    let seed: Vector3 = if ax <= ay && ax <= az {
        Vector3 { x: SCALE, y: 0, z: 0 }
    } else if ay <= az {
        Vector3 { x: 0, y: SCALE, z: 0 }
    } else {
        Vector3 { x: 0, y: 0, z: SCALE }
    };
    let c = Vector3::cross(&w, &seed);
    proof {
        lemma_cross_small(w, seed);
    }
    let v = if c.x == 0 && c.y == 0 && c.z == 0 {
        // Degenerate only when the normal is parallel to its least
        // component's axis, which a rounded normal can reach; any
        // perpendicular axis closes the frame then.
        if ax <= ay && ax <= az {
            Vector3 { x: 0, y: SCALE, z: 0 }
        } else if ay <= az {
            Vector3 { x: 0, y: 0, z: SCALE }
        } else {
            Vector3 { x: SCALE, y: 0, z: 0 }
        }
    } else {
        proof {
            assert(dot2_of(c, c) >= 1) by (nonlinear_arith)
                requires
                    dot2_of(c, c) == c.x * c.x + c.y * c.y + c.z * c.z,
                    !(c.x == 0 && c.y == 0 && c.z == 0),
            ;
        }
        Vector3::unit_vector(c)
    };
    let u = Vector3::cross(&w, &v);
    proof {
        lemma_cross_small(w, v);
    }
    (u, v, w)
}

/// A cross product of unit-bounded vectors stays within twice the scale.
proof fn lemma_cross_small(a: Vector3, b: Vector3)
    requires
        vabs_le(a, SCALE as int),
        vabs_le(b, SCALE as int),
    ensures
        vabs_le(crate::vector::cross_of(a, b), 2 * SCALE as int),
{
    lemma_mul_le(a.y as int, b.z as int, 65536, 65536);
    lemma_mul_le(a.z as int, b.y as int, 65536, 65536);
    lemma_mul_le(a.z as int, b.x as int, 65536, 65536);
    lemma_mul_le(a.x as int, b.z as int, 65536, 65536);
    lemma_mul_le(a.x as int, b.y as int, 65536, 65536);
    lemma_mul_le(a.y as int, b.x as int, 65536, 65536);
    lemma_div_abs_le(a.y * b.z - a.z * b.y, 0x200000000);
    lemma_div_abs_le(a.z * b.x - a.x * b.z, 0x200000000);
    lemma_div_abs_le(a.x * b.y - a.y * b.x, 0x200000000);
    assert(0x200000000int / 65536int == 131072int);
}

/// A truncated quotient of a bounded dividend by the scale is bounded by
/// the dividend bound over the scale.
proof fn lemma_div_abs_le(a: int, cap: int)
    requires
        abs_of(a) <= cap,
        0 <= cap,
    ensures
        abs_of(tdiv(a, SCALE as int)) <= cap / SCALE as int,
{
    assert(abs_of(tdiv(a, SCALE as int)) == abs_of(a) / SCALE as int);
    vstd::arithmetic::div_mod::lemma_div_is_ordered(abs_of(a), cap, SCALE as int);
}

/// A direction expressed in the frame.
fn to_local(d: &Vector3, u: &Vector3, v: &Vector3, w: &Vector3) -> (r: Vector3)
    requires
        vabs_le(*d, 2 * SCALE as int),
        vabs_le(*u, 2 * SCALE as int),
        vabs_le(*v, 2 * SCALE as int),
        vabs_le(*w, 2 * SCALE as int),
    ensures
        vabs_le(r, 12 * SCALE as int),
{
    proof {
        lemma_dot_small(*d, *u);
        lemma_dot_small(*d, *v);
        lemma_dot_small(*d, *w);
    }
    Vector3 {
        x: Vector3::dot(d, u),
        y: Vector3::dot(d, v),
        z: Vector3::dot(d, w),
    }
}

proof fn lemma_dot_small(a: Vector3, b: Vector3)
    requires
        vabs_le(a, 131072),
        vabs_le(b, 131072),
    ensures
        abs_of(a.x * b.x) <= 0x400000000,
        abs_of(a.y * b.y) <= 0x400000000,
        abs_of(a.z * b.z) <= 0x400000000,
        abs_of(tdiv(dot2_of(a, b), SCALE as int)) <= 12 * SCALE as int,
{
    lemma_mul_le(a.x as int, b.x as int, 131072, 131072);
    lemma_mul_le(a.y as int, b.y as int, 131072, 131072);
    lemma_mul_le(a.z as int, b.z as int, 131072, 131072);
    assert(abs_of(tdiv(dot2_of(a, b), SCALE as int))
        == abs_of(dot2_of(a, b)) / SCALE as int);
    vstd::arithmetic::div_mod::lemma_div_is_ordered(abs_of(dot2_of(a, b)),
        0xc00000000, SCALE as int);
    assert(0xc00000000int / 65536int == 786432int);
    assert(12 * SCALE as int == 786432int);
}

/// A local direction carried back to world space.
fn to_world(l: &Vector3, u: &Vector3, v: &Vector3, w: &Vector3) -> (r: Vector3)
    requires
        vabs_le(*l, 0x40000000000),
        vabs_le(*u, 2 * SCALE as int),
        vabs_le(*v, 2 * SCALE as int),
        vabs_le(*w, 2 * SCALE as int),
    ensures
        vabs_le(r, 0x200000000000),
{
    proof {
        lemma_world_terms(*l, *u, *v, *w);
    }
    let x = tdiv128(
        l.x as i128 * u.x as i128 + l.y as i128 * v.x as i128 + l.z as i128 * w.x as i128,
        SCALE as i128) as i64;
    let y = tdiv128(
        l.x as i128 * u.y as i128 + l.y as i128 * v.y as i128 + l.z as i128 * w.y as i128,
        SCALE as i128) as i64;
    let z = tdiv128(
        l.x as i128 * u.z as i128 + l.y as i128 * v.z as i128 + l.z as i128 * w.z as i128,
        SCALE as i128) as i64;
    Vector3 { x, y, z }
}

proof fn lemma_world_terms(l: Vector3, u: Vector3, v: Vector3, w: Vector3)
    requires
        vabs_le(l, 0x40000000000),
        vabs_le(u, 131072),
        vabs_le(v, 131072),
        vabs_le(w, 131072),
    ensures
        abs_of(l.x * u.x) <= 0x800000000000000,
        abs_of(l.y * v.x) <= 0x800000000000000,
        abs_of(l.z * w.x) <= 0x800000000000000,
        abs_of(l.x * u.y) <= 0x800000000000000,
        abs_of(l.y * v.y) <= 0x800000000000000,
        abs_of(l.z * w.y) <= 0x800000000000000,
        abs_of(l.x * u.z) <= 0x800000000000000,
        abs_of(l.y * v.z) <= 0x800000000000000,
        abs_of(l.z * w.z) <= 0x800000000000000,
        abs_of(l.x * u.x + l.y * v.x + l.z * w.x) <= 0x1800000000000000,
        abs_of(l.x * u.y + l.y * v.y + l.z * w.y) <= 0x1800000000000000,
        abs_of(l.x * u.z + l.y * v.z + l.z * w.z) <= 0x1800000000000000,
        abs_of(tdiv(l.x * u.x + l.y * v.x + l.z * w.x, SCALE as int)) <= 0x200000000000,
        abs_of(tdiv(l.x * u.y + l.y * v.y + l.z * w.y, SCALE as int)) <= 0x200000000000,
        abs_of(tdiv(l.x * u.z + l.y * v.z + l.z * w.z, SCALE as int)) <= 0x200000000000,
{
    lemma_mul_le(l.x as int, u.x as int, 0x40000000000, 131072);
    lemma_mul_le(l.y as int, v.x as int, 0x40000000000, 131072);
    lemma_mul_le(l.z as int, w.x as int, 0x40000000000, 131072);
    lemma_mul_le(l.x as int, u.y as int, 0x40000000000, 131072);
    lemma_mul_le(l.y as int, v.y as int, 0x40000000000, 131072);
    lemma_mul_le(l.z as int, w.y as int, 0x40000000000, 131072);
    lemma_mul_le(l.x as int, u.z as int, 0x40000000000, 131072);
    lemma_mul_le(l.y as int, v.z as int, 0x40000000000, 131072);
    lemma_mul_le(l.z as int, w.z as int, 0x40000000000, 131072);
    lemma_div_abs_le(l.x * u.x + l.y * v.x + l.z * w.x, 0x1800000000000000);
    lemma_div_abs_le(l.x * u.y + l.y * v.y + l.z * w.y, 0x1800000000000000);
    lemma_div_abs_le(l.x * u.z + l.y * v.z + l.z * w.z, 0x1800000000000000);
    assert(0x1800000000000000int / 65536int == 0x180000000000int);
}

/// One component of the throughput update `beta * weight * |cos| / pdf`,
/// or nothing when it overflows the carried range.
fn beta_step(b: i64, wc: i64, acos: i64, pdf: i64) -> (r: Option<i64>)
    requires
        0 <= b <= BETA_CAP,
        0 <= wc,
        0 <= acos <= 12 * SCALE as int,
        1 <= pdf,
    ensures
        match r {
            Some(nb) => 0 <= nb <= BETA_CAP,
            None => true,
        },
{
    if wc > BETA_CAP {
        return None;
    }
    proof {
        lemma_mul_le(b as int, wc as int, BETA_CAP as int, BETA_CAP as int);
    }
    let s1 = tdiv128(b as i128 * wc as i128, SCALE as i128);
    if s1 > BETA_CAP as i128 {
        return None;
    }
    proof {
        vstd::arithmetic::div_mod::lemma_div_pos_is_pos(b as int * wc as int, SCALE as int);
        assert(b as int * wc as int >= 0) by (nonlinear_arith)
            requires b >= 0, wc >= 0,
        ;
        lemma_mul_le(s1 as int, acos as int, BETA_CAP as int, 12 * SCALE as int);
    }
    let s2 = tdiv128(s1 * acos as i128, pdf as i128);
    if s2 > BETA_CAP as i128 {
        return None;
    }
    proof {
        assert(s1 as int * acos as int >= 0) by (nonlinear_arith)
            requires s1 >= 0, acos >= 0,
        ;
        vstd::arithmetic::div_mod::lemma_div_pos_is_pos(s1 as int * acos as int, pdf as int);
    }
    Some(s2 as i64)
}

/// One Monte Carlo radiance sample for a camera ray: walk the scene up to
/// `depth` bounces, scattering at each hit and accumulating throughput,
/// and pay out the environment when the path escapes. A path that
/// exhausts the bounce limit contributes black; a degenerate sample
/// contributes nothing at all.
#[verifier::rlimit(100)]
pub fn ray_color(ray: &Ray, world: &HittableList, materials: &Vec<Material>,
    rng: &mut SmallRng, depth: usize) -> (r: Option<Color3>)
    requires
        wf_list(*world),
        scene_ok(*world, materials@),
        vabs_le(ray.origin, COORD_MAX as int + 1),
        vabs_le(ray.direction, 0x200000000000),
    ensures
        match r {
            Some(c) => color_in_range(c, BETA_CAP as int),
            None => true,
        },
        depth == 0 ==> r == Some(black_of()),
        dot2_of(ray.direction, ray.direction) < 1 && depth >= 1 ==> r is None,
        (depth >= 1 && dot2_of(ray.direction, ray.direction) >= 1
            && !some_hit(world.objects@,
                Ray { origin: ray.origin, direction: unit_of(ray.direction) },
                T_EPS as int, T_LIMIT as int))
            ==> r == Some(environment_of(unit_of(ray.direction))),
        (depth == 1 && dot2_of(ray.direction, ray.direction) >= 1
            && some_hit(world.objects@,
                Ray { origin: ray.origin, direction: unit_of(ray.direction) },
                T_EPS as int, T_LIMIT as int))
            ==> (r == Some(black_of()) || r is None),
{
    let mut beta = Vector3 { x: SCALE, y: SCALE, z: SCALE };
    let mut current = Ray { origin: ray.origin, direction: ray.direction };
    let mut bounces: usize = 0;
    let ghost first_ray = *ray;

    while bounces < depth
        invariant
            wf_list(*world),
            scene_ok(*world, materials@),
            bounces <= depth,
            color_in_range(beta, BETA_CAP as int),
            vabs_le(current.origin, COORD_MAX as int + 1),
            vabs_le(current.direction, 0x200000000000),
            first_ray == *ray,
            bounces == 0 ==> current == first_ray
                && beta == (Vector3 { x: SCALE, y: SCALE, z: SCALE }),
            bounces >= 1 ==> dot2_of(first_ray.direction, first_ray.direction) >= 1,
            bounces >= 1 ==> some_hit(world.objects@,
                Ray { origin: first_ray.origin, direction: unit_of(first_ray.direction) },
                T_EPS as int, T_LIMIT as int),
        decreases depth - bounces,
    {
        let ghost entry_ray = current;
        proof {
            lemma_mul_le(current.direction.x as int, current.direction.x as int,
                0x200000000000, 0x200000000000);
            lemma_mul_le(current.direction.y as int, current.direction.y as int,
                0x200000000000, 0x200000000000);
            lemma_mul_le(current.direction.z as int, current.direction.z as int,
                0x200000000000, 0x200000000000);
        }
        let d2 = Vector3::dot2(&current.direction, &current.direction);
        if d2 < 1 {
            return None;
        }
        let ud = Vector3::unit_vector(current.direction);
        proof {
            lemma_unit_dot2(current.direction);
        }
        current = Ray { origin: current.origin, direction: ud };

        let mut interaction = Interaction::default();
        if world.hit(&current, T_EPS, T_LIMIT, &mut interaction) {
            let mat_index = match interaction.material {
                Some(m) => m,
                None => {
                    return None;
                },
            };
            if mat_index >= materials.len() {
                return None;
            }
            let material = materials[mat_index];
            let normal = interaction.normal;
            if normal.x == 0 && normal.y == 0 && normal.z == 0 {
                return None;
            }
            proof {
                assert(dot2_of(normal, normal) >= 1) by (nonlinear_arith)
                    requires
                        dot2_of(normal, normal)
                            == normal.x * normal.x + normal.y * normal.y
                                + normal.z * normal.z,
                        !(normal.x == 0 && normal.y == 0 && normal.z == 0),
                ;
            }
            let (fu, fv, fw) = build_onb(&normal);
            let neg_dir = current.direction.negated();
            let wl = to_local(&neg_dir, &fu, &fv, &fw);
            if wl.x == 0 && wl.y == 0 && wl.z == 0 {
                return None;
            }
            proof {
                assert(dot2_of(wl, wl) >= 1) by (nonlinear_arith)
                    requires
                        dot2_of(wl, wl) == wl.x * wl.x + wl.y * wl.y + wl.z * wl.z,
                        !(wl.x == 0 && wl.y == 0 && wl.z == 0),
                ;
            }
            let wi = Vector3::unit_vector(wl);
            let sample = match material.scatter(&wi, interaction.facing, rng) {
                Some(s) => s,
                None => {
                    // The path is absorbed; it carries no radiance.
                    return Some(Vector3 { x: 0, y: 0, z: 0 });
                },
            };
            if sample.pdf < 1 {
                return None;
            }
            let world_out = to_world(&sample.dir_out, &fu, &fv, &fw);
            let acos_raw = cos_between(&normal, &world_out);
            let acos = if acos_raw > 12 * SCALE { 12 * SCALE } else { acos_raw };
            if sample.weight.x < 0 || sample.weight.y < 0 || sample.weight.z < 0 {
                return None;
            }
            let bx = beta_step(beta.x, sample.weight.x, acos, sample.pdf);
            let by = beta_step(beta.y, sample.weight.y, acos, sample.pdf);
            let bz = beta_step(beta.z, sample.weight.z, acos, sample.pdf);
            match (bx, by, bz) {
                (Some(nx), Some(ny), Some(nz)) => {
                    beta = Vector3 { x: nx, y: ny, z: nz };
                },
                _ => {
                    return None;
                },
            }
            current = Ray { origin: interaction.p, direction: world_out };

            if bounces > RR_START {
                let lum = beta.luminance();
                let mut p_survive = SCALE - lum;
                if p_survive < RR_FLOOR {
                    p_survive = RR_FLOOR;
                }
                let u = rng_unit(rng);
                if u >= p_survive {
                    return Some(Vector3 { x: 0, y: 0, z: 0 });
                }
                proof {
                    lemma_mul_le(beta.x as int, SCALE as int, BETA_CAP as int, SCALE as int);
                    lemma_mul_le(beta.y as int, SCALE as int, BETA_CAP as int, SCALE as int);
                    lemma_mul_le(beta.z as int, SCALE as int, BETA_CAP as int, SCALE as int);
                }
                let cx = tdiv128(beta.x as i128 * SCALE as i128, p_survive as i128);
                let cy = tdiv128(beta.y as i128 * SCALE as i128, p_survive as i128);
                let cz = tdiv128(beta.z as i128 * SCALE as i128, p_survive as i128);
                if cx > BETA_CAP as i128 || cy > BETA_CAP as i128 || cz > BETA_CAP as i128 {
                    return None;
                }
                proof {
                    lemma_rr_nonneg(beta.x as int, p_survive as int);
                    lemma_rr_nonneg(beta.y as int, p_survive as int);
                    lemma_rr_nonneg(beta.z as int, p_survive as int);
                }
                beta = Vector3 { x: cx as i64, y: cy as i64, z: cz as i64 };
            }
        } else {
            let env = environment(&current.direction);
            proof {
                if bounces == 0 {
                    lemma_tdiv_scale_id(env.x as int);
                    lemma_tdiv_scale_id(env.y as int);
                    lemma_tdiv_scale_id(env.z as int);
                    assert(env.x as int * SCALE as int == SCALE as int * env.x as int)
                        by (nonlinear_arith);
                    assert(env.y as int * SCALE as int == SCALE as int * env.y as int)
                        by (nonlinear_arith);
                    assert(env.z as int * SCALE as int == SCALE as int * env.z as int)
                        by (nonlinear_arith);
                }
                lemma_mul_le(env.x as int, beta.x as int, SCALE as int, BETA_CAP as int);
                lemma_mul_le(env.y as int, beta.y as int, SCALE as int, BETA_CAP as int);
                lemma_mul_le(env.z as int, beta.z as int, SCALE as int, BETA_CAP as int);
            }
            let rx = tdiv128(env.x as i128 * beta.x as i128, SCALE as i128);
            let ry = tdiv128(env.y as i128 * beta.y as i128, SCALE as i128);
            let rz = tdiv128(env.z as i128 * beta.z as i128, SCALE as i128);
            proof {
                lemma_env_beta(env.x as int, beta.x as int);
                lemma_env_beta(env.y as int, beta.y as int);
                lemma_env_beta(env.z as int, beta.z as int);
            }
            return Some(Vector3 { x: rx as i64, y: ry as i64, z: rz as i64 });
        }
        bounces += 1;
    }

    Some(Vector3 { x: 0, y: 0, z: 0 })
}

/// The product of an environment channel and a throughput channel, scaled
/// down, stays in the carried range.
proof fn lemma_env_beta(e: int, b: int)
    requires
        0 <= e <= SCALE,
        0 <= b <= BETA_CAP,
    ensures
        0 <= tdiv(e * b, SCALE as int) <= BETA_CAP,
{
    assert(0 <= e * b <= SCALE as int * BETA_CAP as int) by (nonlinear_arith)
        requires 0 <= e <= SCALE, 0 <= b <= BETA_CAP,
    ;
    assert(abs_of(tdiv(e * b, SCALE as int)) == abs_of(e * b) / SCALE as int);
    vstd::arithmetic::div_mod::lemma_div_is_ordered(e * b,
        SCALE as int * BETA_CAP as int, SCALE as int);
    assert((SCALE as int * BETA_CAP as int) / SCALE as int == BETA_CAP as int) by {
        vstd::arithmetic::div_mod::lemma_div_multiples_vanish(BETA_CAP as int, SCALE as int);
    }
    vstd::arithmetic::div_mod::lemma_div_pos_is_pos(e * b, SCALE as int);
}

/// Roulette compensation keeps the throughput nonnegative.
proof fn lemma_rr_nonneg(b: int, p: int)
    requires
        0 <= b,
        1 <= p,
    ensures
        0 <= tdiv(b * SCALE as int, p),
{
    assert(b * SCALE as int >= 0) by (nonlinear_arith)
        requires b >= 0,
    ;
    vstd::arithmetic::div_mod::lemma_div_pos_is_pos(b * SCALE as int, p);
}

/// The magnitude of the cosine between the normal and the outgoing world
/// direction, clamped into the dot's own range.
fn cos_between(n: &Vector3, d: &Vector3) -> (r: i64)
    requires
        vabs_le(*n, 131072),
        vabs_le(*d, 0x200000000000),
    ensures
        0 <= r <= 0x1000000000000,
{
    proof {
        lemma_mul_le(n.x as int, d.x as int, 131072, 0x200000000000);
        lemma_mul_le(n.y as int, d.y as int, 131072, 0x200000000000);
        lemma_mul_le(n.z as int, d.z as int, 131072, 0x200000000000);
        lemma_div_abs_le(dot2_of(*n, *d), 0xc000000000000000);
        assert(0xc000000000000000int / 65536int == 0xc00000000000int);
    }
    let c = Vector3::dot(n, d);
    if c >= 0 {
        c
    } else {
        -c
    }
}


/// The law behind Russian roulette: over the uniform draw the expected
/// throughput is unchanged. A path survives with probability `p / 1`
/// (both carried at the fixed scale) and is then divided by that same
/// probability, so in exact rational arithmetic the expectation
/// `(p/S) * (beta*S/p) + ((S-p)/S) * 0` is the throughput itself;
/// cross-multiplied, the surviving branch's numerator carries exactly the
/// denominator the probability contributes.
pub proof fn lemma_roulette_unbiased(beta: int, p: int)
    requires
        1 <= p <= SCALE,
    ensures
        p * (beta * SCALE as int) == beta * (SCALE as int * p),
{
    assert(p * (beta * SCALE as int) == beta * (SCALE as int * p)) by (nonlinear_arith);
}

} // verus!
