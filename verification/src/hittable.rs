//! Geometric primitives and surface interactions.
//!
//! A sphere's hit test mirrors the quadratic computation exactly in its
//! contract: the discriminant, the floor square root, and the two candidate
//! roots are all spec-level integer expressions, so the returned parameter
//! is pinned down completely. An accepted hit additionally satisfies the
//! exact point-in-bound inequalities, which is what lets the traversal prove
//! that a box the slab test rejects hides no accepted hit.

use vstd::prelude::*;
use crate::fixed::{SCALE, COORD_MAX, abs_of, tdiv};
use crate::fixed::{tdiv128, isqrt128, lemma_mul_le};
use crate::vector::{Vector3, Point3, vabs_le, dot2_of, isqrt_of, lemma_isqrt_unique, lemma_isqrt_props};
use crate::ray::{Ray, at_x, at_y, at_z};
use crate::bounds::{Bounds3, contains_at, bounds_fits};

verus! {

/// Upper limit on ray parameters; stands in for an unbounded query.
pub const T_LIMIT: i64 = 0x400000000000;

#[derive(Clone, Copy, Debug, PartialEq, Eq, Structural)]
pub enum Facing {
    Front,
    Back,
}

impl Default for Facing {
    fn default() -> (r: Facing)
        ensures
            r == Facing::Front,
    {
        Facing::Front
    }
}

/// A surface interaction: where a ray met a primitive, which way the
/// surface faces, and which material governs the scattering there. The
/// material is an index into the scene's material table.
#[derive(Clone, Copy, Debug)]
pub struct Interaction {
    pub p: Point3,
    pub normal: Vector3,
    pub t: i64,
    pub facing: Facing,
    pub material: Option<usize>,
}

/// The interaction value before any hit has been recorded.
pub open spec fn zero_interaction() -> Interaction {
    Interaction {
        p: Point3 { x: 0i64, y: 0i64, z: 0i64 },
        normal: Vector3 { x: 0i64, y: 0i64, z: 0i64 },
        t: 0i64,
        facing: Facing::Front,
        material: None,
    }
}

impl Default for Interaction {
    fn default() -> (r: Interaction)
        ensures
            r == zero_interaction(),
    {
        Interaction {
            p: Point3 { x: 0, y: 0, z: 0 },
            normal: Vector3 { x: 0, y: 0, z: 0 },
            t: 0,
            facing: Facing::Front,
            material: None,
        }
    }
}

/// The facing chosen from the sign of the exact dot product of ray
/// direction and outward normal.
pub open spec fn facing_of(ray: Ray, outward: Vector3) -> Facing {
    if dot2_of(ray.direction, outward) < 0 {
        Facing::Front
    } else {
        Facing::Back
    }
}

/// The stored normal: the outward normal on a front hit, its negation on a
/// back hit.
pub open spec fn oriented_normal_of(ray: Ray, outward: Vector3) -> Vector3 {
    if dot2_of(ray.direction, outward) < 0 {
        outward
    } else {
        Vector3 { x: (-outward.x) as i64, y: (-outward.y) as i64, z: (-outward.z) as i64 }
    }
}

impl Interaction {
    /// Record which side the ray approached from, by the exact sign of the
    /// dot product, and orient the stored normal against the ray.
    pub fn set_face_normal(&mut self, ray: &Ray, outward_normal: &Vector3)
        requires
            vabs_le(ray.direction, 2 * SCALE as int),
            vabs_le(*outward_normal, 2 * SCALE as int),
        ensures
            final(self).facing == facing_of(*ray, *outward_normal),
            final(self).normal == oriented_normal_of(*ray, *outward_normal),
            final(self).p == old(self).p,
            final(self).t == old(self).t,
            final(self).material == old(self).material,
    {
        proof {
            lemma_mul_le(ray.direction.x as int, outward_normal.x as int, 131072, 131072);
            lemma_mul_le(ray.direction.y as int, outward_normal.y as int, 131072, 131072);
            lemma_mul_le(ray.direction.z as int, outward_normal.z as int, 131072, 131072);
        }
        let d2 = Vector3::dot2(&ray.direction, outward_normal);
        if d2 < 0 {
            self.facing = Facing::Front;
            self.normal = *outward_normal;
        } else {
            self.facing = Facing::Back;
            self.normal = outward_normal.negated();
        }
    }
}

/// A sphere with a fixed-point center and radius, scattering through the
/// material at the given table index.
#[derive(Clone, Copy, Debug)]
pub struct Sphere {
    pub position: Point3,
    pub radius: i64,
    pub material: usize,
}

/// Geometry small enough for the exact hit arithmetic: the center and the
/// box grown by the radius stay in coordinate range, and the radius is
/// positive (a degenerate radius is a scene-construction error).
pub open spec fn sphere_fits(s: Sphere) -> bool {
    &&& vabs_le(s.position, COORD_MAX as int - s.radius)
    &&& 0 < s.radius <= COORD_MAX
}

/// A ray suitable for hit queries: in-range origin, and a direction of
/// roughly unit length, as the integrator's renormalization guarantees.
pub open spec fn ray_fits(ray: Ray) -> bool {
    &&& vabs_le(ray.origin, COORD_MAX as int + 1)
    &&& vabs_le(ray.direction, 2 * SCALE as int)
    &&& dot2_of(ray.direction, ray.direction) >= 0x40000000
}

/// The squared-length coefficient of the hit quadratic.
pub open spec fn sph_a(ray: Ray) -> int {
    dot2_of(ray.direction, ray.direction)
}

/// Half the linear coefficient: center-to-origin offset dotted with the
/// direction.
pub open spec fn sph_hb(s: Sphere, ray: Ray) -> int {
    (ray.origin.x - s.position.x) * ray.direction.x
        + (ray.origin.y - s.position.y) * ray.direction.y
        + (ray.origin.z - s.position.z) * ray.direction.z
}

/// The constant coefficient: squared offset minus squared radius.
pub open spec fn sph_c(s: Sphere, ray: Ray) -> int {
    (ray.origin.x - s.position.x) * (ray.origin.x - s.position.x)
        + (ray.origin.y - s.position.y) * (ray.origin.y - s.position.y)
        + (ray.origin.z - s.position.z) * (ray.origin.z - s.position.z)
        - s.radius * s.radius
}

pub open spec fn sph_disc(s: Sphere, ray: Ray) -> int {
    sph_hb(s, ray) * sph_hb(s, ray) - sph_a(ray) * sph_c(s, ray)
}

/// The nearer root of the quadratic, in fixed point, rounded toward zero.
pub open spec fn sph_root1(s: Sphere, ray: Ray) -> int {
    tdiv((-sph_hb(s, ray) - isqrt_of(sph_disc(s, ray))) * SCALE as int, sph_a(ray))
}

/// The farther root.
pub open spec fn sph_root2(s: Sphere, ray: Ray) -> int {
    tdiv((-sph_hb(s, ray) + isqrt_of(sph_disc(s, ray))) * SCALE as int, sph_a(ray))
}

/// The root the hit test settles on: the nearer root when it lies in
/// range, else the farther root when it does, else nothing.
pub open spec fn sph_chosen_root(s: Sphere, ray: Ray, t0: int, t1: int) -> Option<int> {
    if sph_disc(s, ray) < 0 {
        None
    } else if t0 <= sph_root1(s, ray) <= t1 {
        Some(sph_root1(s, ray))
    } else if t0 <= sph_root2(s, ray) <= t1 {
        Some(sph_root2(s, ray))
    } else {
        None
    }
}

/// The accepted hit parameter: the chosen root, kept only when the exact
/// ray point at it lies inside the sphere's bounding box, which the
/// rounding of the root can defeat by at most an ulp.
pub open spec fn sphere_hit_of(s: Sphere, ray: Ray, t0: int, t1: int) -> Option<int> {
    match sph_chosen_root(s, ray, t0, t1) {
        None => None,
        Some(t) => {
            if contains_at(sphere_bound_of(s), ray, t) {
                Some(t)
            } else {
                None
            }
        },
    }
}

/// The axis-aligned box around a sphere: center offset by radius.
pub open spec fn sphere_bound_of(s: Sphere) -> Bounds3 {
    Bounds3 {
        p_min: Point3 {
            x: (s.position.x - s.radius) as i64,
            y: (s.position.y - s.radius) as i64,
            z: (s.position.z - s.radius) as i64,
        },
        p_max: Point3 {
            x: (s.position.x + s.radius) as i64,
            y: (s.position.y + s.radius) as i64,
            z: (s.position.z + s.radius) as i64,
        },
    }
}

/// The outward normal at the hit point `p`: the offset from the center,
/// divided by the radius.
pub open spec fn outward_normal_of(s: Sphere, p: Point3) -> Vector3 {
    Vector3 {
        x: tdiv((p.x - s.position.x) * SCALE as int, s.radius as int) as i64,
        y: tdiv((p.y - s.position.y) * SCALE as int, s.radius as int) as i64,
        z: tdiv((p.z - s.position.z) * SCALE as int, s.radius as int) as i64,
    }
}

/// The full interaction a sphere hit at parameter `t` records.
pub open spec fn sphere_interaction_of(s: Sphere, ray: Ray, t: int) -> Interaction {
    let p = Point3 { x: at_x(ray, t) as i64, y: at_y(ray, t) as i64, z: at_z(ray, t) as i64 };
    let outward = outward_normal_of(s, p);
    Interaction {
        p: p,
        normal: oriented_normal_of(ray, outward),
        t: t as i64,
        facing: facing_of(ray, outward),
        material: Some(s.material),
    }
}

impl Sphere {
    /// The sphere's bounding box.
    pub fn bound(&self) -> (r: Bounds3)
        requires
            sphere_fits(*self),
        ensures
            r == sphere_bound_of(*self),
            bounds_fits(r),
            !crate::bounds::bounds_empty(r),
    {
        Bounds3 {
            p_min: Point3 {
                x: self.position.x - self.radius,
                y: self.position.y - self.radius,
                z: self.position.z - self.radius,
            },
            p_max: Point3 {
                x: self.position.x + self.radius,
                y: self.position.y + self.radius,
                z: self.position.z + self.radius,
            },
        }
    }

    /// Nearest-root hit test against the quadratic, writing the interaction
    /// only on success.
    #[verifier::rlimit(60)]
    pub fn hit(&self, ray: &Ray, t_min: i64, t_max: i64, interaction: &mut Interaction)
        -> (r: bool)
        requires
            sphere_fits(*self),
            ray_fits(*ray),
            0 <= t_min <= t_max <= T_LIMIT,
        ensures
            r == sphere_hit_of(*self, *ray, t_min as int, t_max as int).is_some(),
            r ==> (sphere_hit_of(*self, *ray, t_min as int, t_max as int) matches Some(t)
                && *final(interaction) == sphere_interaction_of(*self, *ray, t)),
            !r ==> *final(interaction) == *old(interaction),
            r ==> vabs_le(final(interaction).normal, 2 * SCALE as int),
            r ==> vabs_le(final(interaction).p, COORD_MAX as int + 1),
    {
        let ghost s = *self;
        let oc = Vector3 {
            x: ray.origin.x - self.position.x,
            y: ray.origin.y - self.position.y,
            z: ray.origin.z - self.position.z,
        };
        proof {
            lemma_mul_le(ray.direction.x as int, ray.direction.x as int, 131072, 131072);
            lemma_mul_le(ray.direction.y as int, ray.direction.y as int, 131072, 131072);
            lemma_mul_le(ray.direction.z as int, ray.direction.z as int, 131072, 131072);
            lemma_mul_le(oc.x as int, ray.direction.x as int, 0x100000000, 131072);
            lemma_mul_le(oc.y as int, ray.direction.y as int, 0x100000000, 131072);
            lemma_mul_le(oc.z as int, ray.direction.z as int, 0x100000000, 131072);
            lemma_mul_le(oc.x as int, oc.x as int, 0x100000000, 0x100000000);
            lemma_mul_le(oc.y as int, oc.y as int, 0x100000000, 0x100000000);
            lemma_mul_le(oc.z as int, oc.z as int, 0x100000000, 0x100000000);
            lemma_mul_le(self.radius as int, self.radius as int, 0x40000000, 0x40000000);
        }
        let a = Vector3::dot2(&ray.direction, &ray.direction);
        let half_b = Vector3::dot2(&oc, &ray.direction);
        let c2 = Vector3::dot2(&oc, &oc) - self.radius as i128 * self.radius as i128;
        proof {
            lemma_mul_le(half_b as int, half_b as int, 0x8000000000000, 0x8000000000000);
            lemma_mul_le(a as int, c2 as int, 0x1000000000, 0x40000000000000000);
        }
        let disc = half_b * half_b - a * c2;
        assert(disc == sph_disc(s, *ray));
        if disc < 0 {
            return false;
        }
        let sqrt_d = isqrt128(disc as u128);
        proof {
            lemma_isqrt_unique(disc as int, sqrt_d as int);
            assert(sqrt_d as int * sqrt_d as int <= 0x200000000000000000000000000int);
            assert(sqrt_d as int <= 0x40000000000000) by (nonlinear_arith)
                requires
                    sqrt_d as int * sqrt_d as int <= 0x200000000000000000000000000int,
                    sqrt_d as int >= 0,
            ;
        }
        let root1 = div_root(-half_b - sqrt_d as i128, a);
        assert(root1 == sph_root1(s, *ray));
        let root = if t_min <= root1 && root1 <= t_max {
            root1
        } else {
            let root2 = div_root(-half_b + sqrt_d as i128, a);
            assert(root2 == sph_root2(s, *ray));
            if t_min <= root2 && root2 <= t_max {
                root2
            } else {
                assert(sph_chosen_root(s, *ray, t_min as int, t_max as int).is_none());
                return false;
            }
        };
        assert(sph_chosen_root(s, *ray, t_min as int, t_max as int) == Some(root as int));

        // The rounded root can place the exact ray point outside the
        // sphere's box by an ulp; such a grazing hit is dropped so that an
        // accepted hit always satisfies the box inequalities.
        let b = self.bound();
        proof {
            lemma_mul_le(root as int, ray.direction.x as int, 0x400000000000, 131072);
            lemma_mul_le(root as int, ray.direction.y as int, 0x400000000000, 131072);
            lemma_mul_le(root as int, ray.direction.z as int, 0x400000000000, 131072);
        }
        let inside = b.p_min.x as i128 * SCALE as i128
                <= ray.origin.x as i128 * SCALE as i128 + root as i128 * ray.direction.x as i128
            && ray.origin.x as i128 * SCALE as i128 + root as i128 * ray.direction.x as i128
                <= b.p_max.x as i128 * SCALE as i128
            && b.p_min.y as i128 * SCALE as i128
                <= ray.origin.y as i128 * SCALE as i128 + root as i128 * ray.direction.y as i128
            && ray.origin.y as i128 * SCALE as i128 + root as i128 * ray.direction.y as i128
                <= b.p_max.y as i128 * SCALE as i128
            && b.p_min.z as i128 * SCALE as i128
                <= ray.origin.z as i128 * SCALE as i128 + root as i128 * ray.direction.z as i128
            && ray.origin.z as i128 * SCALE as i128 + root as i128 * ray.direction.z as i128
                <= b.p_max.z as i128 * SCALE as i128;
        if !inside {
            assert(!contains_at(sphere_bound_of(s), *ray, root as int));
            return false;
        }
        assert(contains_at(sphere_bound_of(s), *ray, root as int));

        let p = ray.at(root);
        proof {
            lemma_hit_point_near_center(s, *ray, root as int, p.x as int, at_x(*ray, root as int),
                s.position.x as int, ray.origin.x as int, ray.direction.x as int);
            lemma_hit_point_near_center(s, *ray, root as int, p.y as int, at_y(*ray, root as int),
                s.position.y as int, ray.origin.y as int, ray.direction.y as int);
            lemma_hit_point_near_center(s, *ray, root as int, p.z as int, at_z(*ray, root as int),
                s.position.z as int, ray.origin.z as int, ray.direction.z as int);
        }
        let outward = Vector3 {
            x: norm_axis(p.x, self.position.x, self.radius),
            y: norm_axis(p.y, self.position.y, self.radius),
            z: norm_axis(p.z, self.position.z, self.radius),
        };
        interaction.t = root;
        interaction.p = p;
        interaction.set_face_normal(ray, &outward);
        interaction.material = Some(self.material);
        true
    }
}

/// Divide an unscaled quadratic-root numerator by the quadratic's leading
/// coefficient, widening by the scale first.
fn div_root(num: i128, a: i128) -> (r: i64)
    requires
        a >= 0x40000000,
        abs_of(num as int) <= 0x100000000000000000,
    ensures
        r == tdiv(num as int * SCALE as int, a as int),
{
    proof {
        lemma_mul_le(num as int, SCALE as int, 0x100000000000000000, SCALE as int);
    }
    let q = tdiv128(num * SCALE as i128, a);
    proof {
        assert(abs_of(q as int) == abs_of(num as int * SCALE as int) / a as int);
        vstd::arithmetic::div_mod::lemma_div_is_ordered_by_denominator(
            abs_of(num as int * SCALE as int), 0x40000000, a as int);
        vstd::arithmetic::div_mod::lemma_div_is_ordered(
            abs_of(num as int * SCALE as int), 0x1000000000000000000000int, 0x40000000);
        assert(0x1000000000000000000000int / 0x40000000int == 0x40000000000000int);
    }
    q as i64
}

/// One component of the outward normal: the center offset over the radius.
fn norm_axis(p: i64, c: i64, radius: i64) -> (r: i64)
    requires
        radius >= 1,
        abs_of(p - c) <= radius + 1,
        radius <= COORD_MAX,
    ensures
        r == tdiv((p - c) * SCALE as int, radius as int),
        abs_of(r as int) <= 2 * SCALE as int,
{
    proof {
        lemma_mul_le(p as int - c as int, SCALE as int, COORD_MAX as int + 1, SCALE as int);
    }
    let q = tdiv128((p as i128 - c as i128) * SCALE as i128, radius as i128);
    proof {
        let num = abs_of((p as int - c as int) * SCALE as int);
        assert(abs_of(q as int) == num / radius as int);
        assert(num <= (radius as int + 1) * SCALE as int) by (nonlinear_arith)
            requires
                num == abs_of((p as int - c as int) * SCALE as int),
                abs_of(p as int - c as int) <= radius as int + 1,
                SCALE as int > 0,
        ;
        assert((radius as int + 1) * SCALE as int <= radius as int * (2 * SCALE as int))
            by (nonlinear_arith)
            requires radius as int >= 1, SCALE as int > 0,
        ;
        vstd::arithmetic::div_mod::lemma_div_is_ordered(
            num, radius as int * (2 * SCALE as int), radius as int);
        vstd::arithmetic::div_mod::lemma_div_multiples_vanish(
            2 * SCALE as int, radius as int);
    }
    q as i64
}

/// The rounded ray point lies within one unit of the exact product form, so
/// inside the (exactly tested) sphere box it sits within radius plus one of
/// the center on each axis.
proof fn lemma_hit_point_near_center(
    s: Sphere, ray: Ray, t: int, pk: int, atk: int, ck: int, ok: int, dk: int)
    requires
        pk == atk,
        atk == ok + tdiv(dk * t, SCALE as int),
        (ck - s.radius) * SCALE as int <= ok * SCALE as int + t * dk,
        ok * SCALE as int + t * dk <= (ck + s.radius) * SCALE as int,
        s.radius >= 1,
    ensures
        abs_of(pk - ck) <= s.radius + 1,
{
    let x = dk * t;
    lemma_tdiv_scale_close(x);
    assert(t * dk == dk * t) by (nonlinear_arith);
    let q = tdiv(x, SCALE as int);
    assert((x - SCALE as int) < q * SCALE as int);
    assert((q * SCALE as int) < x + SCALE as int);
    assert(-(s.radius + 1) <= pk - ck && pk - ck <= s.radius + 1) by (nonlinear_arith)
        requires
            pk == ok + q,
            (x - SCALE as int) < q * SCALE as int,
            (q * SCALE as int) < x + SCALE as int,
            (ck - s.radius as int) * SCALE as int <= ok * SCALE as int + x,
            ok * SCALE as int + x <= (ck + s.radius as int) * SCALE as int,
            s.radius >= 1,
            SCALE as int == 65536,
    ;
}

/// Scaling a truncated quotient back up lands within one scale unit of the
/// dividend.
proof fn lemma_tdiv_scale_close(x: int)
    ensures
        abs_of(tdiv(x, SCALE as int) * SCALE as int - x) < SCALE as int,
{
    let ax = abs_of(x);
    let q = ax / SCALE as int;
    let r = ax % SCALE as int;
    vstd::arithmetic::div_mod::lemma_fundamental_div_mod(ax, SCALE as int);
    assert(ax == SCALE as int * q + r);
    assert(0 <= r < SCALE as int);
    if x >= 0 {
        assert(tdiv(x, SCALE as int) == q);
        assert(q * SCALE as int - x == -r) by (nonlinear_arith)
            requires x == SCALE as int * q + r,
        ;
    } else {
        assert(tdiv(x, SCALE as int) == -q);
        assert((-q) * SCALE as int - x == r) by (nonlinear_arith)
            requires -x == SCALE as int * q + r,
        ;
    }
}

/// Shrinking or widening the far end of the query range changes which hits
/// are reported in the expected way: a hit found in the narrow range is the
/// hit of the wide range, and a wide-range hit within the narrow range is
/// found there too.
pub proof fn lemma_hit_range(h: Hittable, ray: Ray, t0: int, tc: int, t1: int)
    requires
        t0 <= tc <= t1,
        hittable_fits(h),
        ray_fits(ray),
    ensures
        match hittable_hit_of(h, ray, t0, tc) {
            Some(v) => hittable_hit_of(h, ray, t0, t1) == Some(v),
            None => true,
        },
        match hittable_hit_of(h, ray, t0, t1) {
            Some(v) => v > tc || hittable_hit_of(h, ray, t0, tc) == Some(v),
            None => hittable_hit_of(h, ray, t0, tc) is None,
        },
{
    let s = match h {
        Hittable::Sphere(s0) => s0,
    };
    let a = sph_a(ray);
    assert(a >= 0x40000000);
    if sph_disc(s, ray) >= 0 {
        lemma_isqrt_props(sph_disc(s, ray));
        let sq = isqrt_of(sph_disc(s, ray));
        let n1 = (-sph_hb(s, ray) - sq) * SCALE as int;
        let n2 = (-sph_hb(s, ray) + sq) * SCALE as int;
        assert(n1 <= n2) by (nonlinear_arith)
            requires
                sq >= 0,
                n1 == (-sph_hb(s, ray) - sq) * SCALE as int,
                n2 == (-sph_hb(s, ray) + sq) * SCALE as int,
                SCALE as int > 0,
        ;
        crate::fixed::lemma_tdiv_mono(n1, n2, a);
        assert(sph_root1(s, ray) <= sph_root2(s, ray));
    }
}

/// The closed set of primitives.
#[derive(Clone, Copy, Debug)]
pub enum Hittable {
    Sphere(Sphere),
}

/// Validity of any primitive.
pub open spec fn hittable_fits(h: Hittable) -> bool {
    match h {
        Hittable::Sphere(s) => sphere_fits(s),
    }
}

/// The accepted hit parameter of any primitive.
pub open spec fn hittable_hit_of(h: Hittable, ray: Ray, t0: int, t1: int) -> Option<int> {
    match h {
        Hittable::Sphere(s) => sphere_hit_of(s, ray, t0, t1),
    }
}

/// The interaction any primitive records for a hit at `t`.
pub open spec fn hittable_interaction_of(h: Hittable, ray: Ray, t: int) -> Interaction {
    match h {
        Hittable::Sphere(s) => sphere_interaction_of(s, ray, t),
    }
}

/// The bounding box of any primitive.
pub open spec fn hittable_bound_of(h: Hittable) -> Bounds3 {
    match h {
        Hittable::Sphere(s) => sphere_bound_of(s),
    }
}

impl Hittable {
    pub fn hit(&self, ray: &Ray, t_min: i64, t_max: i64, interaction: &mut Interaction)
        -> (r: bool)
        requires
            hittable_fits(*self),
            ray_fits(*ray),
            0 <= t_min <= t_max <= T_LIMIT,
        ensures
            r == hittable_hit_of(*self, *ray, t_min as int, t_max as int).is_some(),
            r ==> (hittable_hit_of(*self, *ray, t_min as int, t_max as int) matches Some(t)
                && *final(interaction) == hittable_interaction_of(*self, *ray, t)),
            !r ==> *final(interaction) == *old(interaction),
            r ==> vabs_le(final(interaction).normal, 2 * SCALE as int),
            r ==> vabs_le(final(interaction).p, COORD_MAX as int + 1),
    {
        match self {
            Hittable::Sphere(sphere) => sphere.hit(ray, t_min, t_max, interaction),
        }
    }

    pub fn bound(&self) -> (r: Bounds3)
        requires
            hittable_fits(*self),
        ensures
            r == hittable_bound_of(*self),
            bounds_fits(r),
            !crate::bounds::bounds_empty(r),
    {
        match self {
            Hittable::Sphere(sphere) => sphere.bound(),
        }
    }
}

} // verus!
