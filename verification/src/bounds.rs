//! Axis-aligned bounding boxes with union, containment, surface area and a
//! conservative slab intersection test.
//!
//! The empty box is the sentinel whose minimum corner lies above its maximum
//! corner at the coordinate range limit, so that a union with any real box
//! yields that box.

use vstd::prelude::*;
use crate::fixed::{SCALE, COORD_MAX, abs_of, tdiv, min_of, max_of};
use crate::fixed::{tdiv128, fdiv128, cdiv128, lemma_mul_le};
use crate::vector::{Vector3, Point3, vabs_le};
use crate::ray::Ray;

verus! {

#[derive(Clone, Copy, Debug, PartialEq, Eq, Structural)]
pub struct Bounds3 {
    pub p_min: Point3,
    pub p_max: Point3,
}

/// Sentinel value for parameters unconstrained by a slab axis.
pub const T_SENT: i64 = 0x1000000000000000;

/// Both corners lie within the coordinate range.
pub open spec fn bounds_fits(b: Bounds3) -> bool {
    &&& vabs_le(b.p_min, COORD_MAX as int)
    &&& vabs_le(b.p_max, COORD_MAX as int)
}

/// The box holds no point: some minimum exceeds the matching maximum.
pub open spec fn bounds_empty(b: Bounds3) -> bool {
    ||| b.p_min.x > b.p_max.x
    ||| b.p_min.y > b.p_max.y
    ||| b.p_min.z > b.p_max.z
}

/// `outer` contains `inner` as a region.
pub open spec fn box_contains(outer: Bounds3, inner: Bounds3) -> bool {
    &&& outer.p_min.x <= inner.p_min.x
    &&& outer.p_min.y <= inner.p_min.y
    &&& outer.p_min.z <= inner.p_min.z
    &&& inner.p_max.x <= outer.p_max.x
    &&& inner.p_max.y <= outer.p_max.y
    &&& inner.p_max.z <= outer.p_max.z
}

/// The componentwise union box.
pub open spec fn union_of(b1: Bounds3, b2: Bounds3) -> Bounds3 {
    Bounds3 {
        p_min: Point3 {
            x: min_of(b1.p_min.x as int, b2.p_min.x as int) as i64,
            y: min_of(b1.p_min.y as int, b2.p_min.y as int) as i64,
            z: min_of(b1.p_min.z as int, b2.p_min.z as int) as i64,
        },
        p_max: Point3 {
            x: max_of(b1.p_max.x as int, b2.p_max.x as int) as i64,
            y: max_of(b1.p_max.y as int, b2.p_max.y as int) as i64,
            z: max_of(b1.p_max.z as int, b2.p_max.z as int) as i64,
        },
    }
}

/// The ray's point at parameter `t` lies inside `b`, stated exactly over the
/// unscaled products, with no rounding.
pub open spec fn contains_at(b: Bounds3, ray: Ray, t: int) -> bool {
    &&& b.p_min.x * SCALE <= ray.origin.x * SCALE + t * ray.direction.x <= b.p_max.x * SCALE
    &&& b.p_min.y * SCALE <= ray.origin.y * SCALE + t * ray.direction.y <= b.p_max.y * SCALE
    &&& b.p_min.z * SCALE <= ray.origin.z * SCALE + t * ray.direction.z <= b.p_max.z * SCALE
}

impl Default for Bounds3 {
    /// The empty sentinel box.
    fn default() -> (r: Bounds3)
        ensures
            r.p_min.x == COORD_MAX && r.p_min.y == COORD_MAX && r.p_min.z == COORD_MAX,
            r.p_max.x == -COORD_MAX && r.p_max.y == -COORD_MAX && r.p_max.z == -COORD_MAX,
            bounds_empty(r),
    {
        Bounds3 {
            p_min: Point3 { x: COORD_MAX, y: COORD_MAX, z: COORD_MAX },
            p_max: Point3 { x: -COORD_MAX, y: -COORD_MAX, z: -COORD_MAX },
        }
    }
}

impl Bounds3 {
    /// The midpoint: each corner is halved first, so each half's rounding
    /// is taken before the sum.
    pub fn center(&self) -> (r: Point3)
        requires
            bounds_fits(*self),
        ensures
            r.x == tdiv(self.p_min.x as int, 2) + tdiv(self.p_max.x as int, 2),
            r.y == tdiv(self.p_min.y as int, 2) + tdiv(self.p_max.y as int, 2),
            r.z == tdiv(self.p_min.z as int, 2) + tdiv(self.p_max.z as int, 2),
    {
        Point3 {
            x: tdiv128(self.p_min.x as i128, 2) as i64 + tdiv128(self.p_max.x as i128, 2) as i64,
            y: tdiv128(self.p_min.y as i128, 2) as i64 + tdiv128(self.p_max.y as i128, 2) as i64,
            z: tdiv128(self.p_min.z as i128, 2) as i64 + tdiv128(self.p_max.z as i128, 2) as i64,
        }
    }

    pub fn diagonal(&self) -> (r: Vector3)
        requires
            bounds_fits(*self),
        ensures
            r.x == self.p_max.x - self.p_min.x,
            r.y == self.p_max.y - self.p_min.y,
            r.z == self.p_max.z - self.p_min.z,
    {
        Vector3 {
            x: self.p_max.x - self.p_min.x,
            y: self.p_max.y - self.p_min.y,
            z: self.p_max.z - self.p_min.z,
        }
    }

    /// Index of the axis with the greatest diagonal extent, ties resolved
    /// toward the later axis exactly as the comparison chain reads.
    pub fn maximum_extent(&self) -> (r: usize)
        requires
            bounds_fits(*self),
        ensures
            r == max_extent_of(*self),
            r < 3,
    {
        let dx = self.p_max.x - self.p_min.x;
        let dy = self.p_max.y - self.p_min.y;
        let dz = self.p_max.z - self.p_min.z;
        if dx > dy && dx > dz {
            0
        } else if dy > dz {
            1
        } else {
            2
        }
    }

    /// Union of two boxes: componentwise minimum and maximum corners.
    pub fn union(b1: &Bounds3, b2: &Bounds3) -> (r: Bounds3)
        ensures
            r == union_of(*b1, *b2),
    {
        Bounds3 {
            p_min: Point3 {
                x: if b1.p_min.x <= b2.p_min.x { b1.p_min.x } else { b2.p_min.x },
                y: if b1.p_min.y <= b2.p_min.y { b1.p_min.y } else { b2.p_min.y },
                z: if b1.p_min.z <= b2.p_min.z { b1.p_min.z } else { b2.p_min.z },
            },
            p_max: Point3 {
                x: if b1.p_max.x >= b2.p_max.x { b1.p_max.x } else { b2.p_max.x },
                y: if b1.p_max.y >= b2.p_max.y { b1.p_max.y } else { b2.p_max.y },
                z: if b1.p_max.z >= b2.p_max.z { b1.p_max.z } else { b2.p_max.z },
            },
        }
    }

    /// Grow a box to cover a point.
    pub fn union_point(b: &Bounds3, p: &Point3) -> (r: Bounds3)
        ensures
            r.p_min.x == min_of(b.p_min.x as int, p.x as int),
            r.p_min.y == min_of(b.p_min.y as int, p.y as int),
            r.p_min.z == min_of(b.p_min.z as int, p.z as int),
            r.p_max.x == max_of(b.p_max.x as int, p.x as int),
            r.p_max.y == max_of(b.p_max.y as int, p.y as int),
            r.p_max.z == max_of(b.p_max.z as int, p.z as int),
    {
        Bounds3 {
            p_min: Point3 {
                x: if b.p_min.x <= p.x { b.p_min.x } else { p.x },
                y: if b.p_min.y <= p.y { b.p_min.y } else { p.y },
                z: if b.p_min.z <= p.z { b.p_min.z } else { p.z },
            },
            p_max: Point3 {
                x: if b.p_max.x >= p.x { b.p_max.x } else { p.x },
                y: if b.p_max.y >= p.y { b.p_max.y } else { p.y },
                z: if b.p_max.z >= p.z { b.p_max.z } else { p.z },
            },
        }
    }

    /// Twice the sum of the pairwise face areas, at twice the fixed-point
    /// scale, exactly; zero for an empty box so that an unoccupied split
    /// bucket contributes no cost.
    pub fn surface_area2(&self) -> (r: i128)
        requires
            bounds_fits(*self),
        ensures
            r == sa2_of(*self),
    {
        if self.p_min.x > self.p_max.x || self.p_min.y > self.p_max.y
            || self.p_min.z > self.p_max.z {
            0
        } else {
            let dx = self.p_max.x - self.p_min.x;
            let dy = self.p_max.y - self.p_min.y;
            let dz = self.p_max.z - self.p_min.z;
            proof {
                lemma_mul_le(dx as int, dy as int, 0x80000000, 0x80000000);
                lemma_mul_le(dx as int, dz as int, 0x80000000, 0x80000000);
                lemma_mul_le(dy as int, dz as int, 0x80000000, 0x80000000);
            }
            2 * (dx as i128 * dy as i128 + dx as i128 * dz as i128 + dy as i128 * dz as i128)
        }
    }

    /// The surface area at the ordinary scale, rounded toward zero.
    pub fn surface_area(&self) -> (r: i64)
        requires
            bounds_fits(*self),
        ensures
            r == tdiv(sa2_of(*self), SCALE as int),
    {
        let s2 = self.surface_area2();
        proof {
            if !bounds_empty(*self) {
                lemma_mul_le(
                    (self.p_max.x - self.p_min.x) as int,
                    (self.p_max.y - self.p_min.y) as int, 0x80000000, 0x80000000);
                lemma_mul_le(
                    (self.p_max.x - self.p_min.x) as int,
                    (self.p_max.z - self.p_min.z) as int, 0x80000000, 0x80000000);
                lemma_mul_le(
                    (self.p_max.y - self.p_min.y) as int,
                    (self.p_max.z - self.p_min.z) as int, 0x80000000, 0x80000000);
            }
        }
        crate::fixed::div_by_scale(s2)
    }

    /// A point's position inside the box, normalized to `[0, 1]` on each
    /// axis with positive extent and left as the plain offset on a
    /// degenerate axis.
    pub fn offset(&self, p: &Point3) -> (r: Vector3)
        requires
            bounds_fits(*self),
            vabs_le(*p, COORD_MAX as int),
        ensures
            r.x == offset_axis_of(self.p_min.x as int, self.p_max.x as int, p.x as int),
            r.y == offset_axis_of(self.p_min.y as int, self.p_max.y as int, p.y as int),
            r.z == offset_axis_of(self.p_min.z as int, self.p_max.z as int, p.z as int),
    {
        Vector3 {
            x: offset_axis(self.p_min.x, self.p_max.x, p.x),
            y: offset_axis(self.p_min.y, self.p_max.y, p.y),
            z: offset_axis(self.p_min.z, self.p_max.z, p.z),
        }
    }

    /// Conservative slab test: on each axis the entry and exit parameters
    /// are rounded outward, so whenever some parameter in `[t_min, t_max]`
    /// places the ray inside the box, the test reports a hit. The near and
    /// far faces are chosen by the direction's sign.
    pub fn intersect(&self, ray: &Ray, dir_is_neg: &[bool; 3], t_max: i64, t_min: i64)
        -> (r: bool)
        requires
            bounds_fits(*self),
            vabs_le(ray.origin, COORD_MAX as int + 1),
            vabs_le(ray.direction, 2 * SCALE as int),
            dir_is_neg[0] == (ray.direction.x < 0),
            dir_is_neg[1] == (ray.direction.y < 0),
            dir_is_neg[2] == (ray.direction.z < 0),
            abs_of(t_min as int) <= 0x400000000000,
            abs_of(t_max as int) <= 0x400000000000,
        ensures
            r == slab_pass_of(*self, *ray, t_min as int, t_max as int),
            forall|t: int| t_min as int <= t <= t_max as int && contains_at(*self, *ray, t)
                ==> r,
    {
        let s0 = slab_axis(self.p_min.x, self.p_max.x, ray.origin.x, ray.direction.x);
        let s1 = slab_axis(self.p_min.y, self.p_max.y, ray.origin.y, ray.direction.y);
        let s2 = slab_axis(self.p_min.z, self.p_max.z, ray.origin.z, ray.direction.z);
        let (n0, f0) = match s0 {
            Some(p) => p,
            None => {
                proof {
                    assert forall|t: int|
                        t_min as int <= t <= t_max as int && contains_at(*self, *ray, t)
                        implies false by {
                        assert(axis_in(self.p_min.x as int, self.p_max.x as int,
                            ray.origin.x as int, ray.direction.x as int, t));
                    }
                }
                return false;
            },
        };
        let (n1, f1) = match s1 {
            Some(p) => p,
            None => {
                proof {
                    assert forall|t: int|
                        t_min as int <= t <= t_max as int && contains_at(*self, *ray, t)
                        implies false by {
                        assert(axis_in(self.p_min.y as int, self.p_max.y as int,
                            ray.origin.y as int, ray.direction.y as int, t));
                    }
                }
                return false;
            },
        };
        let (n2, f2) = match s2 {
            Some(p) => p,
            None => {
                proof {
                    assert forall|t: int|
                        t_min as int <= t <= t_max as int && contains_at(*self, *ray, t)
                        implies false by {
                        assert(axis_in(self.p_min.z as int, self.p_max.z as int,
                            ray.origin.z as int, ray.direction.z as int, t));
                    }
                }
                return false;
            },
        };
        let t_near = if n0 >= n1 { if n0 >= n2 { n0 } else { n2 } } else if n1 >= n2 { n1 } else { n2 };
        let t_far = if f0 <= f1 { if f0 <= f2 { f0 } else { f2 } } else if f1 <= f2 { f1 } else { f2 };
        let pass = t_near <= t_far && t_near <= t_max && t_far >= t_min;
        proof {
            assert forall|t: int|
                t_min as int <= t <= t_max as int && contains_at(*self, *ray, t)
                implies pass by {
                assert(abs_of(t) <= 0x400000000000);
                assert(axis_in(self.p_min.x as int, self.p_max.x as int,
                    ray.origin.x as int, ray.direction.x as int, t));
                assert(axis_in(self.p_min.y as int, self.p_max.y as int,
                    ray.origin.y as int, ray.direction.y as int, t));
                assert(axis_in(self.p_min.z as int, self.p_max.z as int,
                    ray.origin.z as int, ray.direction.z as int, t));
                assert(t_near as int <= t <= t_far as int);
            }
        }
        pass
    }
}

pub open spec fn max_extent_of(b: Bounds3) -> int {
    let dx = b.p_max.x - b.p_min.x;
    let dy = b.p_max.y - b.p_min.y;
    let dz = b.p_max.z - b.p_min.z;
    if dx > dy && dx > dz {
        0
    } else if dy > dz {
        1
    } else {
        2
    }
}

pub open spec fn sa2_of(b: Bounds3) -> int {
    if bounds_empty(b) {
        0
    } else {
        let dx = b.p_max.x - b.p_min.x;
        let dy = b.p_max.y - b.p_min.y;
        let dz = b.p_max.z - b.p_min.z;
        2 * (dx * dy + dx * dz + dy * dz)
    }
}

pub open spec fn offset_axis_of(mn: int, mx: int, p: int) -> int {
    if mx > mn {
        tdiv((p - mn) * SCALE as int, mx - mn)
    } else {
        p - mn
    }
}

fn offset_axis(mn: i64, mx: i64, p: i64) -> (r: i64)
    requires
        abs_of(mn as int) <= COORD_MAX as int,
        abs_of(mx as int) <= COORD_MAX as int,
        abs_of(p as int) <= COORD_MAX as int,
    ensures
        r == offset_axis_of(mn as int, mx as int, p as int),
{
    if mx > mn {
        proof {
            lemma_mul_le((p - mn) as int, SCALE as int, 0x80000000, SCALE as int);
        }
        tdiv128((p as i128 - mn as i128) * SCALE as i128, mx as i128 - mn as i128) as i64
    } else {
        p - mn
    }
}

/// One slab axis: `None` when the axis admits no parameter at all, else the
/// outward-rounded entry and exit parameters. Whenever the inequality
/// `mn * SCALE <= o * SCALE + t * d <= mx * SCALE` holds for an integer `t`,
/// that `t` lies between the returned pair.
fn slab_axis(mn: i64, mx: i64, o: i64, d: i64) -> (r: Option<(i64, i64)>)
    requires
        abs_of(mn as int) <= COORD_MAX as int,
        abs_of(mx as int) <= COORD_MAX as int,
        abs_of(o as int) <= COORD_MAX as int + 1,
        abs_of(d as int) <= 2 * SCALE as int,
    ensures
        match r {
            None => slab_axis_of(mn as int, mx as int, o as int, d as int) is None
                && (forall|t: int| !axis_in(mn as int, mx as int, o as int, d as int, t)),
            Some(p) => {
                &&& slab_axis_of(mn as int, mx as int, o as int, d as int)
                    == Some((p.0 as int, p.1 as int))
                &&& forall|t: int|
                    abs_of(t) <= 0x400000000000
                        && axis_in(mn as int, mx as int, o as int, d as int, t)
                    ==> p.0 as int <= t <= p.1 as int
                &&& abs_of(p.0 as int) <= T_SENT as int
                &&& abs_of(p.1 as int) <= T_SENT as int
            },
        },
{
    if d == 0 {
        if o < mn || o > mx {
            proof {
                assert forall|t: int| !axis_in(mn as int, mx as int, o as int, d as int, t) by {
                    assert(t * 0 == 0) by (nonlinear_arith);
                }
            }
            None
        } else {
            Some((-T_SENT, T_SENT))
        }
    } else if d > 0 {
        proof {
            lemma_mul_le(mn as int - o as int, SCALE as int, 0x100000000, SCALE as int);
            lemma_mul_le(mx as int - o as int, SCALE as int, 0x100000000, SCALE as int);
        }
        let near = fdiv128((mn as i128 - o as i128) * SCALE as i128, d as i128) as i64;
        let far = cdiv128((mx as i128 - o as i128) * SCALE as i128, d as i128) as i64;
        proof {
            assert forall|t: int|
                abs_of(t) <= 0x400000000000
                    && axis_in(mn as int, mx as int, o as int, d as int, t)
                implies near as int <= t <= far as int by {
                assert(mn as int * SCALE as int <= o as int * SCALE as int + t * d
                    <= mx as int * SCALE as int);
                lemma_slab_core(
                    (mn as int - o as int) * SCALE as int,
                    (mx as int - o as int) * SCALE as int,
                    d as int, o as int, mn as int, mx as int, t);
            }
        }
        Some((near, far))
    } else {
        proof {
            lemma_mul_le(o as int - mx as int, SCALE as int, 0x100000000, SCALE as int);
            lemma_mul_le(o as int - mn as int, SCALE as int, 0x100000000, SCALE as int);
        }
        let near = fdiv128((o as i128 - mx as i128) * SCALE as i128, -(d as i128)) as i64;
        let far = cdiv128((o as i128 - mn as i128) * SCALE as i128, -(d as i128)) as i64;
        proof {
            assert forall|t: int|
                abs_of(t) <= 0x400000000000
                    && axis_in(mn as int, mx as int, o as int, d as int, t)
                implies near as int <= t <= far as int by {
                assert(mn as int * SCALE as int <= o as int * SCALE as int + t * d
                    <= mx as int * SCALE as int);
                assert(t * (-(d as int)) == -(t * d)) by (nonlinear_arith);
                assert(o as int * SCALE as int + t * d <= mx as int * SCALE as int);
                lemma_slab_core(
                    (o as int - mx as int) * SCALE as int,
                    (o as int - mn as int) * SCALE as int,
                    -(d as int), -(o as int), -(mx as int), -(mn as int), t);
            }
        }
        Some((near, far))
    }
}

/// The axis inequality at parameter `t`.
pub open spec fn axis_in(mn: int, mx: int, o: int, d: int, t: int) -> bool {
    mn * SCALE <= o * SCALE + t * d <= mx * SCALE
}

/// The entry and exit parameters one slab axis computes: floor and ceiling
/// quotients of the face offsets by the direction component, faces chosen
/// by the direction's sign; nothing when a parallel ray starts outside the
/// slab, the sentinels when it starts inside.
pub open spec fn slab_axis_of(mn: int, mx: int, o: int, d: int) -> Option<(int, int)> {
    if d == 0 {
        if o < mn || o > mx {
            None
        } else {
            Some((-(T_SENT as int), T_SENT as int))
        }
    } else if d > 0 {
        Some((((mn - o) * SCALE) / d, -((-((mx - o) * SCALE)) / d)))
    } else {
        Some((((o - mx) * SCALE) / (-d), -((-((o - mn) * SCALE)) / (-d))))
    }
}

/// Exactly what the slab test returns: the per-axis entry parameters'
/// maximum and exit parameters' minimum, compared against each other and
/// the query range; false as soon as one axis admits no parameter.
pub open spec fn slab_pass_of(b: Bounds3, ray: Ray, t_min: int, t_max: int) -> bool {
    match slab_axis_of(b.p_min.x as int, b.p_max.x as int,
        ray.origin.x as int, ray.direction.x as int) {
        None => false,
        Some(a0) => match slab_axis_of(b.p_min.y as int, b.p_max.y as int,
            ray.origin.y as int, ray.direction.y as int) {
            None => false,
            Some(a1) => match slab_axis_of(b.p_min.z as int, b.p_max.z as int,
                ray.origin.z as int, ray.direction.z as int) {
                None => false,
                Some(a2) => {
                    let t_near = if a0.0 >= a1.0 {
                        if a0.0 >= a2.0 { a0.0 } else { a2.0 }
                    } else if a1.0 >= a2.0 { a1.0 } else { a2.0 };
                    let t_far = if a0.1 <= a1.1 {
                        if a0.1 <= a2.1 { a0.1 } else { a2.1 }
                    } else if a1.1 <= a2.1 { a1.1 } else { a2.1 };
                    t_near <= t_far && t_near <= t_max && t_far >= t_min
                },
            },
        },
    }
}

/// From `a <= t * dd <= c` with `dd > 0`, the parameter `t` lies between the
/// floor of `a / dd` and the ceiling of `c / dd`. The arguments `a` and `c`
/// are passed in product form together with the pieces they are built from.
proof fn lemma_slab_core(a: int, c: int, dd: int, oo: int, lo: int, hi: int, t: int)
    requires
        dd > 0,
        a == (lo - oo) * SCALE as int,
        c == (hi - oo) * SCALE as int,
        lo * SCALE as int <= oo * SCALE as int + t * dd,
        oo * SCALE as int + t * dd <= hi * SCALE as int,
    ensures
        a / dd <= t,
        t <= -((-c) / dd),
{
    assert(a <= t * dd && t * dd <= c) by (nonlinear_arith)
        requires
            lo * SCALE as int <= oo * SCALE as int + t * dd,
            oo * SCALE as int + t * dd <= hi * SCALE as int,
            a == (lo - oo) * SCALE as int,
            c == (hi - oo) * SCALE as int,
    ;
    vstd::arithmetic::div_mod::lemma_div_is_ordered(a, t * dd, dd);
    vstd::arithmetic::div_mod::lemma_div_multiples_vanish(t, dd);
    assert((t * dd) / dd == t) by {
        assert(t * dd == dd * t) by (nonlinear_arith);
    }
    vstd::arithmetic::div_mod::lemma_div_is_ordered(t * dd, c, dd);
    assert(t <= c / dd);
    assert(c / dd <= -((-c) / dd)) by {
        lemma_neg_div(c, dd);
    }
}

/// Floor division is at most the negated floor division of the negation:
/// `c/d <= ceil(c/d)`.
proof fn lemma_neg_div(c: int, d: int)
    requires
        d > 0,
    ensures
        c / d <= -((-c) / d),
{
    vstd::arithmetic::div_mod::lemma_fundamental_div_mod(c, d);
    vstd::arithmetic::div_mod::lemma_fundamental_div_mod(-c, d);
    let q1 = c / d;
    let r1 = c % d;
    let q2 = (-c) / d;
    let r2 = (-c) % d;
    assert(c == d * q1 + r1);
    assert(-c == d * q2 + r2);
    assert(d * q1 + r1 == -(d * q2) - r2);
    assert(d * (q1 + q2) == -r1 - r2) by (nonlinear_arith)
        requires d * q1 + r1 == -(d * q2) - r2,
    ;
    assert(0 <= r1 < d);
    assert(0 <= r2 < d);
    assert(q1 + q2 <= 0) by (nonlinear_arith)
        requires
            d * (q1 + q2) == -r1 - r2,
            0 <= r1 < d,
            0 <= r2 < d,
            d > 0,
    ;
}

/// The union contains both operands and is the smallest box that does.
pub proof fn lemma_union_minimal(b1: Bounds3, b2: Bounds3)
    ensures
        box_contains(union_of(b1, b2), b1),
        box_contains(union_of(b1, b2), b2),
        forall|c: Bounds3| box_contains(c, b1) && box_contains(c, b2)
            ==> box_contains(c, union_of(b1, b2)),
{
}

/// A union with the empty sentinel yields the other box.
pub proof fn lemma_union_empty_identity(b: Bounds3, e: Bounds3)
    requires
        bounds_fits(b),
        e.p_min.x == COORD_MAX && e.p_min.y == COORD_MAX && e.p_min.z == COORD_MAX,
        e.p_max.x == -COORD_MAX && e.p_max.y == -COORD_MAX && e.p_max.z == -COORD_MAX,
    ensures
        union_of(e, b) == b,
        union_of(b, e) == b,
{
}

} // verus!
