//! Rays: an origin and a direction, both fixed-point vectors.

use vstd::prelude::*;
use crate::fixed::{SCALE, abs_of, tdiv};
use crate::fixed::{div_by_scale, lemma_mul_le};
use crate::vector::{Vector3, Point3, vabs_le};

verus! {

#[derive(Clone, Copy, Debug, PartialEq, Eq, Structural)]
pub struct Ray {
    pub origin: Point3,
    pub direction: Vector3,
}

/// Component `x` of the point at parameter `t` along the ray.
pub open spec fn at_x(ray: Ray, t: int) -> int {
    ray.origin.x + tdiv(ray.direction.x * t, SCALE as int)
}

pub open spec fn at_y(ray: Ray, t: int) -> int {
    ray.origin.y + tdiv(ray.direction.y * t, SCALE as int)
}

pub open spec fn at_z(ray: Ray, t: int) -> int {
    ray.origin.z + tdiv(ray.direction.z * t, SCALE as int)
}

impl Ray {
    pub fn new(origin: Point3, direction: Vector3) -> (r: Ray)
        ensures
            r == (Ray { origin, direction }),
    {
        Ray { origin, direction }
    }

    /// The point at parameter `t` along the ray, rounded toward zero.
    pub fn at(&self, t: i64) -> (r: Point3)
        requires
            vabs_le(self.origin, 0x2000000000000000),
            vabs_le(self.direction, 0x20000),
            abs_of(t as int) <= 0x400000000000,
        ensures
            r.x == at_x(*self, t as int),
            r.y == at_y(*self, t as int),
            r.z == at_z(*self, t as int),
    {
        proof {
            lemma_mul_le(self.direction.x as int, t as int, 0x20000, 0x400000000000);
            lemma_mul_le(self.direction.y as int, t as int, 0x20000, 0x400000000000);
            lemma_mul_le(self.direction.z as int, t as int, 0x20000, 0x400000000000);
        }
        Point3 {
            x: self.origin.x + div_by_scale(self.direction.x as i128 * t as i128),
            y: self.origin.y + div_by_scale(self.direction.y as i128 * t as i128),
            z: self.origin.z + div_by_scale(self.direction.z as i128 * t as i128),
        }
    }
}

} // verus!
