//! Three-component fixed-point vectors, used for points, directions and
//! colors. Every operation's contract gives the exact integer result,
//! including the rounding of the scale divisions.

use vstd::prelude::*;
use crate::fixed::{SCALE, abs_of, tdiv, min_of, max_of};
use crate::fixed::{tdiv128, isqrt128, div_by_scale, lemma_mul_le};

verus! {

#[derive(Clone, Copy, Debug, PartialEq, Eq, Structural)]
pub struct Vector3 {
    pub x: i64,
    pub y: i64,
    pub z: i64,
}

/// Colors are vectors whose components are linear red, green and blue.
pub type Color3 = Vector3;

/// Points share the vector representation.
pub type Point3 = Vector3;

/// Every component's magnitude is at most `b`.
pub open spec fn vabs_le(v: Vector3, b: int) -> bool {
    &&& abs_of(v.x as int) <= b
    &&& abs_of(v.y as int) <= b
    &&& abs_of(v.z as int) <= b
}

/// The exact (unscaled) dot product: a value at twice the fixed-point scale.
pub open spec fn dot2_of(u: Vector3, v: Vector3) -> int {
    u.x * v.x + u.y * v.y + u.z * v.z
}

impl Vector3 {
    pub fn new(x: i64, y: i64, z: i64) -> (r: Vector3)
        ensures
            r == (Vector3 { x, y, z }),
    {
        Vector3 { x, y, z }
    }

    pub fn plus(self, rhs: Vector3) -> (r: Vector3)
        requires
            vabs_le(self, 0x2000000000000000),
            vabs_le(rhs, 0x2000000000000000),
        ensures
            r.x == self.x + rhs.x,
            r.y == self.y + rhs.y,
            r.z == self.z + rhs.z,
    {
        Vector3 { x: self.x + rhs.x, y: self.y + rhs.y, z: self.z + rhs.z }
    }

    pub fn minus(self, rhs: Vector3) -> (r: Vector3)
        requires
            vabs_le(self, 0x2000000000000000),
            vabs_le(rhs, 0x2000000000000000),
        ensures
            r.x == self.x - rhs.x,
            r.y == self.y - rhs.y,
            r.z == self.z - rhs.z,
    {
        Vector3 { x: self.x - rhs.x, y: self.y - rhs.y, z: self.z - rhs.z }
    }

    pub fn negated(self) -> (r: Vector3)
        requires
            vabs_le(self, 0x2000000000000000),
        ensures
            r.x == -self.x,
            r.y == -self.y,
            r.z == -self.z,
    {
        Vector3 { x: -self.x, y: -self.y, z: -self.z }
    }

    /// Scale by the fixed-point factor `k`, rounding each component toward
    /// zero.
    pub fn times(self, k: i64) -> (r: Vector3)
        requires
            abs_of(self.x * k) <= 0x40000000000000000000,
            abs_of(self.y * k) <= 0x40000000000000000000,
            abs_of(self.z * k) <= 0x40000000000000000000,
        ensures
            r.x == tdiv(self.x * k, SCALE as int),
            r.y == tdiv(self.y * k, SCALE as int),
            r.z == tdiv(self.z * k, SCALE as int),
    {
        Vector3 {
            x: div_by_scale(self.x as i128 * k as i128),
            y: div_by_scale(self.y as i128 * k as i128),
            z: div_by_scale(self.z as i128 * k as i128),
        }
    }

    /// Componentwise fixed-point product, the color modulation operation.
    pub fn hadamard(self, rhs: Vector3) -> (r: Vector3)
        requires
            abs_of(self.x * rhs.x) <= 0x40000000000000000000,
            abs_of(self.y * rhs.y) <= 0x40000000000000000000,
            abs_of(self.z * rhs.z) <= 0x40000000000000000000,
        ensures
            r.x == tdiv(self.x * rhs.x, SCALE as int),
            r.y == tdiv(self.y * rhs.y, SCALE as int),
            r.z == tdiv(self.z * rhs.z, SCALE as int),
    {
        Vector3 {
            x: div_by_scale(self.x as i128 * rhs.x as i128),
            y: div_by_scale(self.y as i128 * rhs.y as i128),
            z: div_by_scale(self.z as i128 * rhs.z as i128),
        }
    }

    /// Unscaled dot product; exact, no rounding.
    pub fn dot2(u: &Vector3, v: &Vector3) -> (r: i128)
        requires
            abs_of(u.x * v.x) <= 0x400000000000000000000000,
            abs_of(u.y * v.y) <= 0x400000000000000000000000,
            abs_of(u.z * v.z) <= 0x400000000000000000000000,
        ensures
            r == dot2_of(*u, *v),
    {
        u.x as i128 * v.x as i128 + u.y as i128 * v.y as i128 + u.z as i128 * v.z as i128
    }

    /// Fixed-point dot product, rounded toward zero.
    pub fn dot(u: &Vector3, v: &Vector3) -> (r: i64)
        requires
            abs_of(u.x * v.x) <= 0x10000000000000000000,
            abs_of(u.y * v.y) <= 0x10000000000000000000,
            abs_of(u.z * v.z) <= 0x10000000000000000000,
        ensures
            r == tdiv(dot2_of(*u, *v), SCALE as int),
    {
        div_by_scale(Vector3::dot2(u, v))
    }

    pub fn cross(u: &Vector3, v: &Vector3) -> (r: Vector3)
        requires
            vabs_le(*u, 0x2000000000),
            vabs_le(*v, 0x2000000000),
        ensures
            r.x == tdiv(u.y * v.z - u.z * v.y, SCALE as int),
            r.y == tdiv(u.z * v.x - u.x * v.z, SCALE as int),
            r.z == tdiv(u.x * v.y - u.y * v.x, SCALE as int),
            r == cross_of(*u, *v),
    {
        proof {
            lemma_mul_le(u.y as int, v.z as int, 0x2000000000, 0x2000000000);
            lemma_mul_le(u.z as int, v.y as int, 0x2000000000, 0x2000000000);
            lemma_mul_le(u.z as int, v.x as int, 0x2000000000, 0x2000000000);
            lemma_mul_le(u.x as int, v.z as int, 0x2000000000, 0x2000000000);
            lemma_mul_le(u.x as int, v.y as int, 0x2000000000, 0x2000000000);
            lemma_mul_le(u.y as int, v.x as int, 0x2000000000, 0x2000000000);
        }
        Vector3 {
            x: div_by_scale(u.y as i128 * v.z as i128 - u.z as i128 * v.y as i128),
            y: div_by_scale(u.z as i128 * v.x as i128 - u.x as i128 * v.z as i128),
            z: div_by_scale(u.x as i128 * v.y as i128 - u.y as i128 * v.x as i128),
        }
    }

    pub fn length_squared(&self) -> (r: i64)
        requires
            abs_of(self.x * self.x) <= 0x10000000000000000000,
            abs_of(self.y * self.y) <= 0x10000000000000000000,
            abs_of(self.z * self.z) <= 0x10000000000000000000,
        ensures
            r == tdiv(dot2_of(*self, *self), SCALE as int),
    {
        Vector3::dot(self, self)
    }

    /// Fixed-point length: the floor square root of the unscaled
    /// self-dot-product, which carries twice the scale.
    pub fn length(&self) -> (r: i64)
        requires
            vabs_le(*self, 0x400000000000),
        ensures
            r >= 0,
            r * r <= dot2_of(*self, *self),
            (r + 1) * (r + 1) > dot2_of(*self, *self),
    {
        proof {
            lemma_dot2_self_bounds(*self, 0x400000000000);
        }
        let d2 = Vector3::dot2(self, self);
        let r = isqrt128(d2 as u128);
        proof {
            assert(r as int <= 0x700000000000) by (nonlinear_arith)
                requires
                    r as int * r as int <= d2 as int,
                    d2 as int <= 3 * (0x400000000000 * 0x400000000000),
                    r >= 0,
            ;
        }
        r as i64
    }

    /// Scale to (fixed-point) unit length, rounding toward zero. The result's
    /// components are bounded by one.
    pub fn unit_vector(v: Vector3) -> (r: Vector3)
        requires
            vabs_le(v, 0x400000000000),
            dot2_of(v, v) >= 1,
        ensures
            ({
                let len = v.length_of();
                &&& r.x == tdiv(v.x * SCALE, len)
                &&& r.y == tdiv(v.y * SCALE, len)
                &&& r.z == tdiv(v.z * SCALE, len)
            }),
            r == unit_of(v),
            vabs_le(r, SCALE as int),
            v.length_of() >= 1,
            v.length_of() * v.length_of() <= dot2_of(v, v),
            (v.length_of() + 1) * (v.length_of() + 1) > dot2_of(v, v),
    {
        let len = v.length();
        proof {
            lemma_isqrt_unique(dot2_of(v, v), len as int);
            lemma_component_le_length(v);
            lemma_mul_le(v.x as int, SCALE as int, 0x400000000000, SCALE as int);
            lemma_mul_le(v.y as int, SCALE as int, 0x400000000000, SCALE as int);
            lemma_mul_le(v.z as int, SCALE as int, 0x400000000000, SCALE as int);
        }
        let r = Vector3 {
            x: tdiv128(v.x as i128 * SCALE as i128, len as i128) as i64,
            y: tdiv128(v.y as i128 * SCALE as i128, len as i128) as i64,
            z: tdiv128(v.z as i128 * SCALE as i128, len as i128) as i64,
        };
        proof {
            lemma_unit_component_bounded(v.x as int, len as int);
            lemma_unit_component_bounded(v.y as int, len as int);
            lemma_unit_component_bounded(v.z as int, len as int);
        }
        r
    }

    /// The length value `unit_vector` divides by.
    pub open spec fn length_of(self) -> int {
        isqrt_of(dot2_of(self, self))
    }

    /// In fixed point the smallest representable magnitude is one ulp, so a
    /// vector is near zero exactly when it is zero.
    pub fn near_zero(&self) -> (r: bool)
        ensures
            r == (self.x == 0 && self.y == 0 && self.z == 0),
    {
        self.x == 0 && self.y == 0 && self.z == 0
    }

    /// Mirror `v` about the plane with normal `n`.
    pub fn reflect(v: &Vector3, n: &Vector3) -> (r: Vector3)
        requires
            vabs_le(*v, 2 * SCALE as int),
            vabs_le(*n, 2 * SCALE as int),
        ensures
            r.x == v.x - tdiv(2 * dot2_of(*v, *n) * n.x, SCALE as int * SCALE as int),
            r.y == v.y - tdiv(2 * dot2_of(*v, *n) * n.y, SCALE as int * SCALE as int),
            r.z == v.z - tdiv(2 * dot2_of(*v, *n) * n.z, SCALE as int * SCALE as int),
    {
        proof {
            lemma_mul_le(v.x as int, n.x as int, 131072, 131072);
            lemma_mul_le(v.y as int, n.y as int, 131072, 131072);
            lemma_mul_le(v.z as int, n.z as int, 131072, 131072);
        }
        let d2 = Vector3::dot2(v, n);
        proof {
            assert(abs_of(2 * d2 as int) <= 103079215104);
            lemma_mul_le(2 * d2 as int, n.x as int, 103079215104, 131072);
            lemma_mul_le(2 * d2 as int, n.y as int, 103079215104, 131072);
            lemma_mul_le(2 * d2 as int, n.z as int, 103079215104, 131072);
        }
        let s2 = SCALE as i128 * SCALE as i128;
        Vector3 {
            x: v.x - tdiv128(2 * d2 * n.x as i128, s2) as i64,
            y: v.y - tdiv128(2 * d2 * n.y as i128, s2) as i64,
            z: v.z - tdiv128(2 * d2 * n.z as i128, s2) as i64,
        }
    }
}

/// Component `k` of a vector, axes numbered x, y, z.
pub open spec fn axis_of(v: Vector3, k: int) -> int {
    if k == 0 {
        v.x as int
    } else if k == 1 {
        v.y as int
    } else {
        v.z as int
    }
}

impl Vector3 {
    /// Indexed component access.
    pub fn axis(&self, k: usize) -> (r: i64)
        requires
            k < 3,
        ensures
            r == axis_of(*self, k as int),
    {
        if k == 0 {
            self.x
        } else if k == 1 {
            self.y
        } else {
            self.z
        }
    }
}

/// Bounds on the self dot product from a componentwise bound.
proof fn lemma_dot2_self_bounds(v: Vector3, b: int)
    requires
        vabs_le(v, b),
        b >= 0,
    ensures
        0 <= dot2_of(v, v) <= 3 * (b * b),
        abs_of(v.x * v.x) <= b * b,
        abs_of(v.y * v.y) <= b * b,
        abs_of(v.z * v.z) <= b * b,
{
    lemma_mul_le(v.x as int, v.x as int, b, b);
    lemma_mul_le(v.y as int, v.y as int, b, b);
    lemma_mul_le(v.z as int, v.z as int, b, b);
    assert(v.x * v.x >= 0) by (nonlinear_arith);
    assert(v.y * v.y >= 0) by (nonlinear_arith);
    assert(v.z * v.z >= 0) by (nonlinear_arith);
}

/// The unit-scaled vector, as `unit_vector` computes it.
pub open spec fn unit_of(v: Vector3) -> Vector3 {
    let len = isqrt_of(dot2_of(v, v));
    Vector3 {
        x: tdiv(v.x * SCALE as int, len) as i64,
        y: tdiv(v.y * SCALE as int, len) as i64,
        z: tdiv(v.z * SCALE as int, len) as i64,
    }
}

/// The cross product, as `cross` computes it.
pub open spec fn cross_of(u: Vector3, v: Vector3) -> Vector3 {
    Vector3 {
        x: tdiv(u.y * v.z - u.z * v.y, SCALE as int) as i64,
        y: tdiv(u.z * v.x - u.x * v.z, SCALE as int) as i64,
        z: tdiv(u.x * v.y - u.y * v.x, SCALE as int) as i64,
    }
}

/// A normalized vector keeps at least half a unit of length: some
/// component carries at least half the norm, and scaling it up keeps it at
/// or above one half.
pub proof fn lemma_unit_dot2(v: Vector3)
    requires
        vabs_le(v, 0x400000000000),
        dot2_of(v, v) >= 1,
        v.length_of() * v.length_of() <= dot2_of(v, v),
        (v.length_of() + 1) * (v.length_of() + 1) > dot2_of(v, v),
        v.length_of() >= 0,
    ensures
        dot2_of(unit_of(v), unit_of(v)) >= 0x40000000,
{
    let len = v.length_of();
    lemma_component_le_length(v);
    let ax = abs_of(v.x as int);
    let ay = abs_of(v.y as int);
    let az = abs_of(v.z as int);
    let mx = if ax >= ay && ax >= az { ax } else if ay >= az { ay } else { az };
    assert(dot2_of(v, v) <= 3 * (mx * mx)) by (nonlinear_arith)
        requires
            dot2_of(v, v) == v.x * v.x + v.y * v.y + v.z * v.z,
            ax == abs_of(v.x as int),
            ay == abs_of(v.y as int),
            az == abs_of(v.z as int),
            mx == (if ax >= ay && ax >= az { ax } else if ay >= az { ay } else { az }),
    ;
    assert(2 * mx >= len) by (nonlinear_arith)
        requires
            len * len <= dot2_of(v, v),
            dot2_of(v, v) <= 3 * (mx * mx),
            len >= 1,
            mx >= 0,
    ;
    // The matching unit component is at least half the scale.
    assert(mx * SCALE as int >= len * 32768) by (nonlinear_arith)
        requires 2 * mx >= len, SCALE as int == 65536,
    ;
    vstd::arithmetic::div_mod::lemma_div_is_ordered(len * 32768, mx * SCALE as int, len);
    assert((len * 32768) / len == 32768) by {
        vstd::arithmetic::div_mod::lemma_div_multiples_vanish(32768, len);
        assert(len * 32768 == 32768 * len) by (nonlinear_arith);
    }
    assert((mx * SCALE as int) / len >= 32768);
    let u = unit_of(v);
    assert(abs_of(u.x as int) == ax * SCALE as int / len
        && abs_of(u.y as int) == ay * SCALE as int / len
        && abs_of(u.z as int) == az * SCALE as int / len) by {
        assert(abs_of(v.x as int * SCALE as int) == ax * SCALE as int) by (nonlinear_arith)
            requires ax == abs_of(v.x as int), SCALE as int > 0,
        ;
        assert(abs_of(v.y as int * SCALE as int) == ay * SCALE as int) by (nonlinear_arith)
            requires ay == abs_of(v.y as int), SCALE as int > 0,
        ;
        assert(abs_of(v.z as int * SCALE as int) == az * SCALE as int) by (nonlinear_arith)
            requires az == abs_of(v.z as int), SCALE as int > 0,
        ;
    }
    let um = if mx == ax { abs_of(u.x as int) } else if mx == ay { abs_of(u.y as int) } else { abs_of(u.z as int) };
    assert(um >= 32768);
    assert(dot2_of(u, u) >= um * um) by (nonlinear_arith)
        requires
            dot2_of(u, u) == u.x * u.x + u.y * u.y + u.z * u.z,
            um == abs_of(u.x as int) || um == abs_of(u.y as int) || um == abs_of(u.z as int),
    ;
    assert(um * um >= 32768 * 32768) by (nonlinear_arith)
        requires um >= 32768,
    ;
}

/// The floor square root of a nonnegative integer.
pub open spec fn isqrt_of(x: int) -> int {
    choose|r: int| r >= 0 && #[trigger] (r * r) <= x && (r + 1) * (r + 1) > x
}

pub proof fn lemma_isqrt_unique(x: int, r: int)
    requires
        r >= 0,
        r * r <= x,
        (r + 1) * (r + 1) > x,
    ensures
        isqrt_of(x) == r,
{
    assert(exists|q: int| q >= 0 && #[trigger] (q * q) <= x && (q + 1) * (q + 1) > x) by {
        assert(r >= 0 && r * r <= x && (r + 1) * (r + 1) > x);
    }
    let q = isqrt_of(x);
    assert(q >= 0 && q * q <= x && (q + 1) * (q + 1) > x);
    if q < r {
        assert((q + 1) * (q + 1) <= r * r) by (nonlinear_arith)
            requires 0 <= q, q < r,
        ;
    }
    if r < q {
        assert((r + 1) * (r + 1) <= q * q) by (nonlinear_arith)
            requires 0 <= r, r < q,
        ;
    }
}

/// The floor square root exists for every nonnegative integer, so its
/// defining properties hold of `isqrt_of`.
pub proof fn lemma_isqrt_props(x: int)
    requires
        x >= 0,
    ensures
        isqrt_of(x) >= 0,
        isqrt_of(x) * isqrt_of(x) <= x,
        (isqrt_of(x) + 1) * (isqrt_of(x) + 1) > x,
    decreases x,
{
    if x == 0 {
        lemma_isqrt_unique(0, 0);
    } else {
        lemma_isqrt_props(x - 1);
        let r = isqrt_of(x - 1);
        if (r + 1) * (r + 1) <= x {
            assert((r + 1) * (r + 1) > x - 1);
            assert((r + 2) * (r + 2) > x) by (nonlinear_arith)
                requires r >= 0, (r + 1) * (r + 1) >= x,
            ;
            lemma_isqrt_unique(x, r + 1);
        } else {
            lemma_isqrt_unique(x, r);
        }
    }
}

proof fn lemma_component_le_length(v: Vector3)
    requires
        dot2_of(v, v) >= 1,
        v.length_of() * v.length_of() <= dot2_of(v, v),
        (v.length_of() + 1) * (v.length_of() + 1) > dot2_of(v, v),
        v.length_of() >= 0,
    ensures
        v.length_of() >= 1,
        abs_of(v.x as int) <= v.length_of(),
        abs_of(v.y as int) <= v.length_of(),
        abs_of(v.z as int) <= v.length_of(),
{
    let len = v.length_of();
    assert(len >= 1) by (nonlinear_arith)
        requires len >= 0, (len + 1) * (len + 1) > dot2_of(v, v), dot2_of(v, v) >= 1,
    ;
    let d2 = dot2_of(v, v);
    assert(d2 == v.x * v.x + v.y * v.y + v.z * v.z);
    assert(abs_of(v.x as int) <= len && abs_of(v.y as int) <= len && abs_of(v.z as int) <= len)
        by (nonlinear_arith)
        requires
            d2 == v.x * v.x + v.y * v.y + v.z * v.z,
            (len + 1) * (len + 1) > d2,
            len >= 0,
    ;
}

proof fn lemma_unit_component_bounded(x: int, len: int)
    requires
        len >= 1,
        abs_of(x) <= len,
    ensures
        abs_of(tdiv(x * SCALE as int, len)) <= SCALE as int,
{
    let ax = abs_of(x);
    let n = ax * SCALE as int;
    assert(n <= len * SCALE as int) by (nonlinear_arith)
        requires ax <= len, SCALE as int > 0, n == ax * SCALE as int,
    ;
    assert(n / len <= (len * SCALE as int) / len) by {
        vstd::arithmetic::div_mod::lemma_div_is_ordered(n, len * SCALE as int, len);
    }
    assert((len * SCALE as int) / len == SCALE as int) by {
        vstd::arithmetic::div_mod::lemma_div_multiples_vanish(SCALE as int, len);
    }
    assert(abs_of(x * SCALE as int) == n) by (nonlinear_arith)
        requires n == abs_of(x) * SCALE as int, SCALE as int > 0,
    ;
    assert(abs_of(tdiv(x * SCALE as int, len)) == n / len);
}

impl Color3 {
    /// Luminance with Rec. 709 weights, rounded toward zero.
    pub fn luminance(&self) -> (r: i64)
        requires
            vabs_le(*self, 0x4000000000),
        ensures
            r == tdiv(13933 * self.x + 46871 * self.y + 4732 * self.z, SCALE as int),
    {
        div_by_scale(
            13933 * self.x as i128 + 46871 * self.y as i128 + 4732 * self.z as i128,
        )
    }

    /// Average over the sample count, clamp to just below one, and expand to
    /// an eight-bit channel value, as the final image write does.
    pub fn to_rgb(self, samples_per_pixel: usize) -> (r: [u8; 3])
        requires
            samples_per_pixel >= 1,
            samples_per_pixel <= 0x7fffffff,
        ensures
            r[0] == channel_byte_of(self.x as int, samples_per_pixel as int),
            r[1] == channel_byte_of(self.y as int, samples_per_pixel as int),
            r[2] == channel_byte_of(self.z as int, samples_per_pixel as int),
    {
        [
            channel_byte(self.x, samples_per_pixel),
            channel_byte(self.y, samples_per_pixel),
            channel_byte(self.z, samples_per_pixel),
        ]
    }
}

/// An eight-bit channel: the scaled sample average clamped to `[0, 0.999]`
/// and widened by 256.
pub open spec fn channel_byte_of(v: int, spp: int) -> int {
    256 * min_of(max_of(tdiv(v, spp), 0), 65470) / SCALE as int
}

pub fn channel_byte(v: i64, spp: usize) -> (r: u8)
    requires
        spp >= 1,
        spp <= 0x7fffffff,
    ensures
        r == channel_byte_of(v as int, spp as int),
{
    let scaled = tdiv128(v as i128, spp as i128) as i64;
    let clamped: i64 = if scaled < 0 {
        0
    } else if scaled > 65470 {
        65470
    } else {
        scaled
    };
    let wide: u64 = 256 * clamped as u64;
    proof {
        vstd::arithmetic::div_mod::lemma_div_is_ordered(
            wide as int, 256int * 65470int, SCALE as int);
        assert((256int * 65470int) / SCALE as int == 255int);
        vstd::arithmetic::div_mod::lemma_div_pos_is_pos(wide as int, SCALE as int);
    }
    (wide / 65536) as u8
}

} // verus!
