//! Fixed-point scalar arithmetic: the number type of the renderer.
//!
//! A scalar is an `i64` carrying 16 fractional bits, so the integer `v`
//! stands for the real number `v / 65536`. Products and quotients are formed
//! in `i128` and rounded toward zero, except where a caller asks for floor or
//! ceiling rounding.

use vstd::prelude::*;

verus! {

/// One in fixed point: values carry 16 fractional bits.
pub const SCALE: i64 = 65536;

/// Magnitude bound on geometric coordinates, chosen so that a squared dot
/// product of three in-range coordinates still fits in `i128`.
pub const COORD_MAX: i64 = 1073741824;

/// A scalar small enough to take part in geometric arithmetic.
pub open spec fn fits(a: int) -> bool {
    -(COORD_MAX as int) <= a <= COORD_MAX as int
}

/// Quotient of `a` by `b` rounded toward zero, the rounding of machine
/// division; defined through Euclidean division on magnitudes.
pub open spec fn tdiv(a: int, b: int) -> int {
    if (a >= 0) == (b >= 0) {
        abs_of(a) / abs_of(b)
    } else {
        -(abs_of(a) / abs_of(b))
    }
}

pub open spec fn abs_of(a: int) -> int {
    if a >= 0 { a } else { -a }
}

pub open spec fn min_of(a: int, b: int) -> int {
    if a <= b { a } else { b }
}

pub open spec fn max_of(a: int, b: int) -> int {
    if a >= b { a } else { b }
}

/// Truncating division on `i128`, the semantics of machine division.
pub fn tdiv128(a: i128, b: i128) -> (q: i128)
    requires
        b != 0,
        a != i128::MIN,
        b != i128::MIN,
    ensures
        q == tdiv(a as int, b as int),
        abs_of(q as int) <= abs_of(a as int),
{
    let ua: u128 = if a >= 0 { a as u128 } else { (-a) as u128 };
    let ub: u128 = if b >= 0 { b as u128 } else { (-b) as u128 };
    let uq: u128 = ua / ub;
    proof {
        assert(ua == abs_of(a as int));
        assert(ub == abs_of(b as int));
        assert(ua / ub <= ua) by (nonlinear_arith)
            requires ub >= 1,
        ;
    }
    if (a >= 0) == (b >= 0) {
        uq as i128
    } else {
        -(uq as i128)
    }
}

/// Floor division on `i128` for a positive divisor; agrees with the
/// mathematical quotient `a / b`.
pub fn fdiv128(a: i128, b: i128) -> (q: i128)
    requires
        0 < b,
        a != i128::MIN,
    ensures
        q == a as int / b as int,
        abs_of(q as int) <= abs_of(a as int),
{
    let ub: u128 = b as u128;
    if a >= 0 {
        let uq: u128 = (a as u128) / ub;
        proof {
            assert(uq <= a as u128) by (nonlinear_arith)
                requires ub >= 1, uq == (a as u128) / ub,
            ;
        }
        uq as i128
    } else {
        let ua: u128 = (-a) as u128;
        let uq: u128 = ua / ub;
        let ur: u128 = ua % ub;
        proof {
            vstd::arithmetic::div_mod::lemma_fundamental_div_mod(ua as int, ub as int);
            assert(ua as int == ub as int * uq as int + ur as int);
            if ur == 0 {
                assert(a as int == b as int * (-(uq as int)) + 0) by (nonlinear_arith)
                    requires
                        ua as int == ub as int * uq as int + ur as int,
                        ur == 0,
                        a as int == -(ua as int),
                        b as int == ub as int,
                ;
                vstd::arithmetic::div_mod::lemma_fundamental_div_mod_converse(
                    a as int, b as int, -(uq as int), 0);
            } else {
                assert(a as int == b as int * (-(uq as int) - 1) + (ub as int - ur as int)) by (nonlinear_arith)
                    requires
                        ua as int == ub as int * uq as int + ur as int,
                        a as int == -(ua as int),
                        b as int == ub as int,
                ;
                vstd::arithmetic::div_mod::lemma_fundamental_div_mod_converse(
                    a as int, b as int, -(uq as int) - 1, ub as int - ur as int);
                assert(uq as int + 1 <= ua as int) by (nonlinear_arith)
                    requires
                        ua as int == ub as int * uq as int + ur as int,
                        ub >= 2,
                        0 < ur as int,
                        (ur as int) < ub as int,
                ;
            }
        }
        if ur == 0 {
            -(uq as i128)
        } else {
            -(uq as i128) - 1
        }
    }
}

/// Ceiling division on `i128` for a positive divisor; agrees with the
/// negated floor quotient of the negated dividend.
pub fn cdiv128(a: i128, b: i128) -> (q: i128)
    requires
        0 < b,
        a != i128::MIN,
        -a != i128::MIN,
    ensures
        q == -((-a) as int / b as int),
        abs_of(q as int) <= abs_of(a as int),
{
    let n = fdiv128(-a, b);
    -n
}

/// The magnitude of a product is bounded by the product of the bounds.
pub proof fn lemma_mul_le(a: int, b: int, ba: int, bb: int)
    requires
        abs_of(a) <= ba,
        abs_of(b) <= bb,
    ensures
        abs_of(a * b) <= ba * bb,
{
    assert(abs_of(a * b) <= ba * bb) by (nonlinear_arith)
        requires
            -ba <= a <= ba,
            -bb <= b <= bb,
    ;
}

/// Truncating division is monotone in the dividend for a positive divisor.
pub proof fn lemma_tdiv_mono(a: int, b: int, d: int)
    requires
        a <= b,
        d > 0,
    ensures
        tdiv(a, d) <= tdiv(b, d),
{
    if a >= 0 {
        vstd::arithmetic::div_mod::lemma_div_is_ordered(a, b, d);
    } else if b < 0 {
        vstd::arithmetic::div_mod::lemma_div_is_ordered(-b, -a, d);
    } else {
        vstd::arithmetic::div_mod::lemma_div_pos_is_pos(-a, d);
        vstd::arithmetic::div_mod::lemma_div_pos_is_pos(b, d);
    }
}

/// Scaling up then dividing by the scale is the identity.
pub proof fn lemma_tdiv_scale_id(a: int)
    ensures
        tdiv(a * SCALE as int, SCALE as int) == a,
{
    let aa = abs_of(a);
    assert(abs_of(a * SCALE as int) == aa * SCALE as int) by (nonlinear_arith)
        requires aa == abs_of(a), SCALE as int > 0,
    ;
    vstd::arithmetic::div_mod::lemma_div_multiples_vanish(aa, SCALE as int);
    assert((aa * SCALE as int) / SCALE as int == aa) by {
        assert(aa * SCALE as int == SCALE as int * aa) by (nonlinear_arith);
    }
}

/// Divide a double-scale intermediate by the scale, rounding toward zero.
pub fn div_by_scale(a: i128) -> (r: i64)
    requires
        abs_of(a as int) <= 0x40000000000000000000,
    ensures
        r == tdiv(a as int, SCALE as int),
        abs_of(r as int) <= abs_of(a as int) / SCALE as int,
        abs_of(r as int) <= 0x4000000000000000,
{
    let q = tdiv128(a, SCALE as i128);
    proof {
        assert(abs_of(q as int) == abs_of(a as int) / SCALE as int);
        vstd::arithmetic::div_mod::lemma_div_is_ordered(
            abs_of(a as int), 0x40000000000000000000, SCALE as int);
        assert(0x40000000000000000000int / SCALE as int == 0x4000000000000000int);
    }
    q as i64
}

/// Floor of the square root of a `u128`.
pub fn isqrt128(x: u128) -> (r: u128)
    ensures
        r * r <= x,
        (r as int + 1) * (r as int + 1) > x,
{
    let mut lo: u128 = 0;
    let mut hi: u128 = 0x1_0000_0000_0000_0000;
    proof {
        assert((0x1_0000_0000_0000_0000 as int) * (0x1_0000_0000_0000_0000 as int) > u128::MAX as int);
    }
    while lo + 1 < hi
        invariant
            lo < hi,
            hi <= 0x1_0000_0000_0000_0000,
            lo * lo <= x,
            (hi as int) * (hi as int) > x as int,
        decreases hi - lo,
    {
        let mid = lo + (hi - lo) / 2;
        proof {
            assert(mid < 0x1_0000_0000_0000_0000);
            assert((mid as int) * (mid as int) <= (0xffff_ffff_ffff_ffff as int) * (0xffff_ffff_ffff_ffff as int)) by (nonlinear_arith)
                requires 0 <= mid as int <= 0xffff_ffff_ffff_ffff as int,
            ;
            assert((0xffff_ffff_ffff_ffff as int) * (0xffff_ffff_ffff_ffff as int) <= u128::MAX as int);
        }
        if mid * mid <= x {
            lo = mid;
        } else {
            hi = mid;
        }
    }
    lo
}

} // verus!
