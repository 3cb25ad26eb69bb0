//! Free vectors (directions, displacements, colors) over fixed-point
//! components, with exact integer contracts for every operation.
//!
//! A component holds a real value scaled by [`crate::num::SCALE`].
//! Rescaled products round towards minus infinity, except the cross
//! product, whose numerators round towards zero so that swapping its
//! operands negates the result exactly; each contract pins the rounding.

use vstd::prelude::*;

verus! {

use crate::num::BOUND;
use crate::num::SCALE;
use crate::num::div_floor;
use crate::num::div_trunc;
use crate::num::div_trunc_spec;
use crate::num::isqrt;
use crate::num::lemma_div_mag;
use crate::num::lemma_div_trunc_mag;
use crate::num::lemma_div_trunc_neg;
use crate::num::lemma_sqrt_floor_bounds;
use crate::num::lemma_sqrt_floor_le;
use crate::num::sqrt_floor;

/// Magnitude bound on a component of a rescaled product of two
/// well-formed vectors (`BOUND * BOUND / SCALE`, rounded up).
pub const PROD_BOUND: i64 = 2199023255552;

/// Magnitude bound on a component of a cross product of two well-formed
/// vectors (`2 * BOUND * BOUND / SCALE`, rounded up).
pub const CROSS_BOUND: i64 = 4398046511104;

/// A direction, displacement or color with fixed-point components.
#[derive(Clone, Copy, Debug, PartialEq, Eq, Structural)]
pub struct Vec3 {
    pub x: i64,
    pub y: i64,
    pub z: i64,
}

/// The raw dot product of two vectors, scaled by `SCALE * SCALE`.
pub open spec fn dot2(a: Vec3, b: Vec3) -> int {
    a.x * b.x + a.y * b.y + a.z * b.z
}

/// The fixed-point length of `v`: the rounded square root of the raw
/// squared length, which carries a single factor of `SCALE`.
pub open spec fn len_of(v: Vec3) -> int {
    sqrt_floor(dot2(v, v) as nat) as int
}

/// The cross product, each component's numerator rescaled towards zero.
pub open spec fn cross_of(a: Vec3, b: Vec3) -> Vec3 {
    Vec3 {
        x: div_trunc_spec(a.y * b.z - a.z * b.y, SCALE as int) as i64,
        y: div_trunc_spec(a.z * b.x - a.x * b.z, SCALE as int) as i64,
        z: div_trunc_spec(a.x * b.y - a.y * b.x, SCALE as int) as i64,
    }
}

impl Vec3 {
    /// All components within the global coordinate bound, so that every
    /// derived quantity in the crate fits its machine integer.
    pub open spec fn wf(self) -> bool {
        &&& -BOUND <= self.x <= BOUND
        &&& -BOUND <= self.y <= BOUND
        &&& -BOUND <= self.z <= BOUND
    }

    pub fn new(x: i64, y: i64, z: i64) -> (v: Vec3)
        ensures
            v == (Vec3 { x, y, z }),
    {
        Vec3 { x, y, z }
    }

    /// The unit color vector: one world unit in each component.
    pub fn ones() -> (v: Vec3)
        ensures
            v == (Vec3 { x: SCALE, y: SCALE, z: SCALE }),
    {
        Vec3 { x: SCALE, y: SCALE, z: SCALE }
    }

    pub fn zeros() -> (v: Vec3)
        ensures
            v == (Vec3 { x: 0i64, y: 0i64, z: 0i64 }),
    {
        Vec3 { x: 0, y: 0, z: 0 }
    }

    pub fn add(self, rhs: Vec3) -> (v: Vec3)
        requires
            i64::MIN <= self.x + rhs.x <= i64::MAX,
            i64::MIN <= self.y + rhs.y <= i64::MAX,
            i64::MIN <= self.z + rhs.z <= i64::MAX,
        ensures
            v.x == self.x + rhs.x,
            v.y == self.y + rhs.y,
            v.z == self.z + rhs.z,
    {
        Vec3 { x: self.x + rhs.x, y: self.y + rhs.y, z: self.z + rhs.z }
    }

    pub fn sub(self, rhs: Vec3) -> (v: Vec3)
        requires
            i64::MIN <= self.x - rhs.x <= i64::MAX,
            i64::MIN <= self.y - rhs.y <= i64::MAX,
            i64::MIN <= self.z - rhs.z <= i64::MAX,
        ensures
            v.x == self.x - rhs.x,
            v.y == self.y - rhs.y,
            v.z == self.z - rhs.z,
    {
        Vec3 { x: self.x - rhs.x, y: self.y - rhs.y, z: self.z - rhs.z }
    }

    pub fn neg(self) -> (v: Vec3)
        requires
            self.x > i64::MIN,
            self.y > i64::MIN,
            self.z > i64::MIN,
        ensures
            v.x == -self.x,
            v.y == -self.y,
            v.z == -self.z,
    {
        Vec3 { x: -self.x, y: -self.y, z: -self.z }
    }

    /// Multiplies by a fixed-point scalar, rescaling each product.
    pub fn scale(self, s: i64) -> (v: Vec3)
        requires
            self.wf(),
            -BOUND <= s <= BOUND,
        ensures
            v.x == s * self.x / (SCALE as int),
            v.y == s * self.y / (SCALE as int),
            v.z == s * self.z / (SCALE as int),
            -PROD_BOUND <= v.x <= PROD_BOUND,
            -PROD_BOUND <= v.y <= PROD_BOUND,
            -PROD_BOUND <= v.z <= PROD_BOUND,
    {
        proof {
            lemma_rescale_bound(s as int, self.x as int);
            lemma_rescale_bound(s as int, self.y as int);
            lemma_rescale_bound(s as int, self.z as int);
        }
        Vec3 {
            x: div_floor((s as i128) * (self.x as i128), SCALE as i128) as i64,
            y: div_floor((s as i128) * (self.y as i128), SCALE as i128) as i64,
            z: div_floor((s as i128) * (self.z as i128), SCALE as i128) as i64,
        }
    }

    /// Component-wise product of two colors, rescaled.
    pub fn mul(self, rhs: Vec3) -> (v: Vec3)
        requires
            self.wf(),
            rhs.wf(),
        ensures
            v.x == self.x * rhs.x / (SCALE as int),
            v.y == self.y * rhs.y / (SCALE as int),
            v.z == self.z * rhs.z / (SCALE as int),
            -PROD_BOUND <= v.x <= PROD_BOUND,
            -PROD_BOUND <= v.y <= PROD_BOUND,
            -PROD_BOUND <= v.z <= PROD_BOUND,
    {
        proof {
            lemma_rescale_bound(self.x as int, rhs.x as int);
            lemma_rescale_bound(self.y as int, rhs.y as int);
            lemma_rescale_bound(self.z as int, rhs.z as int);
        }
        Vec3 {
            x: div_floor((self.x as i128) * (rhs.x as i128), SCALE as i128) as i64,
            y: div_floor((self.y as i128) * (rhs.y as i128), SCALE as i128) as i64,
            z: div_floor((self.z as i128) * (rhs.z as i128), SCALE as i128) as i64,
        }
    }

    /// The raw dot product, scaled by `SCALE * SCALE`.
    pub fn dot(&self, rhs: Vec3) -> (r: i128)
        requires
            self.wf(),
            rhs.wf(),
        ensures
            r == dot2(*self, rhs),
    {
        proof {
            lemma_prod_bound(self.x as int, rhs.x as int, BOUND as int);
            lemma_prod_bound(self.y as int, rhs.y as int, BOUND as int);
            lemma_prod_bound(self.z as int, rhs.z as int, BOUND as int);
        }
        (self.x as i128) * (rhs.x as i128) + (self.y as i128) * (rhs.y as i128) + (self.z as i128)
            * (rhs.z as i128)
    }

    /// The raw squared length, scaled by `SCALE * SCALE`; never negative.
    pub fn squared_length(&self) -> (r: i128)
        requires
            self.wf(),
        ensures
            r == dot2(*self, *self),
            r >= 0,
    {
        proof {
            lemma_prod_bound(self.x as int, self.x as int, BOUND as int);
            lemma_prod_bound(self.y as int, self.y as int, BOUND as int);
            lemma_prod_bound(self.z as int, self.z as int, BOUND as int);
            lemma_dot2_self_nonneg(*self);
        }
        (self.x as i128) * (self.x as i128) + (self.y as i128) * (self.y as i128) + (self.z as i128)
            * (self.z as i128)
    }

    /// The fixed-point length: the rounded square root of the raw squared
    /// length, which carries one factor of `SCALE`.
    pub fn length(&self) -> (r: i64)
        requires
            self.wf(),
        ensures
            r == len_of(*self),
            0 <= r <= 4 * BOUND,
    {
        let sq = self.squared_length();
        proof {
            lemma_prod_bound(self.x as int, self.x as int, BOUND as int);
            lemma_prod_bound(self.y as int, self.y as int, BOUND as int);
            lemma_prod_bound(self.z as int, self.z as int, BOUND as int);
            assert((4 * BOUND as int + 1) * (4 * BOUND as int + 1) > 3 * (BOUND as int
                * BOUND as int)) by (nonlinear_arith)
                requires
                    BOUND == 1073741824i64,
            ;
            lemma_sqrt_floor_le((dot2(*self, *self)) as nat, (4 * BOUND) as nat);
        }
        isqrt(sq as u128) as i64
    }

    /// The cross product.  Its numerators are rescaled rounding towards
    /// zero, so that swapping the operands negates the result exactly.
    pub fn cross(&self, rhs: Vec3) -> (v: Vec3)
        requires
            self.wf(),
            rhs.wf(),
        ensures
            v == cross_of(*self, rhs),
            -CROSS_BOUND <= v.x <= CROSS_BOUND,
            -CROSS_BOUND <= v.y <= CROSS_BOUND,
            -CROSS_BOUND <= v.z <= CROSS_BOUND,
    {
        proof {
            lemma_cross_component_bound(self.y as int, rhs.z as int, self.z as int, rhs.y as int);
            lemma_cross_component_bound(self.z as int, rhs.x as int, self.x as int, rhs.z as int);
            lemma_cross_component_bound(self.x as int, rhs.y as int, self.y as int, rhs.x as int);
        }
        Vec3 {
            x: div_trunc(
                (self.y as i128) * (rhs.z as i128) - (self.z as i128) * (rhs.y as i128),
                SCALE as i128,
            ) as i64,
            y: div_trunc(
                (self.z as i128) * (rhs.x as i128) - (self.x as i128) * (rhs.z as i128),
                SCALE as i128,
            ) as i64,
            z: div_trunc(
                (self.x as i128) * (rhs.y as i128) - (self.y as i128) * (rhs.x as i128),
                SCALE as i128,
            ) as i64,
        }
    }

    /// Rescales to unit length, rounding each component towards minus
    /// infinity.  The caller must not normalize a zero vector.  For inputs
    /// of only a few ticks the rounding is coarse and the result can be
    /// far from unit length; the contract states the exact quotients and
    /// the `2 * SCALE` component bound, and nothing finer.
    pub fn normalize(&self) -> (v: Vec3)
        requires
            self.wf(),
            dot2(*self, *self) > 0,
        ensures
            v.x == self.x * SCALE / len_of(*self),
            v.y == self.y * SCALE / len_of(*self),
            v.z == self.z * SCALE / len_of(*self),
            -2 * SCALE <= v.x <= 2 * SCALE,
            -2 * SCALE <= v.y <= 2 * SCALE,
            -2 * SCALE <= v.z <= 2 * SCALE,
            len_of(*self) >= 1,
    {
        let len = self.length();
        proof {
            lemma_len_positive(*self);
            lemma_normalized_component_bound(*self, self.x as int);
            lemma_normalized_component_bound(*self, self.y as int);
            lemma_normalized_component_bound(*self, self.z as int);
        }
        Vec3 {
            x: div_floor((self.x as i128) * (SCALE as i128), len as i128) as i64,
            y: div_floor((self.y as i128) * (SCALE as i128), len as i128) as i64,
            z: div_floor((self.z as i128) * (SCALE as i128), len as i128) as i64,
        }
    }

    /// Mirror reflection about `n`: the fixed-point rounding of
    /// `v - 2 (v . n) n`.
    pub fn reflect(&self, n: Vec3) -> (v: Vec3)
        requires
            self.wf(),
            n.wf(),
        ensures
            v.x == self.x - 2 * dot2(*self, n) * n.x / (SCALE as int * SCALE as int),
            v.y == self.y - 2 * dot2(*self, n) * n.y / (SCALE as int * SCALE as int),
            v.z == self.z - 2 * dot2(*self, n) * n.z / (SCALE as int * SCALE as int),
            -0x200000000000000 <= v.x <= 0x200000000000000,
            -0x200000000000000 <= v.y <= 0x200000000000000,
            -0x200000000000000 <= v.z <= 0x200000000000000,
    {
        let d = self.dot(n);
        proof {
            lemma_reflect_bounds(*self, n, n.x as int);
            lemma_reflect_bounds(*self, n, n.y as int);
            lemma_reflect_bounds(*self, n, n.z as int);
        }
        Vec3 {
            x: self.x - div_floor(2 * d * (n.x as i128), (SCALE as i128) * (SCALE as i128)) as i64,
            y: self.y - div_floor(2 * d * (n.y as i128), (SCALE as i128) * (SCALE as i128)) as i64,
            z: self.z - div_floor(2 * d * (n.z as i128), (SCALE as i128) * (SCALE as i128)) as i64,
        }
    }
}

/// Reflection about an exactly unit normal flips the normal component of
/// the reflected vector and keeps the tangential part: stated on the exact
/// (pre-rounding) reflected vector, whose components are scaled up by
/// `SCALE * SCALE` to stay in integers.
pub proof fn lemma_reflect_flips_normal_component(v: Vec3, n: Vec3)
    requires
        dot2(n, n) == SCALE as int * SCALE as int,
    ensures
        (v.x * (SCALE as int * SCALE as int) - 2 * dot2(v, n) * n.x) * n.x + (v.y * (SCALE as int
            * SCALE as int) - 2 * dot2(v, n) * n.y) * n.y + (v.z * (SCALE as int * SCALE as int) - 2
            * dot2(v, n) * n.z) * n.z == -(dot2(v, n) * (SCALE as int * SCALE as int)),
{
    let s2 = SCALE as int * SCALE as int;
    let d = dot2(v, n);
    assert((v.x * s2 - 2 * d * n.x) * n.x == v.x * n.x * s2 - 2 * d * (n.x * n.x))
        by (nonlinear_arith);
    assert((v.y * s2 - 2 * d * n.y) * n.y == v.y * n.y * s2 - 2 * d * (n.y * n.y))
        by (nonlinear_arith);
    assert((v.z * s2 - 2 * d * n.z) * n.z == v.z * n.z * s2 - 2 * d * (n.z * n.z))
        by (nonlinear_arith);
    assert(v.x * n.x * s2 + v.y * n.y * s2 + v.z * n.z * s2 == d * s2) by (nonlinear_arith)
        requires
            d == v.x * n.x + v.y * n.y + v.z * n.z,
    ;
    assert(2 * d * (n.x * n.x) + 2 * d * (n.y * n.y) + 2 * d * (n.z * n.z) == 2 * (d * s2))
        by (nonlinear_arith)
        requires
            n.x * n.x + n.y * n.y + n.z * n.z == s2,
    ;
}

/// For an exactly unit normal, the exact (pre-rounding) reflection keeps
/// the tangential part: removing each vector's normal component leaves
/// the same tangential vector, up to the common `SCALE^2` scaling.
pub proof fn lemma_reflect_keeps_tangential_part(v: Vec3, n: Vec3)
    requires
        dot2(n, n) == SCALE as int * SCALE as int,
    ensures
        ({
            let s2 = SCALE as int * SCALE as int;
            let d = dot2(v, n);
            let rx = v.x * s2 - 2 * d * n.x;
            let ry = v.y * s2 - 2 * d * n.y;
            let rz = v.z * s2 - 2 * d * n.z;
            let rn = rx * n.x + ry * n.y + rz * n.z;
            &&& rn == -(d * s2)
            &&& rx * s2 - rn * n.x == s2 * (v.x * s2 - d * n.x)
            &&& ry * s2 - rn * n.y == s2 * (v.y * s2 - d * n.y)
            &&& rz * s2 - rn * n.z == s2 * (v.z * s2 - d * n.z)
        }),
{
    lemma_reflect_flips_normal_component(v, n);
    let s2 = SCALE as int * SCALE as int;
    let d = dot2(v, n);
    let rx = v.x * s2 - 2 * d * n.x;
    let ry = v.y * s2 - 2 * d * n.y;
    let rz = v.z * s2 - 2 * d * n.z;
    let rn = rx * n.x + ry * n.y + rz * n.z;
    assert(rx * s2 - rn * n.x == s2 * (v.x * s2 - d * n.x)) by (nonlinear_arith)
        requires
            rn == -(d * s2),
            rx == v.x * s2 - 2 * d * n.x,
    ;
    assert(ry * s2 - rn * n.y == s2 * (v.y * s2 - d * n.y)) by (nonlinear_arith)
        requires
            rn == -(d * s2),
            ry == v.y * s2 - 2 * d * n.y,
    ;
    assert(rz * s2 - rn * n.z == s2 * (v.z * s2 - d * n.z)) by (nonlinear_arith)
        requires
            rn == -(d * s2),
            rz == v.z * s2 - 2 * d * n.z,
    ;
}

/// Swapping the cross product's operands negates every component exactly:
/// the truncating rescale commutes with the negation of the numerators.
pub proof fn lemma_cross_antisymmetric(a: Vec3, b: Vec3)
    requires
        a.wf(),
        b.wf(),
    ensures
        cross_of(a, b).x == -cross_of(b, a).x,
        cross_of(a, b).y == -cross_of(b, a).y,
        cross_of(a, b).z == -cross_of(b, a).z,
{
    assert(a.y * b.z - a.z * b.y == -(b.y * a.z - b.z * a.y) && a.z * b.x - a.x * b.z == -(b.z * a.x
        - b.x * a.z) && a.x * b.y - a.y * b.x == -(b.x * a.y - b.y * a.x)) by (nonlinear_arith);
    lemma_div_trunc_neg(b.y * a.z - b.z * a.y, SCALE as int);
    lemma_div_trunc_neg(b.z * a.x - b.x * a.z, SCALE as int);
    lemma_div_trunc_neg(b.x * a.y - b.y * a.x, SCALE as int);
    lemma_cross_component_bound(a.y as int, b.z as int, a.z as int, b.y as int);
    lemma_cross_component_bound(a.z as int, b.x as int, a.x as int, b.z as int);
    lemma_cross_component_bound(a.x as int, b.y as int, a.y as int, b.x as int);
    lemma_cross_component_bound(b.y as int, a.z as int, b.z as int, a.y as int);
    lemma_cross_component_bound(b.z as int, a.x as int, b.x as int, a.z as int);
    lemma_cross_component_bound(b.x as int, a.y as int, b.y as int, a.x as int);
}

/// The cross product of a vector with itself is the zero vector.
pub proof fn lemma_cross_self_zero(a: Vec3)
    ensures
        cross_of(a, a) == (Vec3 { x: 0i64, y: 0i64, z: 0i64 }),
{
    assert(a.y * a.z - a.z * a.y == 0 && a.z * a.x - a.x * a.z == 0 && a.x * a.y - a.y * a.x == 0)
        by (nonlinear_arith);
    lemma_div_trunc_neg(0, SCALE as int);
}

/// Bound on a product of bounded factors.
pub(crate) proof fn lemma_prod_bound(p: int, q: int, m: int)
    requires
        -m <= p <= m,
        -m <= q <= m,
        m >= 0,
    ensures
        -(m * m) <= p * q <= m * m,
{
    assert(-(m * m) <= p * q <= m * m) by (nonlinear_arith)
        requires
            -m <= p <= m,
            -m <= q <= m,
            m >= 0,
    ;
}

/// Bound on a product of factors with separate bounds.
pub(crate) proof fn lemma_prod_bound2(p: int, q: int, mp: int, mq: int)
    requires
        -mp <= p <= mp,
        -mq <= q <= mq,
        mp >= 0,
        mq >= 0,
    ensures
        -(mp * mq) <= p * q <= mp * mq,
{
    assert(-(mp * mq) <= p * q <= mp * mq) by (nonlinear_arith)
        requires
            -mp <= p <= mp,
            -mq <= q <= mq,
            mp >= 0,
            mq >= 0,
    ;
}

/// A vector's dot product with itself is a sum of squares.
proof fn lemma_dot2_self_nonneg(a: Vec3)
    ensures
        dot2(a, a) >= 0,
{
    assert(a.x * a.x >= 0 && a.y * a.y >= 0 && a.z * a.z >= 0) by (nonlinear_arith);
}

/// A rescaled product of two bounded components stays within `PROD_BOUND`.
pub(crate) proof fn lemma_rescale_bound(p: int, q: int)
    requires
        -BOUND <= p <= BOUND,
        -BOUND <= q <= BOUND,
    ensures
        -(BOUND as int * BOUND as int) <= p * q <= BOUND as int * BOUND as int,
        -PROD_BOUND <= p * q / (SCALE as int) <= PROD_BOUND,
{
    lemma_prod_bound(p, q, BOUND as int);
    assert(BOUND as int * BOUND as int <= PROD_BOUND as int * (SCALE as int)) by (nonlinear_arith)
        requires
            BOUND == 1073741824i64,
            SCALE == 1000000i64,
            PROD_BOUND == 2199023255552i64,
    ;
    lemma_div_mag(p * q, SCALE as int, PROD_BOUND as int);
}

/// A rescaled difference of products stays within `CROSS_BOUND`.
proof fn lemma_cross_component_bound(p: int, q: int, r: int, s: int)
    requires
        -BOUND <= p <= BOUND,
        -BOUND <= q <= BOUND,
        -BOUND <= r <= BOUND,
        -BOUND <= s <= BOUND,
    ensures
        -(BOUND as int * BOUND as int) <= p * q <= BOUND as int * BOUND as int,
        -(BOUND as int * BOUND as int) <= r * s <= BOUND as int * BOUND as int,
        -2 * (BOUND as int * BOUND as int) <= p * q - r * s <= 2 * (BOUND as int * BOUND as int),
        -CROSS_BOUND <= div_trunc_spec(p * q - r * s, SCALE as int) <= CROSS_BOUND,
{
    lemma_prod_bound(p, q, BOUND as int);
    lemma_prod_bound(r, s, BOUND as int);
    assert(2 * (BOUND as int * BOUND as int) <= CROSS_BOUND as int * (SCALE as int))
        by (nonlinear_arith)
        requires
            BOUND == 1073741824i64,
            SCALE == 1000000i64,
            CROSS_BOUND == 4398046511104i64,
    ;
    lemma_div_trunc_mag(p * q - r * s, SCALE as int, CROSS_BOUND as int);
}

/// A vector with positive squared length has a positive rounded length.
proof fn lemma_len_positive(a: Vec3)
    requires
        dot2(a, a) > 0,
    ensures
        len_of(a) >= 1,
{
    let l = len_of(a);
    lemma_sqrt_floor_bounds(dot2(a, a) as nat);
    if l == 0 {
        assert((l + 1) * (l + 1) == 1) by (nonlinear_arith)
            requires
                l == 0,
        ;
    }
}

/// A normalized component lies within twice the scale (the slack covers
/// the rounding of the square root).
proof fn lemma_normalized_component_bound(a: Vec3, c: int)
    requires
        c == a.x || c == a.y || c == a.z,
        dot2(a, a) > 0,
    ensures
        -2 * SCALE <= c * SCALE / len_of(a) <= 2 * SCALE,
{
    let l = len_of(a);
    lemma_len_positive(a);
    lemma_sqrt_floor_bounds(dot2(a, a) as nat);
    assert(c * c <= dot2(a, a)) by (nonlinear_arith)
        requires
            c == a.x || c == a.y || c == a.z,
            dot2(a, a) == a.x * a.x + a.y * a.y + a.z * a.z,
    ;
    assert(-2 * l <= c <= 2 * l) by (nonlinear_arith)
        requires
            c * c <= dot2(a, a),
            dot2(a, a) < (l + 1) * (l + 1),
            l >= 1,
    ;
    assert(-(2 * SCALE as int * l) <= c * SCALE <= 2 * SCALE as int * l) by (nonlinear_arith)
        requires
            -2 * l <= c <= 2 * l,
            SCALE == 1000000i64,
            l >= 1,
    ;
    lemma_div_mag(c * SCALE, l, 2 * SCALE as int);
}

/// Reflection numerators and results stay inside `i64` and `i128`.
proof fn lemma_reflect_bounds(a: Vec3, n: Vec3, c: int)
    requires
        a.wf(),
        n.wf(),
        -BOUND <= c <= BOUND,
    ensures
        -3 * (BOUND as int * BOUND as int) <= dot2(a, n) <= 3 * (BOUND as int * BOUND as int),
        -0x400000000000000000000000 <= 2 * dot2(a, n) * c <= 0x400000000000000000000000,
        -0x100000000000000 <= 2 * dot2(a, n) * c / (SCALE as int * SCALE as int)
            <= 0x100000000000000,
{
    lemma_prod_bound(a.x as int, n.x as int, BOUND as int);
    lemma_prod_bound(a.y as int, n.y as int, BOUND as int);
    lemma_prod_bound(a.z as int, n.z as int, BOUND as int);
    assert(-0x400000000000000000000000 <= 2 * dot2(a, n) * c <= 0x400000000000000000000000)
        by (nonlinear_arith)
        requires
            -3 * (BOUND as int * BOUND as int) <= dot2(a, n) <= 3 * (BOUND as int * BOUND as int),
            -BOUND <= c <= BOUND,
            BOUND == 1073741824i64,
    ;
    assert(0x400000000000000000000000 <= 0x100000000000000 * (SCALE as int * SCALE as int))
        by (nonlinear_arith)
        requires
            SCALE == 1000000i64,
    ;
    lemma_div_mag(2 * dot2(a, n) * c, SCALE as int * SCALE as int, 0x100000000000000);
}

} // verus!
