//! Fixed-point numeric kernel: the global scale, floor division and an
//! integer square root, each with an exact contract.
//!
//! A quantity `q` in world units is stored as the integer `q * SCALE`
//! rounded towards minus infinity (micro-units).  All geometric code in
//! this crate states its results over this representation, so every
//! contract is an exact statement about integers.

use vstd::prelude::*;

verus! {

use vstd::arithmetic::div_mod::lemma_div_nonincreasing;
use vstd::arithmetic::div_mod::lemma_div_pos_is_pos;
use vstd::arithmetic::div_mod::lemma_fundamental_div_mod;
use vstd::arithmetic::div_mod::lemma_mod_bound;

/// One world unit, in raw integer ticks (micro-units).
pub const SCALE: i64 = 1000000;

/// Magnitude bound on the raw components of well-formed vectors and points.
///
/// Keeping every component within `BOUND` (about a thousand world units)
/// guarantees that the ray-sphere discriminant, the widest intermediate
/// value in the crate, still fits in an `i128`.
pub const BOUND: i64 = 1073741824;

/// The floor of the real square root of `n`, defined by counting up.
pub open spec fn sqrt_floor(n: nat) -> nat
    decreases n,
{
    if n == 0 {
        0
    } else {
        let r = sqrt_floor((n - 1) as nat);
        if (r + 1) * (r + 1) <= n {
            r + 1
        } else {
            r
        }
    }
}

/// `sqrt_floor(n)` really is the floor of the square root: its square is
/// at most `n` and the next square is beyond `n`.
pub proof fn lemma_sqrt_floor_bounds(n: nat)
    ensures
        sqrt_floor(n) * sqrt_floor(n) <= n,
        n < (sqrt_floor(n) + 1) * (sqrt_floor(n) + 1),
    decreases n,
{
    if n > 0 {
        lemma_sqrt_floor_bounds((n - 1) as nat);
        let p = sqrt_floor((n - 1) as nat);
        assert(sqrt_floor(n) == if (p + 1) * (p + 1) <= n {
            (p + 1) as nat
        } else {
            p
        });
        if (p + 1) * (p + 1) <= n {
            assert(n - 1 < (p + 1) * (p + 1));
            assert(n == (p + 1) * (p + 1));
            assert(sqrt_floor(n) == p + 1);
            assert(sqrt_floor(n) * sqrt_floor(n) <= n);
            assert(n < (sqrt_floor(n) + 1) * (sqrt_floor(n) + 1)) by (nonlinear_arith)
                requires
                    p >= 0,
                    sqrt_floor(n) == p + 1,
                    n == (p + 1) * (p + 1),
            ;
        } else {
            assert(sqrt_floor(n) == p);
            assert(sqrt_floor(n) * sqrt_floor(n) <= n);
            assert(n < (sqrt_floor(n) + 1) * (sqrt_floor(n) + 1));
        }
    } else {
        assert(sqrt_floor(n) == 0);
        assert(n < (sqrt_floor(n) + 1) * (sqrt_floor(n) + 1)) by (nonlinear_arith)
            requires
                n == 0,
                sqrt_floor(n) == 0,
        ;
    }
}

/// Any `r` sandwiched between consecutive squares around `n` equals
/// `sqrt_floor(n)`.
pub proof fn lemma_sqrt_floor_unique(n: nat, r: nat)
    requires
        r * r <= n,
        n < (r + 1) * (r + 1),
    ensures
        r == sqrt_floor(n),
{
    lemma_sqrt_floor_bounds(n);
    let s = sqrt_floor(n);
    if r < s {
        assert((r + 1) * (r + 1) <= s * s) by (nonlinear_arith)
            requires
                r + 1 <= s,
        ;
    }
    if s < r {
        assert((s + 1) * (s + 1) <= r * r) by (nonlinear_arith)
            requires
                s + 1 <= r,
        ;
    }
}

/// The quotient of a floor division lies between zero and the dividend.
pub proof fn lemma_div_range(n: int, d: int)
    requires
        d >= 1,
    ensures
        n >= 0 ==> 0 <= n / d <= n,
        n < 0 ==> n <= n / d <= 0,
{
    lemma_fundamental_div_mod(n, d);
    lemma_mod_bound(n, d);
    if n >= 0 {
        lemma_div_pos_is_pos(n, d);
        lemma_div_nonincreasing(n, d);
    } else {
        let q = n / d;
        let r = n % d;
        assert(n <= q <= 0) by (nonlinear_arith)
            requires
                n == d * q + r,
                0 <= r < d,
                n < 0,
                d >= 1,
        ;
    }
}

/// A dividend bounded by `m * d` in magnitude has a quotient bounded by `m`.
pub proof fn lemma_div_mag(n: int, d: int, m: int)
    requires
        d >= 1,
        m >= 0,
        -(m * d) <= n <= m * d,
    ensures
        -m <= n / d <= m,
{
    lemma_fundamental_div_mod(n, d);
    lemma_mod_bound(n, d);
    assert(-m <= n / d <= m) by (nonlinear_arith)
        requires
            n == d * (n / d) + n % d,
            0 <= n % d < d,
            -(m * d) <= n <= m * d,
            d >= 1,
            m >= 0,
    ;
}

/// A square bounded by the next square above `m * m` has a root bounded by `m`.
pub proof fn lemma_sqrt_floor_le(n: nat, m: nat)
    requires
        n < (m + 1) * (m + 1),
    ensures
        sqrt_floor(n) <= m,
{
    lemma_sqrt_floor_bounds(n);
    let s = sqrt_floor(n);
    if s > m {
        assert((m + 1) * (m + 1) <= s * s) by (nonlinear_arith)
            requires
                m + 1 <= s,
        ;
    }
}

/// A value forced into a closed interval.
pub open spec fn clamp_spec(v: int, lo: int, hi: int) -> int {
    if v < lo {
        lo
    } else if v > hi {
        hi
    } else {
        v
    }
}

/// Forces a wide intermediate value into a closed `i64` interval.
pub fn clamp128(v: i128, lo: i64, hi: i64) -> (r: i64)
    requires
        lo <= hi,
    ensures
        r == clamp_spec(v as int, lo as int, hi as int),
        lo <= r <= hi,
{
    if v < lo as i128 {
        lo
    } else if v > hi as i128 {
        hi
    } else {
        v as i64
    }
}

/// Integer square root by bisection.
pub fn isqrt(n: u128) -> (r: u128)
    ensures
        r == sqrt_floor(n as nat),
{
    let mut lo: u128 = 0;
    let mut hi: u128 = 0x10000000000000000;
    while hi - lo > 1
        invariant
            lo < hi <= 0x10000000000000000,
            lo * lo <= n,
            n < hi * hi,
        decreases hi - lo,
    {
        let mid = lo + (hi - lo) / 2;
        proof {
            assert(lo < mid < hi);
            assert(mid * mid <= 0xffffffffffffffffu128 * 0xffffffffffffffffu128)
                by (nonlinear_arith)
                requires
                    mid <= 0xffffffffffffffffu128,
            ;
        }
        if mid * mid <= n {
            lo = mid;
        } else {
            hi = mid;
        }
    }
    proof {
        assert(n < (lo + 1) * (lo + 1));
        lemma_sqrt_floor_unique(n as nat, lo as nat);
    }
    lo
}

/// The quotient of `n` by a positive `d`, rounded towards zero.  Unlike
/// the Euclidean quotient it commutes with negation, which makes the
/// operations built on it exactly antisymmetric.
pub open spec fn div_trunc_spec(n: int, d: int) -> int {
    if n >= 0 {
        n / d
    } else {
        -((-n) / d)
    }
}

/// Rounding towards zero commutes with negation.
pub proof fn lemma_div_trunc_neg(n: int, d: int)
    requires
        d >= 1,
    ensures
        div_trunc_spec(-n, d) == -div_trunc_spec(n, d),
{
    if n == 0 {
        lemma_div_range(0, d);
    }
}

/// A dividend bounded by `m * d` in magnitude has a truncated quotient
/// bounded by `m`.
pub proof fn lemma_div_trunc_mag(n: int, d: int, m: int)
    requires
        d >= 1,
        m >= 0,
        -(m * d) <= n <= m * d,
    ensures
        -m <= div_trunc_spec(n, d) <= m,
{
    if n >= 0 {
        lemma_div_mag(n, d, m);
    } else {
        lemma_div_mag(-n, d, m);
    }
}

/// Division by a positive divisor, rounded towards zero.
pub fn div_trunc(n: i128, d: i128) -> (r: i128)
    requires
        d > 0,
        -0x40000000000000000000000000000000 <= n,
    ensures
        r == div_trunc_spec(n as int, d as int),
{
    if n >= 0 {
        div_floor(n, d)
    } else {
        proof {
            lemma_div_range(-n as int, d as int);
        }
        -div_floor(-n, d)
    }
}

/// Floor division of `n` by a positive divisor `d`, matching the Euclidean
/// quotient `n / d` of specification arithmetic.
pub fn div_floor(n: i128, d: i128) -> (r: i128)
    requires
        d > 0,
        -0x40000000000000000000000000000000 <= n,
    ensures
        r == n as int / d as int,
{
    if n >= 0 {
        let q = (n as u128) / (d as u128);
        proof {
            lemma_div_pos_is_pos(n as int, d as int);
            lemma_div_nonincreasing(n as int, d as int);
            assert(n as int / d as int == (n as u128) as int / (d as u128) as int);
        }
        q as i128
    } else {
        let m = (-n) as u128;
        let q = (m - 1) / (d as u128) + 1;
        proof {
            let mi = m as int;
            let di = d as int;
            let qq = (mi - 1) / di;
            let rr = (mi - 1) % di;
            lemma_fundamental_div_mod(mi - 1, di);
            lemma_mod_bound(mi - 1, di);
            lemma_div_pos_is_pos(mi - 1, di);
            lemma_div_nonincreasing(mi - 1, di);
            // n == -(qq*d + rr + 1) == d*(-qq - 1) + (d - 1 - rr), with the
            // remainder in [0, d), so the Euclidean quotient of n is -qq - 1.
            assert(n as int == di * (-qq - 1) + (di - 1 - rr)) by (nonlinear_arith)
                requires
                    mi - 1 == di * qq + rr,
                    n as int == -mi,
            ;
            lemma_fundamental_div_mod(n as int, di);
            lemma_mod_bound(n as int, di);
            let bq = n as int / di;
            let br = n as int % di;
            assert(-qq - 1 == bq) by (nonlinear_arith)
                requires
                    n as int == di * (-qq - 1) + (di - 1 - rr),
                    n as int == di * bq + br,
                    0 <= di - 1 - rr < di,
                    0 <= br < di,
            ;
        }
        -(q as i128)
    }
}

} // verus!
