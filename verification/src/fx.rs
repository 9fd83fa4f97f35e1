//! Fixed-point arithmetic base for the pipeline.
//!
//! A scalar is an `i64` holding the real value scaled by `FX_ONE`
//! (16 fractional bits). Intermediate products are taken in `i128`;
//! every quotient here has a positive divisor, so spec-level `/`
//! (Euclidean division) coincides with floor division throughout.

use vstd::prelude::*;
use vstd::math::abs;
use vstd::arithmetic::div_mod::{
    lemma_fundamental_div_mod, lemma_fundamental_div_mod_converse_div, lemma_div_is_ordered,
    lemma_div_nonincreasing, lemma_div_multiples_vanish,
};

verus! {

/// One unit of the fixed-point scale: 16 fractional bits.
pub const FX_ONE: i64 = 65536;

/// Largest raw magnitude accepted for coordinates, deltas and times (2^36).
pub const FX_LIM: i64 = 68719476736;

/// Largest raw magnitude a speed or derivative estimate can reach (2^53).
pub const SPEED_LIM: i64 = 9007199254740992;

/// Bound on each operand of the widening multiply (2^62).
pub const MUL_LIM: i128 = 4611686018427387904;

/// Two pi in the fixed-point scale, rounded to the nearest raw unit.
pub const FX_TWO_PI: i64 = 411775;

/// A 2D point or displacement in raw fixed-point coordinates.
#[derive(Clone, Copy, PartialEq, Eq, Structural, Debug)]
pub struct FxVec2 {
    pub x: i64,
    pub y: i64,
}

/// A 2D point in whole pixels.
#[derive(Clone, Copy, PartialEq, Eq, Structural, Debug)]
pub struct PxVec2 {
    pub x: i64,
    pub y: i64,
}

/// Quotient of `a` by `b > 0` rounded toward zero.
pub open spec fn div_trunc(a: int, b: int) -> int {
    if a >= 0 {
        a / b
    } else {
        -((-a) / b)
    }
}

/// Exact product of two bounded `i128` values.
pub fn mul_i(a: i128, b: i128) -> (r: i128)
    requires
        -MUL_LIM <= a <= MUL_LIM,
        -MUL_LIM <= b <= MUL_LIM,
    ensures
        r == a * b,
        -MUL_LIM * MUL_LIM <= r <= MUL_LIM * MUL_LIM,
{
    proof {
        assert(-MUL_LIM * MUL_LIM <= a * b <= MUL_LIM * MUL_LIM) by (nonlinear_arith)
            requires
                -MUL_LIM <= a <= MUL_LIM,
                -MUL_LIM <= b <= MUL_LIM,
        ;
    }
    a * b
}

/// Floor division of a signed value by a positive divisor.
pub fn div_floor_i(a: i128, b: i128) -> (r: i128)
    requires
        1 <= b,
        i128::MIN < a,
    ensures
        r == a as int / b as int,
        a >= 0 ==> 0 <= r <= a,
        a <= 0 ==> a <= r <= 0,
{
    if a >= 0 {
        let q: u128 = (a as u128) / (b as u128);
        proof {
            lemma_div_nonincreasing(a as int, b as int);
            lemma_div_is_ordered(0, a as int, b as int);
        }
        q as i128
    } else {
        let na: u128 = (-a) as u128;
        let bu: u128 = b as u128;
        let q: u128 = na / bu;
        let rem: u128 = na % bu;
        proof {
            lemma_fundamental_div_mod(na as int, bu as int);
            lemma_div_nonincreasing(na as int, bu as int);
            lemma_div_is_ordered(0, na as int, bu as int);
            if rem == 0 {
                // a == (-q) * b, so the quotient of a by b is exactly -q.
                assert(a as int == (-(q as int)) * (b as int) + 0) by (nonlinear_arith)
                    requires
                        (na as int) == (q as int) * (bu as int) + (rem as int),
                        rem == 0,
                        a as int == -(na as int),
                        bu == b,
                ;
                lemma_fundamental_div_mod_converse_div(a as int, b as int, -(q as int), 0);
            } else {
                // a == (-q - 1) * b + (b - rem) with 0 <= b - rem < b.
                assert(a as int == (-(q as int) - 1) * (b as int) + ((b as int) - (rem as int)))
                    by (nonlinear_arith)
                    requires
                        (na as int) == (q as int) * (bu as int) + (rem as int),
                        a as int == -(na as int),
                        bu == b,
                ;
                lemma_fundamental_div_mod_converse_div(
                    a as int,
                    b as int,
                    -(q as int) - 1,
                    (b as int) - (rem as int),
                );
                // rem >= 1 forces q * bu <= na - 1, hence q <= na - 1.
                assert(q as int <= na as int - 1) by (nonlinear_arith)
                    requires
                        (na as int) == (q as int) * (bu as int) + (rem as int),
                        rem >= 1,
                        bu >= 1,
                        q >= 0,
                ;
            }
        }
        if rem == 0 {
            -(q as i128)
        } else {
            -(q as i128) - 1
        }
    }
}

/// Exact product where the first factor may be wide (up to 2^90) and the
/// second is at most 2^32.
pub fn mul_small(a: i128, b: i128) -> (r: i128)
    requires
        -1237940039285380274899124224 <= a <= 1237940039285380274899124224,  // 2^90
        0 <= b <= 4294967296,
    ensures
        r == a * b,
{
    proof {
        assert(-5316911983139663491615228241121378304 <= a * b
            <= 5316911983139663491615228241121378304) by (nonlinear_arith)
            requires
                -1237940039285380274899124224 <= a <= 1237940039285380274899124224,
                0 <= b <= 4294967296,
        ;
    }
    a * b
}

/// A quotient by `d >= 1` lies in `[-m, m]` whenever the dividend lies in
/// `[-m * d, m * d]`.
pub proof fn lemma_div_in_range(num: int, d: int, m: int)
    requires
        1 <= d,
        0 <= m,
        -(m * d) <= num <= m * d,
    ensures
        -m <= num / d <= m,
{
    lemma_div_is_ordered(-(m * d), num, d);
    lemma_div_is_ordered(num, m * d, d);
    assert(m * d == d * m && -(m * d) == d * (-m)) by (nonlinear_arith)
        requires
            true,
    ;
    lemma_div_multiples_vanish(m, d);
    lemma_div_multiples_vanish(-m, d);
}

/// Truncating division is odd in its dividend: negating the dividend
/// negates the quotient exactly.
pub proof fn lemma_div_trunc_odd(a: int, b: int)
    requires
        1 <= b,
    ensures
        div_trunc(-a, b) == -div_trunc(a, b),
{
    if a == 0 {
        lemma_div_is_ordered(0, 0, b);
    }
}

/// A truncated quotient by `d >= 1` lies in `[-m, m]` whenever the
/// dividend lies in `[-m * d, m * d]`.
pub proof fn lemma_trunc_in_range(num: int, d: int, m: int)
    requires
        1 <= d,
        0 <= m,
        -(m * d) <= num <= m * d,
    ensures
        -m <= div_trunc(num, d) <= m,
{
    if num >= 0 {
        lemma_div_in_range(num, d, m);
    } else {
        lemma_div_in_range(-num, d, m);
    }
}

/// Floor of `(a * b) / d` for bounded operands and a positive divisor.
pub fn mul_div_floor(a: i128, b: i128, d: i128) -> (r: i128)
    requires
        -MUL_LIM <= a <= MUL_LIM,
        -MUL_LIM <= b <= MUL_LIM,
        1 <= d,
    ensures
        r == (a * b) / (d as int),
        -MUL_LIM * MUL_LIM <= r <= MUL_LIM * MUL_LIM,
{
    let p: i128 = mul_i(a, b);
    div_floor_i(p, d)
}

/// Quotient of a signed value by a positive divisor, rounded toward zero.
pub fn div_trunc_i(a: i128, b: i128) -> (r: i128)
    requires
        1 <= b,
        i128::MIN < a,
    ensures
        r == div_trunc(a as int, b as int),
        a >= 0 ==> 0 <= r <= a,
        a <= 0 ==> a <= r <= 0,
{
    if a >= 0 {
        proof {
            lemma_div_nonincreasing(a as int, b as int);
            lemma_div_is_ordered(0, a as int, b as int);
        }
        (a as u128 / b as u128) as i128
    } else {
        let na: u128 = (-a) as u128;
        proof {
            lemma_div_nonincreasing(na as int, b as int);
            lemma_div_is_ordered(0, na as int, b as int);
        }
        -((na / (b as u128)) as i128)
    }
}

/// Floor of the square root of a natural number, defined by counting up.
pub open spec fn sqrt_floor(n: nat) -> nat
    decreases n,
{
    if n == 0 {
        0
    } else {
        let s = sqrt_floor((n - 1) as nat);
        if (s + 1) * (s + 1) <= n {
            s + 1
        } else {
            s
        }
    }
}

/// `sqrt_floor(n)` is the largest natural number whose square is at most `n`.
pub proof fn lemma_sqrt_floor(n: nat)
    ensures
        sqrt_floor(n) * sqrt_floor(n) <= n,
        n < (sqrt_floor(n) + 1) * (sqrt_floor(n) + 1),
    decreases n,
{
    let r = sqrt_floor(n);
    if n > 0 {
        lemma_sqrt_floor((n - 1) as nat);
        let s = sqrt_floor((n - 1) as nat);
        assert(s * s <= n - 1);
        assert(n - 1 < (s + 1) * (s + 1));
        if (s + 1) * (s + 1) <= n {
            assert(r == s + 1);
            assert(r * r <= n && n < (r + 1) * (r + 1)) by (nonlinear_arith)
                requires
                    r == s + 1,
                    (s + 1) * (s + 1) <= n,
                    n - 1 < (s + 1) * (s + 1),
                    s >= 0,
            ;
        } else {
            assert(r == s);
            assert(r * r <= n && n < (r + 1) * (r + 1)) by (nonlinear_arith)
                requires
                    r == s,
                    s * s <= n - 1,
                    !((s + 1) * (s + 1) <= n),
                    n >= 1,
            ;
        }
    } else {
        assert(r == 0);
        assert(r * r <= n && n < (r + 1) * (r + 1)) by (nonlinear_arith)
            requires
                r == 0,
                n == 0,
        ;
    }
}

/// Any `r` with `r^2 <= n < (r+1)^2` is `sqrt_floor(n)`.
pub proof fn lemma_sqrt_floor_unique(n: nat, r: nat)
    requires
        r * r <= n,
        n < (r + 1) * (r + 1),
    ensures
        r == sqrt_floor(n),
{
    lemma_sqrt_floor(n);
    let s = sqrt_floor(n);
    assert(r == s) by (nonlinear_arith)
        requires
            r * r <= n,
            n < (r + 1) * (r + 1),
            s * s <= n,
            n < (s + 1) * (s + 1),
            r >= 0,
            s >= 0,
    ;
}

/// Floor of the square root, by bisection.
pub fn isqrt(n: u128) -> (r: u128)
    requires
        n < 85070591730234615865843651857942052864,  // 2^126
    ensures
        r == sqrt_floor(n as nat),
{
    let mut lo: u128 = 0;
    let mut hi: u128 = 9223372036854775808;  // 2^63
    proof {
        assert((hi as int) * (hi as int) == 85070591730234615865843651857942052864int)
            by (nonlinear_arith)
            requires
                hi == 9223372036854775808u128,
        ;
    }
    while lo + 1 < hi
        invariant
            lo < hi,
            hi <= 9223372036854775808,
            (lo as int) * (lo as int) <= n as int,
            (n as int) < (hi as int) * (hi as int),
        decreases hi - lo,
    {
        let mid: u128 = lo + (hi - lo) / 2;
        proof {
            assert((mid as int) * (mid as int) < 85070591730234615865843651857942052864int)
                by (nonlinear_arith)
                requires
                    mid < 9223372036854775808u128,
            ;
        }
        if mid * mid <= n {
            lo = mid;
        } else {
            hi = mid;
        }
    }
    proof {
        lemma_sqrt_floor_unique(n as nat, lo as nat);
    }
    lo
}

/// The square-root floor is monotonic.
pub proof fn lemma_sqrt_floor_monotonic(a: nat, b: nat)
    requires
        a <= b,
    ensures
        sqrt_floor(a) <= sqrt_floor(b),
{
    lemma_sqrt_floor(a);
    lemma_sqrt_floor(b);
    let sa = sqrt_floor(a);
    let sb = sqrt_floor(b);
    assert(sa <= sb) by (nonlinear_arith)
        requires
            sa * sa <= a,
            b < (sb + 1) * (sb + 1),
            a <= b,
            sa >= 0,
            sb >= 0,
    ;
}

/// The square-root floor of a perfect square is its root.
pub proof fn lemma_sqrt_floor_square(x: nat)
    ensures
        sqrt_floor(x * x) == x,
{
    assert(x * x < (x + 1) * (x + 1)) by (nonlinear_arith)
        requires
            x >= 0,
    ;
    lemma_sqrt_floor_unique(x * x, x);
}

/// Floor of the Euclidean length of the raw vector `(x, y)`.
pub open spec fn s_mag(x: int, y: int) -> int {
    sqrt_floor((x * x + y * y) as nat) as int
}

/// A vector's length floor dominates the magnitude of each coordinate.
pub proof fn lemma_mag_dominates(x: int, y: int)
    ensures
        s_mag(x, y) >= abs(x),
        s_mag(x, y) >= abs(y),
{
    let n = (x * x + y * y) as nat;
    assert(x * x == abs(x) * abs(x) && y * y == abs(y) * abs(y) && x * x >= 0 && y * y >= 0)
        by (nonlinear_arith)
        requires
            true,
    ;
    lemma_sqrt_floor_monotonic((x * x) as nat, n);
    lemma_sqrt_floor_monotonic((y * y) as nat, n);
    lemma_sqrt_floor_square(abs(x));
    lemma_sqrt_floor_square(abs(y));
}

/// Both coordinates of a point within the range the pipeline works in.
pub open spec fn in_range(p: FxVec2) -> bool {
    -FX_LIM <= p.x <= FX_LIM && -FX_LIM <= p.y <= FX_LIM
}

/// Floor of the Euclidean length, computed by `isqrt`. The looser input
/// range admits the difference of two in-range points.
pub fn mag2d(x: i64, y: i64) -> (r: i64)
    requires
        -2 * FX_LIM <= x <= 2 * FX_LIM,
        -2 * FX_LIM <= y <= 2 * FX_LIM,
    ensures
        r == s_mag(x as int, y as int),
        0 <= r <= 3 * FX_LIM,
        (-FX_LIM <= x <= FX_LIM && -FX_LIM <= y <= FX_LIM) ==> r <= 2 * FX_LIM,
{
    let xx: i128 = mul_i(x as i128, x as i128);
    let yy: i128 = mul_i(y as i128, y as i128);
    proof {
        assert(0 <= (x as int) * (x as int) <= 4 * (FX_LIM as int) * (FX_LIM as int))
            by (nonlinear_arith)
            requires
                -2 * (FX_LIM as int) <= x <= 2 * (FX_LIM as int),
        ;
        assert(0 <= (y as int) * (y as int) <= 4 * (FX_LIM as int) * (FX_LIM as int))
            by (nonlinear_arith)
            requires
                -2 * (FX_LIM as int) <= y <= 2 * (FX_LIM as int),
        ;
    }
    let n: u128 = (xx + yy) as u128;
    let r: u128 = isqrt(n);
    proof {
        lemma_sqrt_floor(n as nat);
        let rr = sqrt_floor(n as nat);
        assert(rr <= 3 * FX_LIM) by (nonlinear_arith)
            requires
                rr * rr <= n as nat,
                n as int <= 8 * (FX_LIM as int) * (FX_LIM as int),
                FX_LIM == 68719476736i64,
        ;
        if -FX_LIM <= x <= FX_LIM && -FX_LIM <= y <= FX_LIM {
            assert(rr <= 2 * FX_LIM) by (nonlinear_arith)
                requires
                    rr * rr <= n as nat,
                    n as int == (x as int) * (x as int) + (y as int) * (y as int),
                    -FX_LIM <= x <= FX_LIM,
                    -FX_LIM <= y <= FX_LIM,
                    FX_LIM == 68719476736i64,
            ;
        }
    }
    r as i64
}

} // verus!
