//! Velocity-sensitive acceleration transfer function.
//!
//! A logistic gain curve maps the magnitude of a raw per-frame
//! displacement to a control-display gain between `cd_min` and `cd_max`:
//! small motions get low gain for precision, large motions high gain for
//! speed. The exponential inside the logistic is taken in fixed point as
//! the monotone approximation `e^x ~ (1 + x/16)^16`, computed by four
//! squarings; the curve keeps the exact logistic's range, its value at
//! the midpoint, and its monotonicity.
//!
//! The curve's input is the displacement multiplied by the elapsed time,
//! as the transfer function defines it. Its quotients round toward zero,
//! so the curve is odd: reversing the displacement reverses the output
//! exactly, and leftward and rightward motion get the same gain.

use vstd::prelude::*;
use vstd::math::abs;
use vstd::arithmetic::div_mod::{
    lemma_div_is_ordered, lemma_div_is_ordered_by_denominator, lemma_div_multiples_vanish,
    lemma_div_pos_is_pos, lemma_basic_div, lemma_fundamental_div_mod_converse_div,
};
use crate::fx::{
    FX_ONE, FX_LIM, div_trunc, mul_i, mul_div_floor, div_floor_i, div_trunc_i,
    lemma_div_in_range, lemma_trunc_in_range, lemma_div_trunc_odd,
};

verus! {

/// Arguments past this point make the exponential a clean zero (256 units).
pub const EXP_CAP: i64 = 16777216;

pub struct Acceleration {
    pub cd_min: i64,
    pub cd_max: i64,
    pub v_min: i64,
    pub v_max: i64,
    pub lambda: i64,
    pub ratio: i64,
}

impl Acceleration {
    pub open spec fn wf(self) -> bool {
        &&& 0 <= self.cd_min <= self.cd_max <= FX_LIM
        &&& 0 <= self.v_min <= self.v_max <= FX_LIM
        &&& 0 <= self.lambda <= FX_LIM
        &&& 0 <= self.ratio <= FX_ONE
    }
}

/// The sigmoid's velocity midpoint: `ratio` of the way from `v_min` to
/// `v_max`.
pub open spec fn s_v_inf(a: Acceleration) -> int {
    ((a.ratio as int) * (a.v_max - a.v_min)) / (FX_ONE as int) + a.v_min
}

/// The transfer function's input: displacement times elapsed time,
/// rounded toward zero.
pub open spec fn s_raw_vel(diff: int, dt: int) -> int {
    div_trunc(diff * dt, FX_ONE as int)
}

/// Monotone fixed-point `e^(-t)` for `t >= 0`: the reciprocal of
/// `(1 + t/16)^16`, taken by four squarings, zero beyond the cap.
pub open spec fn s_exp_neg(t: int) -> int {
    if t >= EXP_CAP as int {
        0
    } else {
        let s = FX_ONE as int;
        let b = s + t / 16;
        let p1 = (b * b) / s;
        let p2 = (p1 * p1) / s;
        let p3 = (p2 * p2) / s;
        let p4 = (p3 * p3) / s;
        (s * s) / p4
    }
}

/// Fixed-point logistic `1 / (1 + e^(-u))`, in `[0, FX_ONE]`.
pub open spec fn s_sigmoid(u: int) -> int {
    let s = FX_ONE as int;
    if u >= 0 {
        (s * s) / (s + s_exp_neg(u))
    } else {
        s - (s * s) / (s + s_exp_neg(-u))
    }
}

/// The control-display gain for one input.
pub open spec fn s_gain(a: Acceleration, diff: int, dt: int) -> int {
    let u = ((a.lambda as int) * (abs(s_raw_vel(diff, dt)) - s_v_inf(a))) / (FX_ONE as int);
    ((a.cd_max - a.cd_min) * s_sigmoid(u)) / (FX_ONE as int) + a.cd_min
}

/// The accelerated displacement, rounded toward zero.
pub open spec fn s_accel(a: Acceleration, diff: int, dt: int) -> int {
    div_trunc(diff * s_gain(a, diff, dt), FX_ONE as int)
}

/// One squaring stage: it preserves the `[FX_ONE, c * FX_ONE]` band and
/// the order of its inputs.
proof fn lemma_stage(x1: int, x2: int, c: int)
    requires
        1 <= c,
        FX_ONE as int <= x1 <= x2 <= c * (FX_ONE as int),
    ensures
        FX_ONE as int <= (x1 * x1) / (FX_ONE as int) <= (x2 * x2) / (FX_ONE as int) <= c * c * (
        FX_ONE as int),
{
    let s = FX_ONE as int;
    assert(s * s <= x1 * x1 <= x2 * x2 <= (c * s) * (c * s) && (c * s) * (c * s) == s * (c * c
        * s) && s * s == s * s) by (nonlinear_arith)
        requires
            1 <= c,
            s <= x1 <= x2 <= c * s,
            s > 0,
    ;
    lemma_div_is_ordered(s * s, x1 * x1, s);
    lemma_div_is_ordered(x1 * x1, x2 * x2, s);
    lemma_div_is_ordered(x2 * x2, s * (c * c * s), s);
    lemma_div_multiples_vanish(s, s);
    lemma_div_multiples_vanish(c * c * s, s);
}

/// The fixed-point exponential stays in `[0, FX_ONE]` and never grows
/// with its argument.
pub proof fn lemma_exp_neg_antitone(t1: int, t2: int)
    requires
        0 <= t1 <= t2,
    ensures
        0 <= s_exp_neg(t2) <= s_exp_neg(t1) <= FX_ONE,
{
    let s = FX_ONE as int;
    let cap = EXP_CAP as int;
    if t1 < cap {
        let lo = if t2 < cap {
            t2
        } else {
            t1
        };
        // band and order of the four stages for every below-cap argument
        lemma_div_is_ordered(t1, lo, 16);
        lemma_div_is_ordered(lo, cap - 1, 16);
        lemma_div_pos_is_pos(t1, 16);
        lemma_fundamental_div_mod_converse_div(cap - 1, 16, 1048575, 15);
        let b1 = s + t1 / 16;
        let b2 = s + lo / 16;
        lemma_stage(b1, b2, 17);
        lemma_stage((b1 * b1) / s, (b2 * b2) / s, 289);
        let p21 = (((b1 * b1) / s) * ((b1 * b1) / s)) / s;
        let p22 = (((b2 * b2) / s) * ((b2 * b2) / s)) / s;
        lemma_stage(p21, p22, 83521);
        lemma_stage((p21 * p21) / s, (p22 * p22) / s, 6975757441);
        let p41 = (((p21 * p21) / s) * ((p21 * p21) / s)) / s;
        let p42 = (((p22 * p22) / s) * ((p22 * p22) / s)) / s;
        lemma_div_is_ordered_by_denominator(s * s, p41, p42);
        lemma_div_is_ordered_by_denominator(s * s, s, p41);
        lemma_div_multiples_vanish(s, s);
        lemma_div_pos_is_pos(s * s, p42);
        lemma_div_pos_is_pos(s * s, p41);
    }
}

/// The fixed-point logistic stays in `[0, FX_ONE]` and never falls as
/// its argument grows.
pub proof fn lemma_sigmoid_mono(u1: int, u2: int)
    requires
        u1 <= u2,
    ensures
        0 <= s_sigmoid(u1) <= s_sigmoid(u2) <= FX_ONE,
{
    let s = FX_ONE as int;
    assert(s * s == (2 * s) * 32768) by (nonlinear_arith)
        requires
            s == 65536,
    ;
    lemma_div_multiples_vanish(32768, 2 * s);
    lemma_div_multiples_vanish(s, s);
    if u1 >= 0 {
        lemma_exp_neg_antitone(u1, u2);
        lemma_div_is_ordered_by_denominator(s * s, s + s_exp_neg(u2), s + s_exp_neg(u1));
        lemma_div_is_ordered_by_denominator(s * s, s, s + s_exp_neg(u2));
        lemma_div_pos_is_pos(s * s, s + s_exp_neg(u1));
        lemma_div_is_ordered_by_denominator(s * s, s, s + s_exp_neg(u1));
    } else if u2 < 0 {
        lemma_exp_neg_antitone(-u2, -u1);
        lemma_div_is_ordered_by_denominator(s * s, s + s_exp_neg(-u1), s + s_exp_neg(-u2));
        lemma_div_is_ordered_by_denominator(s * s, s, s + s_exp_neg(-u1));
        lemma_div_pos_is_pos(s * s, s + s_exp_neg(-u2));
        lemma_div_is_ordered_by_denominator(s * s, s, s + s_exp_neg(-u2));
    } else {
        // below zero the curve sits at or under the midpoint, above zero
        // at or over it
        lemma_exp_neg_antitone(0, -u1);
        lemma_exp_neg_antitone(0, u2);
        lemma_div_is_ordered_by_denominator(s * s, s + s_exp_neg(-u1), 2 * s);
        lemma_div_is_ordered_by_denominator(s * s, s, s + s_exp_neg(-u1));
        lemma_div_is_ordered_by_denominator(s * s, s + s_exp_neg(u2), 2 * s);
        lemma_div_is_ordered_by_denominator(s * s, s, s + s_exp_neg(u2));
    }
}

/// The gain stays between `cd_min` and `cd_max` and never falls as the
/// logistic's argument grows.
proof fn lemma_gain_band(a: Acceleration, g: int)
    requires
        a.wf(),
        0 <= g <= FX_ONE,
    ensures
        a.cd_min <= ((a.cd_max - a.cd_min) * g) / (FX_ONE as int) + a.cd_min <= a.cd_max,
{
    let s = FX_ONE as int;
    let d = a.cd_max - a.cd_min;
    assert(0 <= d * g <= s * d) by (nonlinear_arith)
        requires
            0 <= d,
            0 <= g <= s,
    ;
    lemma_div_is_ordered(0, d * g, s);
    lemma_div_is_ordered(d * g, s * d, s);
    lemma_div_multiples_vanish(d, s);
    lemma_basic_div(0, s);
}

/// The accelerated displacement is zero at zero and monotonic in the
/// displacement for a fixed elapsed time and well-formed parameters.
pub proof fn lemma_accel_monotone(a: Acceleration, d1: int, d2: int, dt: int)
    requires
        a.wf(),
        0 <= d1 <= d2,
        0 <= dt,
    ensures
        s_accel(a, d1, dt) <= s_accel(a, d2, dt),
{
    let s = FX_ONE as int;
    assert(0 <= d1 * dt <= d2 * dt) by (nonlinear_arith)
        requires
            0 <= d1 <= d2,
            0 <= dt,
    ;
    lemma_div_is_ordered(0, d1 * dt, s);
    lemma_div_is_ordered(d1 * dt, d2 * dt, s);
    lemma_basic_div(0, s);
    let rv1 = s_raw_vel(d1, dt);
    let rv2 = s_raw_vel(d2, dt);
    assert(rv1 == (d1 * dt) / s && rv2 == (d2 * dt) / s);
    assert(0 <= rv1 <= rv2);
    assert(abs(rv1) == rv1 && abs(rv2) == rv2);
    let lam = a.lambda as int;
    assert(lam * (rv1 - s_v_inf(a)) <= lam * (rv2 - s_v_inf(a))) by (nonlinear_arith)
        requires
            0 <= lam,
            rv1 <= rv2,
    ;
    lemma_div_is_ordered(lam * (rv1 - s_v_inf(a)), lam * (rv2 - s_v_inf(a)), s);
    let u1 = (lam * (abs(rv1) - s_v_inf(a))) / s;
    let u2 = (lam * (abs(rv2) - s_v_inf(a))) / s;
    lemma_sigmoid_mono(u1, u2);
    let d = a.cd_max - a.cd_min;
    assert(d * s_sigmoid(u1) <= d * s_sigmoid(u2)) by (nonlinear_arith)
        requires
            0 <= d,
            s_sigmoid(u1) <= s_sigmoid(u2),
    ;
    lemma_div_is_ordered(d * s_sigmoid(u1), d * s_sigmoid(u2), s);
    lemma_gain_band(a, s_sigmoid(u1));
    lemma_gain_band(a, s_sigmoid(u2));
    let g1 = s_gain(a, d1, dt);
    let g2 = s_gain(a, d2, dt);
    assert(d1 * g1 <= d2 * g2 && 0 <= d1 * g1) by (nonlinear_arith)
        requires
            0 <= d1 <= d2,
            0 <= g1 <= g2,
    ;
    assert(s_accel(a, d1, dt) == (d1 * g1) / s && s_accel(a, d2, dt) == (d2 * g2) / s);
    lemma_div_is_ordered(d1 * g1, d2 * g2, s);
}

/// The gain always stays inside `[cd_min, cd_max]`.
pub proof fn lemma_gain_in_band(a: Acceleration, diff: int, dt: int)
    requires
        a.wf(),
    ensures
        a.cd_min <= s_gain(a, diff, dt) <= a.cd_max,
{
    let s = FX_ONE as int;
    let u = ((a.lambda as int) * (abs(s_raw_vel(diff, dt)) - s_v_inf(a))) / s;
    lemma_sigmoid_mono(u, u);
    lemma_gain_band(a, s_sigmoid(u));
}

/// A nonnegative displacement never accelerates to a negative one.
proof fn lemma_accel_nonneg(a: Acceleration, d: int, dt: int)
    requires
        a.wf(),
        0 <= d,
    ensures
        0 <= s_accel(a, d, dt),
{
    lemma_gain_in_band(a, d, dt);
    let g = s_gain(a, d, dt);
    assert(0 <= d * g) by (nonlinear_arith)
        requires
            0 <= d,
            0 <= g,
    ;
    lemma_div_pos_is_pos(d * g, FX_ONE as int);
}

/// The transfer function is odd: reversing the displacement reverses
/// the output exactly, so direction is preserved and only the magnitude
/// is scaled.
pub proof fn lemma_accel_odd(a: Acceleration, diff: int, dt: int)
    ensures
        s_accel(a, -diff, dt) == -s_accel(a, diff, dt),
{
    let s = FX_ONE as int;
    assert((-diff) * dt == -(diff * dt)) by (nonlinear_arith)
        requires
            true,
    ;
    lemma_div_trunc_odd(diff * dt, s);
    assert(s_raw_vel(-diff, dt) == -s_raw_vel(diff, dt));
    assert(abs(-s_raw_vel(diff, dt)) == abs(s_raw_vel(diff, dt)));
    assert(s_gain(a, -diff, dt) == s_gain(a, diff, dt));
    let g = s_gain(a, diff, dt);
    assert((-diff) * g == -(diff * g)) by (nonlinear_arith)
        requires
            true,
    ;
    lemma_div_trunc_odd(diff * g, s);
}

/// The output's magnitude is monotonic in the displacement's magnitude,
/// whatever the displacement's sign.
pub proof fn lemma_accel_monotone_abs(a: Acceleration, d1: int, d2: int, dt: int)
    requires
        a.wf(),
        abs(d1) <= abs(d2),
        0 <= dt,
    ensures
        abs(s_accel(a, d1, dt)) <= abs(s_accel(a, d2, dt)),
{
    let m1 = abs(d1) as int;
    let m2 = abs(d2) as int;
    lemma_accel_monotone(a, m1, m2, dt);
    lemma_accel_nonneg(a, m1, dt);
    lemma_accel_nonneg(a, m2, dt);
    if d1 < 0 {
        lemma_accel_odd(a, m1, dt);
        assert(s_accel(a, d1, dt) == -s_accel(a, m1, dt));
    }
    if d2 < 0 {
        lemma_accel_odd(a, m2, dt);
        assert(s_accel(a, d2, dt) == -s_accel(a, m2, dt));
    }
}

/// Fixed-point `e^(-t)`, `t >= 0`.
fn exp_neg_fx(t: i128) -> (r: i64)
    requires
        0 <= t,
    ensures
        r == s_exp_neg(t as int),
        0 <= r <= FX_ONE,
{
    if t >= EXP_CAP as i128 {
        return 0;
    }
    proof {
        lemma_div_is_ordered(t as int, EXP_CAP as int - 1, 16);
        lemma_div_pos_is_pos(t as int, 16);
        lemma_fundamental_div_mod_converse_div(EXP_CAP as int - 1, 16, 1048575, 15);
    }
    let b: i128 = FX_ONE as i128 + div_floor_i(t, 16);
    proof {
        lemma_stage(b as int, b as int, 17);
    }
    let p1: i128 = div_floor_i(mul_i(b, b), FX_ONE as i128);
    proof {
        lemma_stage(p1 as int, p1 as int, 289);
    }
    let p2: i128 = div_floor_i(mul_i(p1, p1), FX_ONE as i128);
    proof {
        lemma_stage(p2 as int, p2 as int, 83521);
    }
    let p3: i128 = div_floor_i(mul_i(p2, p2), FX_ONE as i128);
    proof {
        lemma_stage(p3 as int, p3 as int, 6975757441);
    }
    let p4: i128 = div_floor_i(mul_i(p3, p3), FX_ONE as i128);
    let en: i128 = div_floor_i(mul_i(FX_ONE as i128, FX_ONE as i128), p4);
    proof {
        lemma_div_is_ordered_by_denominator(
            (FX_ONE as int) * (FX_ONE as int),
            FX_ONE as int,
            p4 as int,
        );
        lemma_div_multiples_vanish(FX_ONE as int, FX_ONE as int);
        lemma_div_pos_is_pos((FX_ONE as int) * (FX_ONE as int), p4 as int);
    }
    en as i64
}

/// Fixed-point logistic.
fn sigmoid_fx(u: i128) -> (r: i64)
    requires
        -170141183460469231731687303715884105727 <= u,
    ensures
        r == s_sigmoid(u as int),
        0 <= r <= FX_ONE,
{
    let s2: i128 = mul_i(FX_ONE as i128, FX_ONE as i128);
    if u >= 0 {
        let en: i64 = exp_neg_fx(u);
        let q: i128 = div_floor_i(s2, FX_ONE as i128 + en as i128);
        proof {
            lemma_div_is_ordered_by_denominator(
                (FX_ONE as int) * (FX_ONE as int),
                FX_ONE as int,
                FX_ONE as int + en as int,
            );
            lemma_div_multiples_vanish(FX_ONE as int, FX_ONE as int);
            lemma_div_pos_is_pos((FX_ONE as int) * (FX_ONE as int), FX_ONE as int + en as int);
        }
        q as i64
    } else {
        let en: i64 = exp_neg_fx(-u);
        let q: i128 = div_floor_i(s2, FX_ONE as i128 + en as i128);
        proof {
            lemma_div_is_ordered_by_denominator(
                (FX_ONE as int) * (FX_ONE as int),
                FX_ONE as int,
                FX_ONE as int + en as int,
            );
            lemma_div_multiples_vanish(FX_ONE as int, FX_ONE as int);
            lemma_div_pos_is_pos((FX_ONE as int) * (FX_ONE as int), FX_ONE as int + en as int);
        }
        FX_ONE - (q as i64)
    }
}

impl Acceleration {
    /// Map a raw displacement to its accelerated displacement.
    pub fn transform(&self, diff: i64, dt: i64) -> (r: i64)
        requires
            self.wf(),
            -FX_LIM <= diff <= FX_LIM,
            0 <= dt <= FX_LIM,
        ensures
            r == s_accel(*self, diff as int, dt as int),
            diff == 0 ==> r == 0,
    {
        let vinf: i128 = mul_div_floor(
            self.ratio as i128,
            (self.v_max - self.v_min) as i128,
            FX_ONE as i128,
        ) + self.v_min as i128;
        proof {
            assert(0 <= (self.ratio as int) * ((self.v_max - self.v_min) as int) <= (
            FX_LIM as int) * (FX_ONE as int)) by (nonlinear_arith)
                requires
                    0 <= self.ratio <= FX_ONE,
                    0 <= self.v_max - self.v_min <= FX_LIM,
            ;
            lemma_div_in_range(
                (self.ratio as int) * ((self.v_max - self.v_min) as int),
                FX_ONE as int,
                FX_LIM as int,
            );
            lemma_div_pos_is_pos(
                (self.ratio as int) * ((self.v_max - self.v_min) as int),
                FX_ONE as int,
            );
        }
        let rv: i128 = div_trunc_i(mul_i(diff as i128, dt as i128), FX_ONE as i128);
        proof {
            assert(-(72057594037927936 * (FX_ONE as int)) <= (diff as int) * (dt as int) <= (
            72057594037927936 * (FX_ONE as int))) by (nonlinear_arith)
                requires
                    -FX_LIM <= diff <= FX_LIM,
                    0 <= dt <= FX_LIM,
                    FX_LIM == 68719476736i64,
                    FX_ONE == 65536i64,
            ;
            lemma_trunc_in_range(
                (diff as int) * (dt as int),
                FX_ONE as int,
                72057594037927936,  // 2^56
            );
        }
        let arv: i128 = if rv >= 0 {
            rv
        } else {
            -rv
        };
        let u: i128 = mul_div_floor(self.lambda as i128, arv - vinf, FX_ONE as i128);
        let sig: i64 = sigmoid_fx(u);
        let cd: i128 = mul_div_floor(
            (self.cd_max - self.cd_min) as i128,
            sig as i128,
            FX_ONE as i128,
        ) + self.cd_min as i128;
        proof {
            lemma_gain_band(*self, sig as int);
        }
        let out: i128 = div_trunc_i(mul_i(diff as i128, cd as i128), FX_ONE as i128);
        proof {
            assert(-((FX_LIM as int) * (FX_LIM as int)) <= (diff as int) * (cd as int) <= (
            FX_LIM as int) * (FX_LIM as int)) by (nonlinear_arith)
                requires
                    -FX_LIM <= diff <= FX_LIM,
                    0 <= cd <= FX_LIM,
            ;
            assert((FX_LIM as int) * (FX_LIM as int) == 72057594037927936 * (FX_ONE as int))
                by (nonlinear_arith)
                requires
                    FX_LIM == 68719476736i64,
                    FX_ONE == 65536i64,
            ;
            lemma_trunc_in_range(
                (diff as int) * (cd as int),
                FX_ONE as int,
                72057594037927936,  // 2^56
            );
            if diff == 0 {
                assert((0int) * (cd as int) == 0) by (nonlinear_arith)
                    requires
                        true,
                ;
                lemma_basic_div(0, FX_ONE as int);
            }
        }
        out as i64
    }
}

} // verus!
