//! Exponential smoothing primitive.
//!
//! The first sample passed through becomes the output verbatim, which
//! avoids a cold-start transient toward zero. Every later output is the
//! convex combination `alpha * x + (1 - alpha) * previous`, taken in
//! fixed point with the quotient rounded toward negative infinity.

use vstd::prelude::*;
use vstd::math::{abs, min, max};
use vstd::arithmetic::div_mod::{
    lemma_div_is_ordered, lemma_div_multiples_vanish, lemma_hoist_over_denominator,
};
use crate::fx::{FX_ONE, SPEED_LIM, mul_i, div_floor_i};

verus! {

pub struct LowPassFilter {
    pub first_time: bool,
    pub hat_x_prev: i64,
}

impl LowPassFilter {
    /// The stored output stays inside the range the pipeline works in.
    pub open spec fn wf(self) -> bool {
        -SPEED_LIM <= self.hat_x_prev <= SPEED_LIM
    }

    /// The value the next output blends with: the input itself on the
    /// first call, the stored output afterwards.
    pub open spec fn blend_base(self, x: int) -> int {
        if self.first_time {
            x
        } else {
            self.hat_x_prev as int
        }
    }

    /// One smoothing step: `(alpha * x + (FX_ONE - alpha) * prev) / FX_ONE`.
    pub open spec fn step_out(self, x: int, alpha: int) -> int {
        (alpha * x + (FX_ONE - alpha) * self.blend_base(x)) / (FX_ONE as int)
    }

    pub fn new() -> (r: LowPassFilter)
        ensures
            r.first_time,
            r.hat_x_prev == 0,
            r.wf(),
    {
        LowPassFilter { first_time: true, hat_x_prev: 0 }
    }

    pub fn filter(&mut self, x: i64, alpha: i64) -> (r: i64)
        requires
            old(self).wf(),
            -SPEED_LIM <= x <= SPEED_LIM,
            0 <= alpha <= FX_ONE,
        ensures
            r == old(self).step_out(x as int, alpha as int),
            !final(self).first_time,
            final(self).hat_x_prev == r,
            final(self).wf(),
            old(self).first_time ==> r == x,
            min(x as int, old(self).blend_base(x as int)) <= r
                <= max(x as int, old(self).blend_base(x as int)),
    {
        if self.first_time {
            self.first_time = false;
            self.hat_x_prev = x;
        }
        let p: i64 = self.hat_x_prev;
        let a: i128 = mul_i(alpha as i128, x as i128);
        let b: i128 = mul_i((FX_ONE - alpha) as i128, p as i128);
        let ghost lo: int = min(x as int, p as int);
        let ghost hi: int = max(x as int, p as int);
        proof {
            assert((FX_ONE as int) * lo <= (alpha as int) * (x as int) + ((FX_ONE - alpha) as int)
                * (p as int) <= (FX_ONE as int) * hi) by (nonlinear_arith)
                requires
                    0 <= alpha <= FX_ONE,
                    lo <= x <= hi,
                    lo <= p <= hi,
                    lo == min(x as int, p as int),
                    hi == max(x as int, p as int),
            ;
            lemma_div_is_ordered((FX_ONE as int) * lo, a + b, FX_ONE as int);
            lemma_div_is_ordered(a + b, (FX_ONE as int) * hi, FX_ONE as int);
            lemma_div_multiples_vanish(lo, FX_ONE as int);
            lemma_div_multiples_vanish(hi, FX_ONE as int);
        }
        let y: i128 = div_floor_i(a + b, FX_ONE as i128);
        let r: i64 = y as i64;
        self.hat_x_prev = r;
        r
    }
}

/// For a constant input `x`, one step multiplies the error by
/// `(FX_ONE - alpha) / FX_ONE` exactly (quotient rounded toward negative
/// infinity), so the output approaches `x` geometrically and the error
/// magnitude never grows.
pub proof fn lemma_low_pass_converges(f: LowPassFilter, x: int, alpha: int)
    requires
        !f.first_time,
        0 <= alpha <= FX_ONE,
    ensures
        f.step_out(x, alpha) - x == ((FX_ONE - alpha) * (f.hat_x_prev - x)) / (FX_ONE as int),
        abs(f.step_out(x, alpha) - x) <= abs(f.hat_x_prev - x),
{
    let s = FX_ONE as int;
    let p = f.hat_x_prev as int;
    let num = alpha * x + (s - alpha) * p;
    lemma_hoist_over_denominator(num, -x, FX_ONE as nat);
    assert(num + (-x) * s == (s - alpha) * (p - x)) by (nonlinear_arith)
        requires
            num == alpha * x + (s - alpha) * p,
    ;
    let e = p - x;
    let q = ((s - alpha) * e) / s;
    if e >= 0 {
        assert(0 <= (s - alpha) * e <= s * e) by (nonlinear_arith)
            requires
                0 <= alpha <= s,
                e >= 0,
        ;
        lemma_div_is_ordered(0, (s - alpha) * e, s);
        lemma_div_is_ordered((s - alpha) * e, s * e, s);
        lemma_div_multiples_vanish(e, s);
    } else {
        assert(s * e <= (s - alpha) * e <= 0) by (nonlinear_arith)
            requires
                0 <= alpha <= s,
                e < 0,
        ;
        lemma_div_is_ordered(s * e, (s - alpha) * e, s);
        lemma_div_is_ordered((s - alpha) * e, 0, s);
        lemma_div_multiples_vanish(e, s);
    }
}

} // verus!
