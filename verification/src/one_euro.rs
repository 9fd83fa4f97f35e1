//! Adaptive-cutoff (1€) filter.
//!
//! The raw derivative of the signal is estimated, smoothed through one
//! low-pass filter, and used to raise the cutoff frequency of a second
//! low-pass filter that smooths the signal itself: faster motion means a
//! higher cutoff, trading jitter suppression for responsiveness.
//!
//! With `rate = 1 / dt` the smoothing factor for a cutoff `c` is
//! `alpha = 1 / (1 + rate / (2 pi c))`, taken here in fixed point as
//! `(tp * FX_ONE) / (tp + rate)` with `tp = (FX_TWO_PI * c) / FX_ONE`.

use vstd::prelude::*;
use vstd::math::abs;
use vstd::arithmetic::div_mod::{
    lemma_div_is_ordered, lemma_div_is_ordered_by_denominator, lemma_div_multiples_vanish,
    lemma_fundamental_div_mod_converse_div, lemma_div_pos_is_pos, lemma_basic_div,
};
use crate::fx::{
    FX_ONE, FX_LIM, FX_TWO_PI, SPEED_LIM, FxVec2, mul_i, mul_small, mul_div_floor, div_floor_i,
    lemma_div_in_range,
};
use crate::lowpass::LowPassFilter;

verus! {

/// Largest cutoff value the adaptive step can produce (2^74).
pub const CUT_LIM: i128 = 18889465931478580854784;

pub struct OneEuroFilter {
    pub first_time: bool,
    pub mincutoff: i64,
    pub beta: i64,
    pub dcutoff: i64,
    pub xfilt: LowPassFilter,
    pub dxfilt: LowPassFilter,
}

/// Fixed-point sampling rate `1 / dt`.
pub open spec fn rate_of(dt: int) -> int {
    ((FX_ONE as int) * (FX_ONE as int)) / dt
}

/// Fixed-point smoothing factor for a sampling rate and a cutoff frequency.
pub open spec fn alpha_of(rate: int, cutoff: int) -> int {
    let tp = ((FX_TWO_PI as int) * cutoff) / (FX_ONE as int);
    (tp * (FX_ONE as int)) / (tp + rate)
}

impl OneEuroFilter {
    pub open spec fn wf(self) -> bool {
        &&& 1 <= self.mincutoff <= FX_LIM
        &&& 1 <= self.dcutoff <= FX_LIM
        &&& 0 <= self.beta <= FX_LIM
        &&& -FX_LIM <= self.xfilt.hat_x_prev <= FX_LIM
        &&& self.dxfilt.wf()
    }

    /// Raw derivative estimate for the incoming sample: zero on the first
    /// call, otherwise the difference to the previous smoothed signal
    /// scaled by the sampling rate.
    pub open spec fn s_dx(self, x: int, dt: int) -> int {
        if self.first_time {
            0
        } else {
            ((x - self.xfilt.hat_x_prev) * rate_of(dt)) / (FX_ONE as int)
        }
    }

    /// Smoothed derivative estimate.
    pub open spec fn s_edx(self, x: int, dt: int) -> int {
        self.dxfilt.step_out(self.s_dx(x, dt), alpha_of(rate_of(dt), self.dcutoff as int))
    }

    /// Adaptive cutoff: the minimum cutoff, raised in proportion to the
    /// magnitude of the smoothed derivative.
    pub open spec fn s_cutoff(self, x: int, dt: int) -> int {
        self.mincutoff + ((self.beta as int) * abs(self.s_edx(x, dt))) / (FX_ONE as int)
    }

    /// The filtered signal for one sample.
    pub open spec fn s_out(self, x: int, dt: int) -> int {
        self.xfilt.step_out(x, alpha_of(rate_of(dt), self.s_cutoff(x, dt)))
    }

    pub fn new(mincutoff: i64, beta: i64, dcutoff: i64) -> (r: OneEuroFilter)
        requires
            1 <= mincutoff <= FX_LIM,
            1 <= dcutoff <= FX_LIM,
            0 <= beta <= FX_LIM,
        ensures
            r.first_time,
            r.mincutoff == mincutoff,
            r.beta == beta,
            r.dcutoff == dcutoff,
            r.xfilt.first_time && r.xfilt.hat_x_prev == 0,
            r.dxfilt.first_time && r.dxfilt.hat_x_prev == 0,
            r.wf(),
    {
        OneEuroFilter {
            first_time: true,
            mincutoff,
            beta,
            dcutoff,
            xfilt: LowPassFilter::new(),
            dxfilt: LowPassFilter::new(),
        }
    }

    /// Fixed-point smoothing factor; always in `[0, FX_ONE]`.
    fn alpha(rate: i64, cutoff: i128) -> (a: i64)
        requires
            0 <= rate <= (FX_ONE as int) * (FX_ONE as int),
            1 <= cutoff <= CUT_LIM,
        ensures
            a == alpha_of(rate as int, cutoff as int),
            0 <= a <= FX_ONE,
    {
        let prod: i128 = mul_small(cutoff, FX_TWO_PI as i128);
        proof {
            assert(cutoff * (FX_TWO_PI as int) == (FX_TWO_PI as int) * cutoff)
                by (nonlinear_arith)
                requires
                    true,
            ;
        }
        let tp: i128 = div_floor_i(prod, FX_ONE as i128);
        proof {
            // tp >= 6 because FX_TWO_PI / FX_ONE == 6.
            assert((FX_TWO_PI as int) * 1 <= (FX_TWO_PI as int) * cutoff) by (nonlinear_arith)
                requires
                    1 <= cutoff,
            ;
            lemma_div_is_ordered(FX_TWO_PI as int, (FX_TWO_PI as int) * cutoff, FX_ONE as int);
            lemma_fundamental_div_mod_converse_div(FX_TWO_PI as int, FX_ONE as int, 6, 18559);
            // upper bound keeps tp * FX_ONE inside the small-multiply range
            assert((FX_TWO_PI as int) * cutoff <= 411775 * CUT_LIM) by (nonlinear_arith)
                requires
                    cutoff <= CUT_LIM,
            ;
            lemma_div_is_ordered((FX_TWO_PI as int) * cutoff, 411775 * CUT_LIM, FX_ONE as int);
        }
        let num: i128 = mul_small(tp, FX_ONE as i128);
        let den: i128 = tp + rate as i128;
        let a128: i128 = div_floor_i(num, den);
        proof {
            lemma_div_is_ordered_by_denominator(num as int, tp as int, den as int);
            assert(tp * (FX_ONE as int) == (FX_ONE as int) * tp) by (nonlinear_arith)
                requires
                    true,
            ;
            lemma_div_multiples_vanish(FX_ONE as int, tp as int);
            lemma_div_pos_is_pos(num as int, den as int);
        }
        a128 as i64
    }

    /// Filter one sample taken `dt` seconds after the previous one.
    pub fn filter(&mut self, x: i64, dt: i64) -> (r: i64)
        requires
            old(self).wf(),
            -FX_LIM <= x <= FX_LIM,
            1 <= dt <= FX_LIM,
        ensures
            r == old(self).s_out(x as int, dt as int),
            !final(self).first_time,
            final(self).mincutoff == old(self).mincutoff,
            final(self).beta == old(self).beta,
            final(self).dcutoff == old(self).dcutoff,
            !final(self).dxfilt.first_time,
            final(self).dxfilt.hat_x_prev == old(self).s_edx(x as int, dt as int),
            !final(self).xfilt.first_time,
            final(self).xfilt.hat_x_prev == r,
            -FX_LIM <= r <= FX_LIM,
            final(self).wf(),
    {
        let rate128: i128 = div_floor_i(mul_i(FX_ONE as i128, FX_ONE as i128), dt as i128);
        proof {
            lemma_div_is_ordered_by_denominator(
                (FX_ONE as int) * (FX_ONE as int),
                1,
                dt as int,
            );
        }
        let rate: i64 = rate128 as i64;
        let dx: i64 = if self.first_time {
            self.first_time = false;
            0
        } else {
            let diff: i64 = x - self.xfilt.hat_x_prev;
            proof {
                assert(-(SPEED_LIM as int) * (FX_ONE as int) <= (diff as int) * (rate as int)
                    <= (SPEED_LIM as int) * (FX_ONE as int)) by (nonlinear_arith)
                    requires
                        -2 * (FX_LIM as int) <= diff <= 2 * (FX_LIM as int),
                        0 <= rate <= (FX_ONE as int) * (FX_ONE as int),
                        SPEED_LIM == 9007199254740992i64,
                        FX_LIM == 68719476736i64,
                        FX_ONE == 65536i64,
                ;
                lemma_div_in_range(
                    (diff as int) * (rate as int),
                    FX_ONE as int,
                    SPEED_LIM as int,
                );
            }
            mul_div_floor(diff as i128, rate as i128, FX_ONE as i128) as i64
        };
        let ad: i64 = Self::alpha(rate, self.dcutoff as i128);
        let edx: i64 = self.dxfilt.filter(dx, ad);
        let aedx: i64 = if edx >= 0 {
            edx
        } else {
            -edx
        };
        proof {
            assert(0 <= (self.beta as int) * (aedx as int) <= (CUT_LIM - FX_LIM as int) * (
            FX_ONE as int)) by (nonlinear_arith)
                requires
                    0 <= self.beta <= FX_LIM,
                    0 <= aedx <= SPEED_LIM,
                    SPEED_LIM == 9007199254740992i64,
                    FX_LIM == 68719476736i64,
                    FX_ONE == 65536i64,
                    CUT_LIM == 18889465931478580854784i128,
            ;
            lemma_div_in_range(
                (self.beta as int) * (aedx as int),
                FX_ONE as int,
                CUT_LIM - FX_LIM as int,
            );
            lemma_div_pos_is_pos((self.beta as int) * (aedx as int), FX_ONE as int);
        }
        let cutoff: i128 = self.mincutoff as i128 + mul_div_floor(
            self.beta as i128,
            aedx as i128,
            FX_ONE as i128,
        );
        let ax: i64 = Self::alpha(rate, cutoff);
        self.xfilt.filter(x, ax)
    }
}

/// A constant input is a fixed point of the filter: once the signal
/// filter has caught up with the input and the derivative filter holds
/// zero, the derivative estimate stays zero, the adaptive cutoff sits at
/// the minimum cutoff, and the output equals the input. Together with
/// the low-pass contraction law this is the rest state a constant signal
/// converges to.
pub proof fn lemma_one_euro_constant_fixed_point(f: OneEuroFilter, x: int, dt: int)
    requires
        f.wf(),
        !f.first_time,
        !f.dxfilt.first_time,
        f.xfilt.hat_x_prev == x,
        f.dxfilt.hat_x_prev == 0,
        1 <= dt,
    ensures
        f.s_dx(x, dt) == 0,
        f.s_edx(x, dt) == 0,
        f.s_cutoff(x, dt) == f.mincutoff,
        f.s_out(x, dt) == x,
{
    let s = FX_ONE as int;
    lemma_basic_div(0, s);
    assert((x - x) * rate_of(dt) == 0) by (nonlinear_arith)
        requires
            true,
    ;
    assert(f.s_dx(x, dt) == 0);
    let ad = alpha_of(rate_of(dt), f.dcutoff as int);
    assert(ad * 0 + (s - ad) * 0 == 0) by (nonlinear_arith)
        requires
            true,
    ;
    assert(f.s_edx(x, dt) == 0);
    assert((f.beta as int) * abs(0) == 0) by (nonlinear_arith)
        requires
            true,
    ;
    assert(f.s_cutoff(x, dt) == f.mincutoff);
    let ax = alpha_of(rate_of(dt), f.s_cutoff(x, dt));
    assert(ax * x + (s - ax) * x == s * x) by (nonlinear_arith)
        requires
            true,
    ;
    lemma_div_multiples_vanish(x, s);
}

/// Two independent adaptive filters, one per axis, sharing one tuning.
pub struct VecOneEuroFilter {
    pub xf: OneEuroFilter,
    pub yf: OneEuroFilter,
}

impl VecOneEuroFilter {
    pub open spec fn wf(self) -> bool {
        self.xf.wf() && self.yf.wf()
    }

    pub fn new(mincutoff: i64, beta: i64, dcutoff: i64) -> (r: VecOneEuroFilter)
        requires
            1 <= mincutoff <= FX_LIM,
            1 <= dcutoff <= FX_LIM,
            0 <= beta <= FX_LIM,
        ensures
            r.xf.first_time && r.yf.first_time,
            r.xf.mincutoff == mincutoff && r.yf.mincutoff == mincutoff,
            r.xf.beta == beta && r.yf.beta == beta,
            r.xf.dcutoff == dcutoff && r.yf.dcutoff == dcutoff,
            r.xf.xfilt.first_time && r.xf.dxfilt.first_time,
            r.yf.xfilt.first_time && r.yf.dxfilt.first_time,
            r.wf(),
    {
        VecOneEuroFilter {
            xf: OneEuroFilter::new(mincutoff, beta, dcutoff),
            yf: OneEuroFilter::new(mincutoff, beta, dcutoff),
        }
    }

    /// Filter one 2D sample; the axes are treated as independent signals.
    pub fn filter(&mut self, v: FxVec2, dt: i64) -> (r: FxVec2)
        requires
            old(self).wf(),
            -FX_LIM <= v.x <= FX_LIM,
            -FX_LIM <= v.y <= FX_LIM,
            1 <= dt <= FX_LIM,
        ensures
            r.x == old(self).xf.s_out(v.x as int, dt as int),
            r.y == old(self).yf.s_out(v.y as int, dt as int),
            final(self).wf(),
            -FX_LIM <= r.x <= FX_LIM,
            -FX_LIM <= r.y <= FX_LIM,
    {
        let rx: i64 = self.xf.filter(v.x, dt);
        let ry: i64 = self.yf.filter(v.y, dt);
        FxVec2 { x: rx, y: ry }
    }
}

} // verus!
