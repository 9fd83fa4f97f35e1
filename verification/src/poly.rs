//! Per-frame pointer-blending policy.
//!
//! Each frame takes the (pre-filtered) gaze point, the current mouse
//! position in whole pixels, the relative head delta and the elapsed
//! time, and produces the next mouse position. A two-state machine with
//! hysteresis decides between the modes: while tracking, sub-pixel head
//! motion is accumulated into whole-pixel nudges; once the smoothed head
//! speed crosses its threshold while gaze sits far from the cursor, the
//! cursor is thrown toward gaze at constant speed until it arrives just
//! short of the gaze point.

use vstd::prelude::*;
use vstd::math::abs;
use vstd::arithmetic::div_mod::{
    lemma_div_is_ordered, lemma_div_is_ordered_by_denominator, lemma_div_multiples_vanish,
    lemma_div_pos_is_pos, lemma_fundamental_div_mod,
};
use crate::fx::{
    FX_ONE, FX_LIM, SPEED_LIM, FxVec2, PxVec2, s_mag, in_range, mul_i, mul_small, mul_div_floor,
    div_floor_i, div_trunc_i, div_trunc, mag2d, lemma_div_in_range, lemma_mag_dominates,
};
use crate::rounder::{AccumulatingRounder, round_out, round_acc, whole_of, frac_of, lemma_frac_bounds};

verus! {

/// Largest raw magnitude accepted for a tuning parameter (2^32).
pub const PARAM_LIM: i64 = 4294967296;

/// Largest whole-pixel coordinate accepted for the mouse position (2^20).
pub const PX_LIM: i64 = 1048576;

#[derive(Clone, Copy, PartialEq, Eq, Structural, Debug)]
pub struct PolyMouseParams {
    pub min_jump: i64,
    pub speed_expand_factor: i64,
    pub head_smoothing_factor: i64,
    pub throw_thresh_speed: i64,
    pub throw_speed: i64,
    pub small_jump_factor: i64,
}

impl PolyMouseParams {
    pub open spec fn wf(self) -> bool {
        &&& 0 <= self.min_jump <= PARAM_LIM
        &&& 0 <= self.speed_expand_factor <= PARAM_LIM
        &&& 0 <= self.head_smoothing_factor <= FX_ONE
        &&& 0 <= self.throw_thresh_speed <= PARAM_LIM
        &&& 0 <= self.throw_speed <= PARAM_LIM
        &&& 0 <= self.small_jump_factor <= PARAM_LIM
    }
}

/// Length floor of a raw displacement vector.
pub open spec fn s_mag_v(v: FxVec2) -> int {
    s_mag(v.x as int, v.y as int)
}

/// Distance floor between two raw points.
pub open spec fn s_dist(a: FxVec2, b: FxVec2) -> int {
    s_mag(b.x - a.x, b.y - a.y)
}

/// The raw head speed of one frame: head-delta length over elapsed time.
pub open spec fn s_head_speed(hd: FxVec2, dt: int) -> int {
    (s_mag_v(hd) * (FX_ONE as int)) / dt
}

/// Exponential moving average of the head speed with factor `k`.
pub open spec fn s_next_shs(shs: int, k: int, hs: int) -> int {
    (shs * ((FX_ONE as int) - k) + hs * k) / (FX_ONE as int)
}

/// The jump radius: gaze farther than this from the cursor counts as a
/// distinct target. It expands with the smoothed head speed.
pub open spec fn s_jump_radius(p: PolyMouseParams, shs: int) -> int {
    p.min_jump + (shs * p.speed_expand_factor) / (FX_ONE as int)
}

/// The re-trigger guard radius around the last jump destination.
pub open spec fn s_small_jump(p: PolyMouseParams, shs: int) -> int {
    (s_jump_radius(p, shs) * p.small_jump_factor) / (FX_ONE as int)
}

/// Whether gaze sits far from both the cursor and the last jump
/// destination — the spatial half of the throw trigger.
pub open spec fn s_far(
    p: PolyMouseParams,
    shs: int,
    last_jump: FxVec2,
    gaze: FxVec2,
    mouse_f: FxVec2,
) -> bool {
    s_dist(mouse_f, gaze) > s_jump_radius(p, shs) && s_dist(last_jump, gaze) > s_small_jump(p, shs)
}

/// Distance covered by one frame of a throw.
pub open spec fn s_throw_dist(p: PolyMouseParams, dt: int) -> int {
    ((p.throw_speed as int) * dt) / (FX_ONE as int)
}

/// The mouse position lifted from whole pixels to raw coordinates.
pub open spec fn fx_of_px(m: PxVec2) -> FxVec2 {
    FxVec2 { x: (m.x * FX_ONE) as i64, y: (m.y * FX_ONE) as i64 }
}

pub struct PolyMouseTransform {
    pub params: PolyMouseParams,
    pub throwing: bool,
    pub smoothed_head_speed: i64,
    pub last_jump_destination: FxVec2,
    pub x_round: AccumulatingRounder,
    pub y_round: AccumulatingRounder,
}

impl PolyMouseTransform {
    pub open spec fn wf(self) -> bool {
        &&& self.params.wf()
        &&& 0 <= self.smoothed_head_speed <= SPEED_LIM
        &&& in_range(self.last_jump_destination)
        &&& self.x_round.wf()
        &&& self.y_round.wf()
    }

    /// A fresh transform starts in the tracking state.
    pub fn new(params: PolyMouseParams) -> (r: PolyMouseTransform)
        requires
            params.wf(),
        ensures
            r.params == params,
            !r.throwing,
            r.smoothed_head_speed == 0,
            r.last_jump_destination == (FxVec2 { x: 0, y: 0 }),
            r.x_round.accum == 0,
            r.y_round.accum == 0,
            r.wf(),
    {
        PolyMouseTransform {
            params,
            throwing: false,
            smoothed_head_speed: 0,
            last_jump_destination: FxVec2 { x: 0, y: 0 },
            x_round: AccumulatingRounder::new(),
            y_round: AccumulatingRounder::new(),
        }
    }

    fn looking_far_away(&self, gaze_pt: FxVec2, mouse_pt: FxVec2) -> (r: bool)
        requires
            self.wf(),
            in_range(gaze_pt),
            in_range(mouse_pt),
        ensures
            r == s_far(
                self.params,
                self.smoothed_head_speed as int,
                self.last_jump_destination,
                gaze_pt,
                mouse_pt,
            ),
    {
        let jr: i128 = self.params.min_jump as i128 + mul_div_floor(
            self.smoothed_head_speed as i128,
            self.params.speed_expand_factor as i128,
            FX_ONE as i128,
        );
        proof {
            assert(0 <= (self.smoothed_head_speed as int) * (self.params.speed_expand_factor as int)
                <= 1237940039285380274899124224) by (nonlinear_arith)
                requires
                    0 <= self.smoothed_head_speed <= SPEED_LIM,
                    0 <= self.params.speed_expand_factor <= PARAM_LIM,
                    SPEED_LIM == 9007199254740992i64,
                    PARAM_LIM == 4294967296i64,
            ;
            lemma_div_pos_is_pos(
                (self.smoothed_head_speed as int) * (self.params.speed_expand_factor as int),
                FX_ONE as int,
            );
            lemma_div_nonincreasing_wrap(
                (self.smoothed_head_speed as int) * (self.params.speed_expand_factor as int),
                FX_ONE as int,
            );
        }
        let small: i128 = div_floor_i(
            mul_small(jr, self.params.small_jump_factor as i128),
            FX_ONE as i128,
        );
        let d1: i64 = mag2d(gaze_pt.x - mouse_pt.x, gaze_pt.y - mouse_pt.y);
        let d2: i64 = mag2d(
            gaze_pt.x - self.last_jump_destination.x,
            gaze_pt.y - self.last_jump_destination.y,
        );
        (d1 as i128) > jr && (d2 as i128) > small
    }

    /// Advance one frame: update the smoothed head speed, take the throw
    /// decision, and produce the next mouse position in whole pixels.
    pub fn transform(
        &mut self,
        gaze_pt: FxVec2,
        mouse_pt: PxVec2,
        head_delta: FxVec2,
        dt: i64,
    ) -> (r: PxVec2)
        requires
            old(self).wf(),
            in_range(gaze_pt),
            in_range(head_delta),
            -PX_LIM <= mouse_pt.x <= PX_LIM,
            -PX_LIM <= mouse_pt.y <= PX_LIM,
            1 <= dt <= FX_LIM,
        ensures
            final(self).wf(),
            final(self).params == old(self).params,
            final(self).smoothed_head_speed == s_next_shs(
                old(self).smoothed_head_speed as int,
                old(self).params.head_smoothing_factor as int,
                s_head_speed(head_delta, dt as int),
            ),
            ({
                let p = old(self).params;
                let shs2 = s_next_shs(
                    old(self).smoothed_head_speed as int,
                    p.head_smoothing_factor as int,
                    s_head_speed(head_delta, dt as int),
                );
                let mouse_f = fx_of_px(mouse_pt);
                let entering = s_far(p, shs2, old(self).last_jump_destination, gaze_pt, mouse_f)
                    && shs2 > p.throw_thresh_speed;
                let t1 = old(self).throwing || entering;
                if t1 {
                    let dist = s_dist(mouse_f, gaze_pt);
                    let td = s_throw_dist(p, dt as int);
                    let dx = gaze_pt.x - mouse_f.x;
                    let dy = gaze_pt.y - mouse_f.y;
                    &&& final(self).x_round == old(self).x_round
                    &&& final(self).y_round == old(self).y_round
                    &&& if dist > td + p.min_jump {
                        // partway: advance toward gaze, keep throwing
                        &&& final(self).throwing
                        &&& final(self).last_jump_destination == old(self).last_jump_destination
                        &&& r.x == div_trunc(mouse_f.x + (dx * td) / dist, FX_ONE as int)
                        &&& r.y == div_trunc(mouse_f.y + (dy * td) / dist, FX_ONE as int)
                    } else {
                        // arrived: land short of gaze by the jump radius
                        // (or exactly on it when the cursor already sits
                        // there and no direction exists), return to
                        // tracking and remember the destination
                        &&& !final(self).throwing
                        &&& final(self).last_jump_destination == gaze_pt
                        &&& r.x == (if dist == 0 {
                            div_trunc(gaze_pt.x as int, FX_ONE as int)
                        } else {
                            div_trunc(
                                gaze_pt.x - (dx * (p.min_jump as int)) / dist,
                                FX_ONE as int,
                            )
                        })
                        &&& r.y == (if dist == 0 {
                            div_trunc(gaze_pt.y as int, FX_ONE as int)
                        } else {
                            div_trunc(
                                gaze_pt.y - (dy * (p.min_jump as int)) / dist,
                                FX_ONE as int,
                            )
                        })
                    }
                } else {
                    &&& !final(self).throwing
                    &&& final(self).last_jump_destination == old(self).last_jump_destination
                    &&& final(self).x_round.accum == round_acc(
                        old(self).x_round.accum as int,
                        head_delta.x as int,
                    )
                    &&& final(self).y_round.accum == round_acc(
                        old(self).y_round.accum as int,
                        head_delta.y as int,
                    )
                    &&& r.x == mouse_pt.x + round_out(
                        old(self).x_round.accum as int,
                        head_delta.x as int,
                    )
                    &&& r.y == mouse_pt.y + round_out(
                        old(self).y_round.accum as int,
                        head_delta.y as int,
                    )
                }
            }),
    {
        let k: i64 = self.params.head_smoothing_factor;
        let mag: i64 = mag2d(head_delta.x, head_delta.y);
        let mags: i128 = mul_i(mag as i128, FX_ONE as i128);
        proof {
            assert((mag as int) * (FX_ONE as int) <= (SPEED_LIM as int) * 1) by (nonlinear_arith)
                requires
                    0 <= mag <= 2 * (FX_LIM as int),
                    FX_LIM == 68719476736i64,
                    FX_ONE == 65536i64,
                    SPEED_LIM == 9007199254740992i64,
            ;
            lemma_div_in_range(mags as int, dt as int, SPEED_LIM as int);
            lemma_div_pos_is_pos(mags as int, dt as int);
        }
        let hs: i64 = div_floor_i(mags, dt as i128) as i64;
        let num: i128 = mul_i(self.smoothed_head_speed as i128, (FX_ONE - k) as i128) + mul_i(
            hs as i128,
            k as i128,
        );
        proof {
            assert(0 <= (self.smoothed_head_speed as int) * ((FX_ONE - k) as int) + (hs as int) * (
            k as int) <= (SPEED_LIM as int) * (FX_ONE as int)) by (nonlinear_arith)
                requires
                    0 <= self.smoothed_head_speed <= SPEED_LIM,
                    0 <= hs <= SPEED_LIM,
                    0 <= k <= FX_ONE,
                    FX_ONE == 65536i64,
                    SPEED_LIM == 9007199254740992i64,
            ;
            lemma_div_in_range(num as int, FX_ONE as int, SPEED_LIM as int);
            lemma_div_pos_is_pos(num as int, FX_ONE as int);
        }
        let shs2: i64 = div_floor_i(num, FX_ONE as i128) as i64;
        self.smoothed_head_speed = shs2;

        let mouse_f = FxVec2 { x: mouse_pt.x * FX_ONE, y: mouse_pt.y * FX_ONE };
        if self.looking_far_away(gaze_pt, mouse_f) && shs2 > self.params.throw_thresh_speed {
            self.throwing = true;
        }

        if self.throwing {
            let td: i128 = mul_div_floor(
                self.params.throw_speed as i128,
                dt as i128,
                FX_ONE as i128,
            );
            proof {
                assert(0 <= (self.params.throw_speed as int) * (dt as int)
                    <= 4503599627370496 * (FX_ONE as int)) by (nonlinear_arith)
                    requires
                        0 <= self.params.throw_speed <= PARAM_LIM,
                        1 <= dt <= FX_LIM,
                        PARAM_LIM == 4294967296i64,
                        FX_LIM == 68719476736i64,
                        FX_ONE == 65536i64,
                ;
                lemma_div_in_range(
                    (self.params.throw_speed as int) * (dt as int),
                    FX_ONE as int,
                    4503599627370496,  // 2^52
                );
                lemma_div_pos_is_pos(
                    (self.params.throw_speed as int) * (dt as int),
                    FX_ONE as int,
                );
            }
            let dx: i64 = gaze_pt.x - mouse_f.x;
            let dy: i64 = gaze_pt.y - mouse_f.y;
            let dist: i64 = mag2d(dx, dy);
            proof {
                lemma_mag_dominates(dx as int, dy as int);
            }
            if (dist as i128) > td + self.params.min_jump as i128 {
                let mx: i128 = div_floor_i(mul_i(dx as i128, td), dist as i128);
                let my: i128 = div_floor_i(mul_i(dy as i128, td), dist as i128);
                proof {
                    lemma_move_bounded(dx as int, td as int, dist as int);
                    lemma_move_bounded(dy as int, td as int, dist as int);
                }
                let ox: i128 = mouse_f.x as i128 + mx;
                let oy: i128 = mouse_f.y as i128 + my;
                let px: i128 = div_trunc_i(ox, FX_ONE as i128);
                let py: i128 = div_trunc_i(oy, FX_ONE as i128);
                PxVec2 { x: px as i64, y: py as i64 }
            } else {
                self.last_jump_destination = gaze_pt;
                self.throwing = false;
                if dist == 0 {
                    let px: i128 = div_trunc_i(gaze_pt.x as i128, FX_ONE as i128);
                    let py: i128 = div_trunc_i(gaze_pt.y as i128, FX_ONE as i128);
                    PxVec2 { x: px as i64, y: py as i64 }
                } else {
                    let mx: i128 = div_floor_i(
                        mul_i(dx as i128, self.params.min_jump as i128),
                        dist as i128,
                    );
                    let my: i128 = div_floor_i(
                        mul_i(dy as i128, self.params.min_jump as i128),
                        dist as i128,
                    );
                    proof {
                        lemma_move_bounded(dx as int, self.params.min_jump as int, dist as int);
                        lemma_move_bounded(dy as int, self.params.min_jump as int, dist as int);
                    }
                    let ox: i128 = gaze_pt.x as i128 - mx;
                    let oy: i128 = gaze_pt.y as i128 - my;
                    let px: i128 = div_trunc_i(ox, FX_ONE as i128);
                    let py: i128 = div_trunc_i(oy, FX_ONE as i128);
                    PxVec2 { x: px as i64, y: py as i64 }
                }
            }
        } else {
            let rx: i64 = self.x_round.round(head_delta.x);
            let ry: i64 = self.y_round.round(head_delta.y);
            proof {
                lemma_round_result_bounded(
                    old(self).x_round.accum as int,
                    head_delta.x as int,
                    rx as int,
                    self.x_round.accum as int,
                );
                lemma_round_result_bounded(
                    old(self).y_round.accum as int,
                    head_delta.y as int,
                    ry as int,
                    self.y_round.accum as int,
                );
            }
            PxVec2 { x: mouse_pt.x + rx, y: mouse_pt.y + ry }
        }
    }
}

/// A quotient by a positive divisor does not grow a nonnegative dividend.
proof fn lemma_div_nonincreasing_wrap(x: int, d: int)
    requires
        0 <= x,
        1 <= d,
    ensures
        0 <= x / d <= x,
{
    lemma_div_pos_is_pos(x, d);
    lemma_div_is_ordered_by_denominator(x, 1, d);
    lemma_div_multiples_vanish(x, 1);
}

/// The per-axis throw displacement never exceeds the frame's throw
/// distance: each axis moves toward gaze without overshooting.
pub proof fn lemma_move_bounded(d: int, td: int, dist: int)
    requires
        0 <= td,
        1 <= dist,
        -dist <= d <= dist,
    ensures
        -td <= (d * td) / dist <= td,
        d >= 0 ==> 0 <= (d * td) / dist <= d * td,
        d <= 0 ==> (d * td) / dist <= 0,
    decreases 0int,
{
    assert(-(dist * td) <= d * td <= dist * td) by (nonlinear_arith)
        requires
            0 <= td,
            -dist <= d <= dist,
    ;
    lemma_div_is_ordered(-(dist * td), d * td, dist);
    lemma_div_is_ordered(d * td, dist * td, dist);
    lemma_div_multiples_vanish(td, dist);
    lemma_div_multiples_vanish(-td, dist);
    assert(dist * (-td) == -(dist * td)) by (nonlinear_arith)
        requires
            true,
    ;
    if d >= 0 {
        assert(d * td >= 0) by (nonlinear_arith)
            requires
                d >= 0,
                td >= 0,
        ;
        lemma_div_pos_is_pos(d * td, dist);
        lemma_div_nonincreasing_wrap(d * td, dist);
    } else {
        assert(d * td <= 0) by (nonlinear_arith)
            requires
                d <= 0,
                td >= 0,
        ;
        lemma_div_is_ordered(d * td, 0, dist);
        lemma_div_multiples_vanish(0, dist);
    }
}

/// One axis of a throw step: the displacement keeps its axis between its
/// start and the gaze coordinate, and on an axis carrying at least half
/// the distance it advances by at least half the frame's throw distance
/// (so by at least one raw unit).
proof fn lemma_axis_step(d: int, td: int, dist: int)
    requires
        2 <= td,
        td < dist,
        -dist <= d <= dist,
    ensures
        abs(d - (d * td) / dist) <= abs(d),
        2 * abs(d) >= dist ==> abs(d - (d * td) / dist) <= abs(d) - td / 2,
        2 * abs(d) >= dist ==> abs(d - (d * td) / dist) <= abs(d) - 1,
{
    lemma_move_bounded(d, td, dist);
    let h = td / 2;
    assert(1 <= h && 2 * h <= td) by {
        lemma_fundamental_div_mod(td, 2);
        lemma_div_is_ordered(2, td, 2);
        lemma_div_multiples_vanish(1, 2);
    };
    if d >= 0 {
        assert(d * td <= d * dist) by (nonlinear_arith)
            requires
                d >= 0,
                td <= dist,
        ;
        lemma_div_is_ordered(d * td, d * dist, dist);
        assert(d * dist == dist * d) by (nonlinear_arith)
            requires
                true,
        ;
        lemma_div_multiples_vanish(d, dist);
        if 2 * d >= dist {
            assert(d * td >= dist * h) by (nonlinear_arith)
                requires
                    2 * d >= dist,
                    2 * h <= td,
                    h >= 1,
                    dist >= 1,
                    d >= 0,
            ;
            lemma_div_is_ordered(dist * h, d * td, dist);
            lemma_div_multiples_vanish(h, dist);
        }
    } else {
        assert(d * td >= d * dist) by (nonlinear_arith)
            requires
                d < 0,
                td <= dist,
        ;
        lemma_div_is_ordered(d * dist, d * td, dist);
        assert(d * dist == dist * d) by (nonlinear_arith)
            requires
                true,
        ;
        lemma_div_multiples_vanish(d, dist);
        if 2 * (-d) >= dist {
            assert(d * td <= -(dist * h)) by (nonlinear_arith)
                requires
                    2 * (-d) >= dist,
                    2 * h <= td,
                    h >= 1,
                    dist >= 1,
                    d < 0,
            ;
            lemma_div_is_ordered(d * td, -(dist * h), dist);
            lemma_div_multiples_vanish(-h, dist);
            assert(dist * (-h) == -(dist * h)) by (nonlinear_arith)
                requires
                    true,
            ;
        }
    }
}

/// While a throw continues, the cursor strictly approaches the gaze
/// point: as long as a frame covers at least two raw units, the squared
/// raw distance to gaze strictly decreases, and the sum of the per-axis
/// raw distances falls by at least half the frame's throw distance.
/// Every throw therefore ends, in a number of frames bounded by that
/// linear rate of descent.
pub proof fn lemma_throw_progress(mouse_f: FxVec2, gaze: FxVec2, td: int)
    requires
        2 <= td,
        td < s_dist(mouse_f, gaze),
    ensures
        ({
            let dx = gaze.x - mouse_f.x;
            let dy = gaze.y - mouse_f.y;
            let dist = s_dist(mouse_f, gaze);
            let ndx = dx - (dx * td) / dist;
            let ndy = dy - (dy * td) / dist;
            &&& ndx * ndx + ndy * ndy < dx * dx + dy * dy
            &&& abs(ndx) + abs(ndy) <= abs(dx as int) + abs(dy as int) - td / 2
        }),
{
    let dx = gaze.x - mouse_f.x;
    let dy = gaze.y - mouse_f.y;
    let dist = s_dist(mouse_f, gaze);
    assert(dx * dx >= 0 && dy * dy >= 0 && dx * dx == abs(dx) * abs(dx) && dy * dy == abs(dy)
        * abs(dy)) by (nonlinear_arith)
        requires
            true,
    ;
    let n = (dx * dx + dy * dy) as nat;
    lemma_mag_dominates(dx as int, dy as int);
    crate::fx::lemma_sqrt_floor(n);
    assert(dist * dist <= dx * dx + dy * dy);
    let ndx = dx - (dx * td) / dist;
    let ndy = dy - (dy * td) / dist;
    lemma_axis_step(dx as int, td, dist);
    lemma_axis_step(dy as int, td, dist);
    assert(ndx * ndx == abs(ndx) * abs(ndx) && ndy * ndy == abs(ndy) * abs(ndy))
        by (nonlinear_arith)
        requires
            true,
    ;
    // one axis carries at least half the distance
    assert(2 * abs(dx as int) >= dist || 2 * abs(dy as int) >= dist) by (nonlinear_arith)
        requires
            dist * dist <= dx * dx + dy * dy,
            dist >= 0,
            abs(dx as int) >= 0,
            abs(dy as int) >= 0,
            dx * dx == abs(dx as int) * abs(dx as int),
            dy * dy == abs(dy as int) * abs(dy as int),
    ;
    assert(ndx * ndx + ndy * ndy < dx * dx + dy * dy) by (nonlinear_arith)
        requires
            abs(ndx) <= abs(dx as int),
            abs(ndy) <= abs(dy as int),
            2 * abs(dx as int) >= dist ==> abs(ndx) <= abs(dx as int) - 1,
            2 * abs(dy as int) >= dist ==> abs(ndy) <= abs(dy as int) - 1,
            2 * abs(dx as int) >= dist || 2 * abs(dy as int) >= dist,
            dist >= 1,
            ndx * ndx == abs(ndx) * abs(ndx),
            ndy * ndy == abs(ndy) * abs(ndy),
            dx * dx == abs(dx as int) * abs(dx as int),
            dy * dy == abs(dy as int) * abs(dy as int),
    ;
}

/// One full partial-throw frame of `transform`, with the pixel output
/// fed back as the next mouse position, still descends: the truncation
/// to whole pixels costs less than one unit per axis, so whenever a
/// frame covers at least four raw units the sum of the per-axis raw
/// distances to gaze falls by at least `td / 2 - 2 * (FX_ONE - 1)`.
/// This bounds the number of frames a throw can last by a linear rate.
pub proof fn lemma_throw_frame_progress(mouse_f: FxVec2, gaze: FxVec2, td: int)
    requires
        4 * (FX_ONE as int) <= td,
        td < s_dist(mouse_f, gaze),
    ensures
        ({
            let s = FX_ONE as int;
            let dx = gaze.x - mouse_f.x;
            let dy = gaze.y - mouse_f.y;
            let dist = s_dist(mouse_f, gaze);
            let nmx = s * div_trunc(mouse_f.x + (dx * td) / dist, s);
            let nmy = s * div_trunc(mouse_f.y + (dy * td) / dist, s);
            abs(gaze.x - nmx) + abs(gaze.y - nmy) <= abs(dx as int) + abs(dy as int) - (td / 2
                - 2 * (s - 1))
        }),
{
    let s = FX_ONE as int;
    let dx = gaze.x - mouse_f.x;
    let dy = gaze.y - mouse_f.y;
    let dist = s_dist(mouse_f, gaze);
    lemma_throw_progress(mouse_f, gaze, td);
    let ndx = dx - (dx * td) / dist;
    let ndy = dy - (dy * td) / dist;
    let ox = mouse_f.x + (dx * td) / dist;
    let oy = mouse_f.y + (dy * td) / dist;
    lemma_frac_bounds(ox);
    lemma_frac_bounds(oy);
    assert(whole_of(ox) == div_trunc(ox, s));
    assert(whole_of(oy) == div_trunc(oy, s));
    // the truncated coordinate sits within a unit of the raw one
    assert(gaze.x - s * div_trunc(ox, s) == ndx + frac_of(ox));
    assert(gaze.y - s * div_trunc(oy, s) == ndy + frac_of(oy));
    assert(abs(ndx + frac_of(ox)) <= abs(ndx) + (s - 1));
    assert(abs(ndy + frac_of(oy)) <= abs(ndy) + (s - 1));
}

/// The whole units one rounder call emits are bounded by the input's
/// whole units plus one carried unit either way.
proof fn lemma_round_result_bounded(acc0: int, x: int, r: int, acc1: int)
    requires
        (FX_ONE as int) * r + acc1 == x + acc0,
        -(FX_ONE as int) < acc0 < FX_ONE as int,
        -(FX_ONE as int) < acc1 < FX_ONE as int,
        -FX_LIM <= x <= FX_LIM,
    ensures
        -(PX_LIM as int) - 2 <= r <= (PX_LIM as int) + 2,
{
    assert(-(PX_LIM as int) - 2 <= r <= (PX_LIM as int) + 2) by (nonlinear_arith)
        requires
            (FX_ONE as int) * r + acc1 == x + acc0,
            -(FX_ONE as int) < acc0 < FX_ONE as int,
            -(FX_ONE as int) < acc1 < FX_ONE as int,
            -FX_LIM <= x <= FX_LIM,
            FX_ONE == 65536i64,
            FX_LIM == 68719476736i64,
            PX_LIM == 1048576i64,
    ;
}

} // verus!
