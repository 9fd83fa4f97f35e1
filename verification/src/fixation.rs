//! Dispersion-based fixation detector (I-DT style).
//!
//! A bounded FIFO keeps the most recent samples. Each frame, the spread
//! of the most recent window — sum of the per-axis ranges — is compared
//! against `max_velocity * min_fixation_s`, exactly, with both sides
//! held in raw units times `FX_ONE`; only when the window is tightly
//! clustered does the exposed "sticky" point move to the newly arrived
//! sample.

use vstd::prelude::*;
use vstd::arithmetic::div_mod::lemma_div_pos_is_pos;
use crate::fx::{FX_ONE, FX_LIM, FxVec2, in_range, mul_i, div_floor_i};

verus! {

/// Capacity of the sample history; the oldest sample is evicted beyond it.
pub const MAX_BUFFER: usize = 128;

/// The history after one arrival: the oldest sample leaves at capacity.
pub open spec fn push_evict(b: Seq<FxVec2>, pt: FxVec2) -> Seq<FxVec2> {
    if b.len() >= MAX_BUFFER {
        b.remove(0).push(pt)
    } else {
        b.push(pt)
    }
}

/// Number of samples that cover `min_fixation_s` at the frame interval
/// `dt`: the quotient rounded to the nearest whole number, halves up.
pub open spec fn samples_needed(min_fix: int, dt: int) -> int {
    (2 * min_fix + dt) / (2 * dt)
}

/// The most recent `ts` samples.
pub open spec fn window_of(b: Seq<FxVec2>, ts: int) -> Seq<FxVec2> {
    b.subrange(b.len() - ts, b.len() as int)
}

/// Smallest x seen while folding the window over a starting value.
pub open spec fn win_min_x(w: Seq<FxVec2>, init: int) -> int
    decreases w.len(),
{
    if w.len() == 0 {
        init
    } else {
        let m = win_min_x(w.drop_last(), init);
        if (w.last().x as int) < m {
            w.last().x as int
        } else {
            m
        }
    }
}

/// Smallest y seen while folding the window over a starting value.
pub open spec fn win_min_y(w: Seq<FxVec2>, init: int) -> int
    decreases w.len(),
{
    if w.len() == 0 {
        init
    } else {
        let m = win_min_y(w.drop_last(), init);
        if (w.last().y as int) < m {
            w.last().y as int
        } else {
            m
        }
    }
}

/// Largest x seen while folding the window over a starting value.
pub open spec fn win_max_x(w: Seq<FxVec2>, init: int) -> int
    decreases w.len(),
{
    if w.len() == 0 {
        init
    } else {
        let m = win_max_x(w.drop_last(), init);
        if (w.last().x as int) >= m {
            w.last().x as int
        } else {
            m
        }
    }
}

/// Largest y seen while folding the window over a starting value.
pub open spec fn win_max_y(w: Seq<FxVec2>, init: int) -> int
    decreases w.len(),
{
    if w.len() == 0 {
        init
    } else {
        let m = win_max_y(w.drop_last(), init);
        if (w.last().y as int) >= m {
            w.last().y as int
        } else {
            m
        }
    }
}

/// I-DT dispersion of a window, seeded with the arriving point: the sum
/// of the per-axis ranges.
pub open spec fn dispersion_of(w: Seq<FxVec2>, p: FxVec2) -> int {
    (win_max_x(w, p.x as int) - win_min_x(w, p.x as int)) + (win_max_y(w, p.y as int) - win_min_y(
        w,
        p.y as int,
    ))
}

/// Whether the newly arrived point becomes the fixation point, judged
/// over the history `b` as it stands after the arrival: the window's
/// dispersion must fall below the threshold `max_velocity *
/// min_fixation_s`, both sides compared exactly in raw units scaled by
/// `FX_ONE`.
pub open spec fn fixation_updates(b: Seq<FxVec2>, pt: FxVec2, min_fix: int, max_v: int, dt: int) -> bool {
    let ts = if samples_needed(min_fix, dt) > b.len() {
        b.len() as int
    } else {
        samples_needed(min_fix, dt)
    };
    dispersion_of(window_of(b, ts), pt) * (FX_ONE as int) < max_v * min_fix
}

pub struct FixationFilter {
    pub buffer: Vec<FxVec2>,
    pub min_fixation_s: i64,
    pub max_velocity: i64,
    pub cur: FxVec2,
}

impl FixationFilter {
    pub open spec fn wf(self) -> bool {
        &&& self.buffer@.len() <= MAX_BUFFER
        &&& forall|j: int| 0 <= j < self.buffer@.len() ==> in_range(#[trigger] self.buffer@[j])
        &&& 0 <= self.min_fixation_s <= FX_LIM
        &&& 0 <= self.max_velocity <= FX_LIM
        &&& in_range(self.cur)
    }

    pub fn new(min_fixation_s: i64, max_velocity: i64) -> (r: FixationFilter)
        requires
            0 <= min_fixation_s <= FX_LIM,
            0 <= max_velocity <= FX_LIM,
        ensures
            r.buffer@.len() == 0,
            r.min_fixation_s == min_fixation_s,
            r.max_velocity == max_velocity,
            r.cur == (FxVec2 { x: 0, y: 0 }),
            r.wf(),
    {
        FixationFilter {
            min_fixation_s,
            max_velocity,
            buffer: Vec::new(),
            cur: FxVec2 { x: 0, y: 0 },
        }
    }

    /// Record one gaze sample and return the current fixation point.
    ///
    /// With `dt == 0` no sample count can be derived, so the raw point is
    /// returned unchanged and the held fixation point is untouched.
    pub fn transform(&mut self, pt: FxVec2, dt: i64) -> (r: FxVec2)
        requires
            old(self).wf(),
            in_range(pt),
            0 <= dt <= FX_LIM,
        ensures
            final(self).wf(),
            final(self).min_fixation_s == old(self).min_fixation_s,
            final(self).max_velocity == old(self).max_velocity,
            final(self).buffer@ == push_evict(old(self).buffer@, pt),
            dt == 0 ==> r == pt && final(self).cur == old(self).cur,
            dt >= 1 ==> final(self).cur == (if fixation_updates(
                final(self).buffer@,
                pt,
                old(self).min_fixation_s as int,
                old(self).max_velocity as int,
                dt as int,
            ) {
                pt
            } else {
                old(self).cur
            }),
            dt >= 1 ==> r == final(self).cur,
    {
        if self.buffer.len() >= MAX_BUFFER {
            self.buffer.remove(0);
        }
        self.buffer.push(pt);
        let ghost b: Seq<FxVec2> = self.buffer@;
        let len: usize = self.buffer.len();

        if dt == 0 {
            return pt;
        }
        let ts128: i128 = div_floor_i(
            2 * (self.min_fixation_s as i128) + dt as i128,
            2 * (dt as i128),
        );
        let ts: usize = if ts128 > len as i128 {
            len
        } else {
            ts128 as usize
        };
        let start: usize = len - ts;

        let mut minx: i64 = pt.x;
        let mut maxx: i64 = pt.x;
        let mut miny: i64 = pt.y;
        let mut maxy: i64 = pt.y;
        let mut i: usize = start;
        while i < len
            invariant
                start <= i <= len,
                self.buffer@ == b,
                b.len() == len,
                forall|j: int| 0 <= j < b.len() ==> in_range(#[trigger] b[j]),
                in_range(pt),
                minx == win_min_x(b.subrange(start as int, i as int), pt.x as int),
                miny == win_min_y(b.subrange(start as int, i as int), pt.y as int),
                maxx == win_max_x(b.subrange(start as int, i as int), pt.x as int),
                maxy == win_max_y(b.subrange(start as int, i as int), pt.y as int),
                -FX_LIM <= minx <= FX_LIM,
                -FX_LIM <= miny <= FX_LIM,
                -FX_LIM <= maxx <= FX_LIM,
                -FX_LIM <= maxy <= FX_LIM,
            decreases len - i,
        {
            proof {
                let pre = b.subrange(start as int, i as int);
                let post = b.subrange(start as int, i as int + 1);
                assert(post.drop_last() =~= pre);
                assert(post.last() == b[i as int]);
            }
            let el: FxVec2 = self.buffer[i];
            if el.x < minx {
                minx = el.x;
            }
            if el.y < miny {
                miny = el.y;
            }
            if el.x >= maxx {
                maxx = el.x;
            }
            if el.y >= maxy {
                maxy = el.y;
            }
            i += 1;
        }
        proof {
            assert(b.subrange(start as int, len as int) =~= window_of(b, ts as int));
        }
        let dispersion: i64 = (maxx - minx) + (maxy - miny);
        let disp_scaled: i128 = mul_i(dispersion as i128, FX_ONE as i128);
        let thresh: i128 = mul_i(self.max_velocity as i128, self.min_fixation_s as i128);
        if disp_scaled < thresh {
            self.cur = pt;
        }
        self.cur
    }
}

/// A window of identical samples has zero dispersion: a stream of equal
/// points always refreshes the fixation point when the threshold is
/// positive.
pub proof fn lemma_dispersion_constant(w: Seq<FxVec2>, p: FxVec2)
    requires
        forall|j: int| 0 <= j < w.len() ==> #[trigger] w[j] == p,
    ensures
        dispersion_of(w, p) == 0,
    decreases w.len(),
{
    if w.len() > 0 {
        assert(forall|j: int|
            0 <= j < w.drop_last().len() ==> #[trigger] w.drop_last()[j] == p);
        lemma_dispersion_constant(w.drop_last(), p);
        assert(w.last() == p);
    }
}

/// The folded extremes bound the seed and every sample in the window.
pub proof fn lemma_win_extremes(w: Seq<FxVec2>, p: FxVec2)
    ensures
        win_min_x(w, p.x as int) <= p.x <= win_max_x(w, p.x as int),
        win_min_y(w, p.y as int) <= p.y <= win_max_y(w, p.y as int),
        forall|j: int|
            0 <= j < w.len() ==> win_min_x(w, p.x as int) <= (#[trigger] w[j]).x
                <= win_max_x(w, p.x as int),
        forall|j: int|
            0 <= j < w.len() ==> win_min_y(w, p.y as int) <= (#[trigger] w[j]).y
                <= win_max_y(w, p.y as int),
    decreases w.len(),
{
    if w.len() > 0 {
        lemma_win_extremes(w.drop_last(), p);
        assert(forall|j: int|
            0 <= j < w.len() - 1 ==> #[trigger] w[j] == w.drop_last()[j]);
    }
}

/// Two samples far apart inside the window force at least their spread
/// onto the dispersion: once the window holds points whose range exceeds
/// the threshold, the fixation point cannot move.
pub proof fn lemma_dispersion_spread(w: Seq<FxVec2>, p: FxVec2, i: int, j: int)
    requires
        0 <= i < w.len(),
        0 <= j < w.len(),
    ensures
        dispersion_of(w, p) >= w[i].x - w[j].x,
        dispersion_of(w, p) >= w[i].y - w[j].y,
{
    lemma_win_extremes(w, p);
}

/// When the judged window holds samples whose combined per-axis spread
/// reaches the fixation threshold — as with a stream alternating between
/// two distant points — the arriving point is not taken up: the output
/// of `transform` keeps its previous value. The x-spread is taken
/// between samples `i` and `j`, the y-spread between `k` and `l`; for a
/// one-axis spread pass the same index pair twice.
pub proof fn lemma_fixation_freezes_on_spread(
    b: Seq<FxVec2>,
    pt: FxVec2,
    min_fix: int,
    max_v: int,
    dt: int,
    i: int,
    j: int,
    k: int,
    l: int,
)
    requires
        ({
            let ts = if samples_needed(min_fix, dt) > b.len() {
                b.len() as int
            } else {
                samples_needed(min_fix, dt)
            };
            let w = window_of(b, ts);
            &&& 0 <= i < w.len()
            &&& 0 <= j < w.len()
            &&& 0 <= k < w.len()
            &&& 0 <= l < w.len()
            &&& ((w[i].x - w[j].x) + (w[k].y - w[l].y)) * (FX_ONE as int) >= max_v * min_fix
        }),
    ensures
        !fixation_updates(b, pt, min_fix, max_v, dt),
{
    let ts = if samples_needed(min_fix, dt) > b.len() {
        b.len() as int
    } else {
        samples_needed(min_fix, dt)
    };
    let w = window_of(b, ts);
    lemma_win_extremes(w, pt);
    assert(dispersion_of(w, pt) >= (w[i].x - w[j].x) + (w[k].y - w[l].y));
    assert(dispersion_of(w, pt) * (FX_ONE as int) >= ((w[i].x - w[j].x) + (w[k].y - w[l].y)) * (
    FX_ONE as int)) by (nonlinear_arith)
        requires
            dispersion_of(w, pt) >= (w[i].x - w[j].x) + (w[k].y - w[l].y),
    ;
}

/// A history of identical samples always takes up the arriving point:
/// the window's dispersion is zero, below any positive threshold.
pub proof fn lemma_fixation_updates_on_constant(
    b: Seq<FxVec2>,
    pt: FxVec2,
    min_fix: int,
    max_v: int,
    dt: int,
)
    requires
        forall|j: int| 0 <= j < b.len() ==> #[trigger] b[j] == pt,
        0 <= min_fix,
        1 <= dt,
        max_v * min_fix > 0,
    ensures
        fixation_updates(b, pt, min_fix, max_v, dt),
{
    lemma_div_pos_is_pos(2 * min_fix + dt, 2 * dt);
    let ts = if samples_needed(min_fix, dt) > b.len() {
        b.len() as int
    } else {
        samples_needed(min_fix, dt)
    };
    let w = window_of(b, ts);
    assert(forall|k: int| 0 <= k < w.len() ==> #[trigger] w[k] == pt);
    lemma_dispersion_constant(w, pt);
}

} // verus!
