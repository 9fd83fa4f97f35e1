//! Fractional-motion accumulator.
//!
//! `round` splits its fixed-point input into a whole part (rounded toward
//! zero) and a fractional remainder, carries the remainder in a running
//! accumulator, and nudges the emitted whole number by one unit whenever
//! the accumulator's magnitude reaches a full unit. The emitted stream
//! therefore never drifts: `FX_ONE * (sum of outputs) + accumulator`
//! always equals the exact sum of the inputs.

use vstd::prelude::*;
use vstd::seq::Seq;
use vstd::arithmetic::div_mod::lemma_fundamental_div_mod;
use crate::fx::{FX_ONE, SPEED_LIM, div_trunc, div_trunc_i};

verus! {

pub struct AccumulatingRounder {
    pub accum: i64,
}

/// Whole units of a raw fixed-point value, rounded toward zero.
pub open spec fn whole_of(x: int) -> int {
    div_trunc(x, FX_ONE as int)
}

/// Fractional remainder of a raw fixed-point value; it carries the sign
/// of `x` and its magnitude is below one unit.
pub open spec fn frac_of(x: int) -> int {
    x - (FX_ONE as int) * whole_of(x)
}

/// The whole number one `round` call emits from input `x` with carried
/// accumulator `acc`.
pub open spec fn round_out(acc: int, x: int) -> int {
    let a = acc + frac_of(x);
    if a >= FX_ONE as int {
        whole_of(x) + 1
    } else if a <= -(FX_ONE as int) {
        whole_of(x) - 1
    } else {
        whole_of(x)
    }
}

/// The accumulator left behind by one `round` call.
pub open spec fn round_acc(acc: int, x: int) -> int {
    let a = acc + frac_of(x);
    if a >= FX_ONE as int {
        a - FX_ONE as int
    } else if a <= -(FX_ONE as int) {
        a + FX_ONE as int
    } else {
        a
    }
}

/// The fractional remainder has magnitude below one unit and the sign of `x`.
pub proof fn lemma_frac_bounds(x: int)
    ensures
        x >= 0 ==> 0 <= frac_of(x) < FX_ONE as int,
        x < 0 ==> -(FX_ONE as int) < frac_of(x) <= 0,
{
    let s = FX_ONE as int;
    if x >= 0 {
        lemma_fundamental_div_mod(x, s);
    } else {
        lemma_fundamental_div_mod(-x, s);
        assert(x - s * (-((-x) / s)) == -((-x) - s * ((-x) / s))) by (nonlinear_arith)
            requires
                true,
        ;
    }
}

impl AccumulatingRounder {
    /// The carried fraction always stays strictly below one unit.
    pub open spec fn wf(self) -> bool {
        -(FX_ONE as int) < self.accum < FX_ONE as int
    }

    pub fn new() -> (r: AccumulatingRounder)
        ensures
            r.accum == 0,
            r.wf(),
    {
        AccumulatingRounder { accum: 0 }
    }

    pub fn round(&mut self, x: i64) -> (r: i64)
        requires
            old(self).wf(),
            -SPEED_LIM <= x <= SPEED_LIM,
        ensures
            r == round_out(old(self).accum as int, x as int),
            final(self).accum == round_acc(old(self).accum as int, x as int),
            final(self).wf(),
            // no drift: a whole unit of output is owed exactly when carried
            (FX_ONE as int) * r + final(self).accum == x + old(self).accum,
    {
        proof {
            lemma_frac_bounds(x as int);
        }
        let w128: i128 = div_trunc_i(x as i128, FX_ONE as i128);
        let w: i64 = w128 as i64;
        let frac: i64 = x - FX_ONE * w;
        let a: i64 = self.accum + frac;
        let (res, acc2): (i64, i64) = if a >= FX_ONE {
            (w + 1, a - FX_ONE)
        } else if a <= -FX_ONE {
            (w - 1, a + FX_ONE)
        } else {
            (w, a)
        };
        self.accum = acc2;
        proof {
            let ghost acc0: int = old(self).accum as int;
            assert((FX_ONE as int) * (res as int) + (acc2 as int) == x + acc0)
                by (nonlinear_arith)
                requires
                    frac == x - (FX_ONE as int) * (w as int),
                    a == acc0 + frac,
                    (res == w + 1 && acc2 == a - FX_ONE) || (res == w - 1 && acc2 == a + FX_ONE)
                        || (res == w && acc2 == a),
            ;
        }
        res
    }
}

/// Exact sum of a sequence of raw inputs.
pub open spec fn seq_sum(xs: Seq<int>) -> int
    decreases xs.len(),
{
    if xs.len() == 0 {
        0
    } else {
        seq_sum(xs.drop_last()) + xs.last()
    }
}

/// Accumulator after feeding `xs` into a fresh rounder, one call each.
pub open spec fn run_acc(xs: Seq<int>) -> int
    decreases xs.len(),
{
    if xs.len() == 0 {
        0
    } else {
        round_acc(run_acc(xs.drop_last()), xs.last())
    }
}

/// Sum of the whole numbers emitted while feeding `xs` into a fresh rounder.
pub open spec fn run_out_sum(xs: Seq<int>) -> int
    decreases xs.len(),
{
    if xs.len() == 0 {
        0
    } else {
        run_out_sum(xs.drop_last()) + round_out(run_acc(xs.drop_last()), xs.last())
    }
}

/// One step keeps the accumulator below a unit and conserves the sum.
proof fn lemma_round_step(acc: int, x: int)
    requires
        -(FX_ONE as int) < acc < FX_ONE as int,
    ensures
        -(FX_ONE as int) < round_acc(acc, x) < FX_ONE as int,
        (FX_ONE as int) * round_out(acc, x) + round_acc(acc, x) == x + acc,
{
    lemma_frac_bounds(x);
    let w = whole_of(x);
    assert((FX_ONE as int) * (w + 1) == (FX_ONE as int) * w + FX_ONE as int) by (nonlinear_arith)
        requires
            true,
    ;
    assert((FX_ONE as int) * (w - 1) == (FX_ONE as int) * w - FX_ONE as int) by (nonlinear_arith)
        requires
            true,
    ;
}

/// For any sequence of inputs, the emitted whole units differ from the
/// exact running sum by strictly less than one unit at every step.
pub proof fn lemma_rounder_bounded_error(xs: Seq<int>)
    ensures
        -(FX_ONE as int) < run_acc(xs) < FX_ONE as int,
        (FX_ONE as int) * run_out_sum(xs) + run_acc(xs) == seq_sum(xs),
        -(FX_ONE as int) < seq_sum(xs) - (FX_ONE as int) * run_out_sum(xs) < FX_ONE as int,
    decreases xs.len(),
{
    if xs.len() > 0 {
        lemma_rounder_bounded_error(xs.drop_last());
        lemma_round_step(run_acc(xs.drop_last()), xs.last());
    }
}

} // verus!
