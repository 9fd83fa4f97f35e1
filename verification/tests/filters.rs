use polymouse::fx::{FxVec2, FX_ONE};
use polymouse::lowpass::LowPassFilter;
use polymouse::one_euro::{OneEuroFilter, VecOneEuroFilter};
use polymouse::rounder::AccumulatingRounder;

#[test]
fn low_pass_first_call_identity() {
    let mut f = LowPassFilter::new();
    let y: i64 = f.filter(123456, 32768);
    assert_eq!(y, 123456);
    let mut g = LowPassFilter::new();
    let y2: i64 = g.filter(-987654, 0);
    assert_eq!(y2, -987654);
}

#[test]
fn low_pass_constant_convergence_halves_error() {
    // alpha = 1/2: each step halves the distance to a constant target
    let target: i64 = 100 * FX_ONE;
    let mut f = LowPassFilter::new();
    assert_eq!(f.filter(0, 32768), 0);
    let mut expected_err: i64 = target;
    for _ in 0..10 {
        expected_err /= 2;
        let y: i64 = f.filter(target, 32768);
        assert_eq!(y, target - expected_err);
    }
}

#[test]
fn low_pass_alpha_one_tracks_input() {
    let mut f = LowPassFilter::new();
    f.filter(5 * FX_ONE, FX_ONE);
    assert_eq!(f.filter(-7 * FX_ONE, FX_ONE), -7 * FX_ONE);
    assert_eq!(f.filter(9 * FX_ONE, FX_ONE), 9 * FX_ONE);
}

#[test]
fn one_euro_first_call_identity() {
    let mut f = OneEuroFilter::new(FX_ONE, 32768, FX_ONE);
    assert_eq!(f.filter(123 * FX_ONE, 6554), 123 * FX_ONE);
}

#[test]
fn one_euro_constant_signal_stays_put() {
    // a constant signal is a fixed point: derivative estimate stays zero
    // and the output equals the input on every call
    let x: i64 = -42 * FX_ONE;
    let mut f = OneEuroFilter::new(FX_ONE, 32768, FX_ONE);
    for _ in 0..6 {
        assert_eq!(f.filter(x, 6554), x);
    }
}

#[test]
fn vec_one_euro_filters_axes_independently() {
    let p = FxVec2 { x: 11 * FX_ONE, y: -3 * FX_ONE };
    let mut f = VecOneEuroFilter::new(FX_ONE, 0, FX_ONE);
    for _ in 0..4 {
        let r = f.filter(p, 6554);
        assert_eq!(r, p);
    }
}

#[test]
fn rounder_fraction_pattern() {
    // 0.3 of a unit per call: a whole unit is owed every few frames
    let x: i64 = 19661; // 0.3 in fixed point, rounded
    let mut r = AccumulatingRounder::new();
    let mut outs: Vec<i64> = Vec::new();
    for _ in 0..12 {
        outs.push(r.round(x));
    }
    assert_eq!(outs, vec![0, 0, 0, 1, 0, 0, 1, 0, 0, 1, 0, 0]);
}

#[test]
fn rounder_long_run_average() {
    let x: i64 = 19661;
    let mut r = AccumulatingRounder::new();
    let mut sum: i64 = 0;
    for _ in 0..1000 {
        sum += r.round(x);
    }
    // the emitted stream never drifts more than one unit from the sum
    let drift: i64 = 1000 * x - FX_ONE * sum;
    assert!(drift.abs() < FX_ONE);
    assert!(sum == 299 || sum == 300);
}

#[test]
fn rounder_bounded_error_every_step() {
    let inputs: Vec<i64> = vec![19661, -45875, 98304, -13, 7, 65535, -65537, 32768, -32768, 1];
    let mut r = AccumulatingRounder::new();
    let mut in_sum: i64 = 0;
    let mut out_sum: i64 = 0;
    for x in inputs {
        in_sum += x;
        out_sum += r.round(x);
        assert!((in_sum - FX_ONE * out_sum).abs() < FX_ONE);
    }
}

#[test]
fn rounder_whole_units_pass_through() {
    let mut r = AccumulatingRounder::new();
    assert_eq!(r.round(3 * FX_ONE), 3);
    assert_eq!(r.round(-3 * FX_ONE), -3);
    assert_eq!(r.round(0), 0);
}
