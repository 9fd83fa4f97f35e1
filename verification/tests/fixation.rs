use polymouse::fx::{FxVec2, FX_ONE};
use polymouse::fixation::FixationFilter;

// 0.2 seconds of fixation, one unit per second of allowed velocity
fn filter_under_test() -> FixationFilter {
    FixationFilter::new(13107, FX_ONE)
}

#[test]
fn fixation_zero_dt_returns_input() {
    let mut f = filter_under_test();
    let pt = FxVec2 { x: 7 * FX_ONE, y: -2 * FX_ONE };
    assert_eq!(f.transform(pt, 0), pt);
    // and the held point is untouched
    assert_eq!(f.cur, FxVec2 { x: 0, y: 0 });
}

#[test]
fn fixation_identical_points_always_update() {
    let mut f = filter_under_test();
    let pt = FxVec2 { x: 50 * FX_ONE, y: 30 * FX_ONE };
    for _ in 0..10 {
        // zero dispersion: the sticky point follows the stream
        assert_eq!(f.transform(pt, 6554), pt);
    }
}

#[test]
fn fixation_wide_spread_freezes_output() {
    let mut f = filter_under_test();
    let near = FxVec2 { x: 0, y: 0 };
    let far = FxVec2 { x: 20 * FX_ONE, y: 0 };
    // first sample fixes the point at the origin
    assert_eq!(f.transform(near, 6554), near);
    // alternating samples spread far beyond the threshold: the output
    // never moves again
    for _ in 0..20 {
        assert_eq!(f.transform(far, 6554), near);
        assert_eq!(f.transform(near, 6554), near);
    }
}

#[test]
fn fixation_sub_unit_threshold_still_updates() {
    // a positive threshold below one raw unit: the comparison is exact,
    // so a perfectly still stream is still taken up
    let mut f = FixationFilter::new(100, 100);
    let pt = FxVec2 { x: 9 * FX_ONE, y: 4 * FX_ONE };
    for _ in 0..5 {
        assert_eq!(f.transform(pt, 6554), pt);
    }
}

#[test]
fn fixation_history_stays_bounded() {
    let mut f = filter_under_test();
    for i in 0..300i64 {
        let pt = FxVec2 { x: i * 17, y: -i * 3 };
        f.transform(pt, 6554);
        assert!(f.buffer.len() <= 128);
    }
    assert_eq!(f.buffer.len(), 128);
}
