use polymouse::accel::Acceleration;
use polymouse::fx::{FxVec2, PxVec2, FX_ONE};
use polymouse::poly::{PolyMouseParams, PolyMouseTransform};

fn curve_under_test() -> Acceleration {
    Acceleration {
        cd_min: FX_ONE,       // gain 1 for slow motion
        cd_max: 3 * FX_ONE,   // gain 3 for fast motion
        v_min: 0,
        v_max: 2 * FX_ONE,
        lambda: FX_ONE,
        ratio: FX_ONE / 2,
    }
}

#[test]
fn acceleration_zero_stays_zero() {
    let a = curve_under_test();
    assert_eq!(a.transform(0, FX_ONE), 0);
    assert_eq!(a.transform(0, 6554), 0);
    assert_eq!(a.transform(0, 0), 0);
}

#[test]
fn acceleration_midpoint_gain_exact() {
    // at the sigmoid's velocity midpoint the gain is exactly the middle
    // of [cd_min, cd_max]: here 2, so one unit becomes two
    let a = curve_under_test();
    assert_eq!(a.transform(FX_ONE, FX_ONE), 2 * FX_ONE);
}

#[test]
fn acceleration_monotonic_in_displacement() {
    let a = curve_under_test();
    let inputs: Vec<i64> = vec![0, FX_ONE / 2, FX_ONE, 2 * FX_ONE, 4 * FX_ONE, 8 * FX_ONE];
    let outs: Vec<i64> = inputs.iter().map(|d| a.transform(*d, FX_ONE)).collect();
    assert_eq!(outs, vec![0, 57629, 131072, 321156, 754912, 1569712]);
    for w in outs.windows(2) {
        assert!(w[0] <= w[1]);
    }
}

#[test]
fn acceleration_odd_in_displacement() {
    // reversing the displacement reverses the output exactly
    let a = curve_under_test();
    for d in [1i64, 37, FX_ONE / 2, FX_ONE, 2 * FX_ONE, 8 * FX_ONE] {
        assert_eq!(a.transform(-d, FX_ONE), -a.transform(d, FX_ONE));
        assert_eq!(a.transform(-d, 6554), -a.transform(d, 6554));
    }
    // a flat gain curve scales one raw unit identically in both
    // directions: truncation keeps the sub-unit result at zero
    let flat = Acceleration { cd_min: 1, cd_max: 1, v_min: 0, v_max: 0, lambda: 0, ratio: 0 };
    assert_eq!(flat.transform(1, 0), 0);
    assert_eq!(flat.transform(-1, 0), 0);
}

#[test]
fn acceleration_magnitude_monotonic_mixed_signs() {
    let a = curve_under_test();
    let inputs: Vec<i64> = vec![0, -FX_ONE / 2, FX_ONE, -2 * FX_ONE, 4 * FX_ONE, -8 * FX_ONE];
    let mags: Vec<i64> = inputs.iter().map(|d| a.transform(*d, FX_ONE).abs()).collect();
    assert_eq!(mags, vec![0, 57629, 131072, 321156, 754912, 1569712]);
    for w in mags.windows(2) {
        assert!(w[0] <= w[1]);
    }
}

fn throw_params() -> PolyMouseParams {
    PolyMouseParams {
        min_jump: 5 * FX_ONE,
        speed_expand_factor: 0,
        head_smoothing_factor: FX_ONE,
        throw_thresh_speed: FX_ONE,
        throw_speed: 100 * FX_ONE,
        small_jump_factor: 6554, // 0.1
    }
}

#[test]
fn poly_mouse_starts_tracking() {
    let t = PolyMouseTransform::new(throw_params());
    assert!(!t.throwing);
    assert_eq!(t.smoothed_head_speed, 0);
}

#[test]
fn poly_mouse_throw_scenario() {
    // gaze far to the right, fast head motion: the first frame enters the
    // throw and covers throw_speed * dt = 10 pixels
    let mut t = PolyMouseTransform::new(throw_params());
    let gaze = FxVec2 { x: 200 * FX_ONE, y: 0 };
    let head = FxVec2 { x: 2 * FX_ONE, y: 0 };
    let dt: i64 = 6554; // 0.1 s
    let mut mouse = PxVec2 { x: 0, y: 0 };

    mouse = t.transform(gaze, mouse, head, dt);
    assert!(t.throwing);
    assert_eq!(mouse, PxVec2 { x: 10, y: 0 });

    // the cursor keeps advancing 10 pixels per frame and lands exactly
    // min_jump short of the gaze point, back in tracking
    let mut frames: usize = 1;
    while t.throwing {
        mouse = t.transform(gaze, mouse, head, dt);
        frames += 1;
        assert!(frames <= 30);
    }
    assert_eq!(mouse, PxVec2 { x: 195, y: 0 });
    assert_eq!(t.last_jump_destination, gaze);
    assert!(!t.throwing);

    // the hysteresis guard: gaze still sits on the remembered target, so
    // the very next frame tracks instead of re-throwing
    mouse = t.transform(gaze, mouse, head, dt);
    assert!(!t.throwing);
    assert_eq!(mouse, PxVec2 { x: 197, y: 0 });
}

#[test]
fn poly_mouse_zero_distance_throw_lands_on_gaze() {
    // if gaze sits exactly on the cursor while a throw is in flight, no
    // direction exists: the throw ends on the gaze point itself
    let mut t = PolyMouseTransform::new(throw_params());
    let head = FxVec2 { x: 2 * FX_ONE, y: 0 };
    let dt: i64 = 6554;
    let mut mouse = PxVec2 { x: 0, y: 0 };
    mouse = t.transform(FxVec2 { x: 200 * FX_ONE, y: 0 }, mouse, head, dt);
    assert!(t.throwing);
    assert_eq!(mouse, PxVec2 { x: 10, y: 0 });
    // gaze lands exactly on the cursor's position
    let on_cursor = FxVec2 { x: 10 * FX_ONE, y: 0 };
    mouse = t.transform(on_cursor, mouse, head, dt);
    assert!(!t.throwing);
    assert_eq!(mouse, PxVec2 { x: 10, y: 0 });
    assert_eq!(t.last_jump_destination, on_cursor);
}

#[test]
fn poly_mouse_small_jump_guard_blocks_rethrow() {
    // a target just beside the remembered jump destination does not
    // re-trigger a throw, even though it sits outside the jump radius
    let mut t = PolyMouseTransform::new(throw_params());
    let gaze = FxVec2 { x: 200 * FX_ONE, y: 0 };
    let head = FxVec2 { x: 2 * FX_ONE, y: 0 };
    let dt: i64 = 6554;
    let mut mouse = PxVec2 { x: 0, y: 0 };
    mouse = t.transform(gaze, mouse, head, dt);
    while t.throwing {
        mouse = t.transform(gaze, mouse, head, dt);
    }
    assert_eq!(mouse, PxVec2 { x: 195, y: 0 });
    // 30000 raw units past the old target: beyond the jump radius from
    // the cursor, but within small_jump_factor of the last destination
    let nudged = FxVec2 { x: 200 * FX_ONE + 30000, y: 0 };
    let out = t.transform(nudged, mouse, head, dt);
    assert!(!t.throwing);
    assert_eq!(out, PxVec2 { x: 197, y: 0 });
}

#[test]
fn poly_mouse_tracking_accumulates_head_motion() {
    // below the speed threshold, half-pixel head deltas pay out one whole
    // pixel every second frame
    let params = PolyMouseParams {
        min_jump: 5 * FX_ONE,
        speed_expand_factor: 0,
        head_smoothing_factor: FX_ONE,
        throw_thresh_speed: 4294967296,
        throw_speed: 100 * FX_ONE,
        small_jump_factor: 6554,
    };
    let mut t = PolyMouseTransform::new(params);
    let gaze = FxVec2 { x: 0, y: 0 };
    let head = FxVec2 { x: FX_ONE / 2, y: 0 };
    let mut mouse = PxVec2 { x: 0, y: 0 };
    let mut seen: Vec<i64> = Vec::new();
    for _ in 0..6 {
        mouse = t.transform(gaze, mouse, head, FX_ONE);
        seen.push(mouse.x);
        assert!(!t.throwing);
    }
    assert_eq!(seen, vec![0, 1, 1, 2, 2, 3]);
}
