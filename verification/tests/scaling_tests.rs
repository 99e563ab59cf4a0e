use libinput_scroll_hook::axis_value_transform;
use libinput_scroll_hook::classify_source;
use libinput_scroll_hook::classify::LIBINPUT_POINTER_AXIS_SCROLL_HORIZONTAL;
use libinput_scroll_hook::classify::LIBINPUT_POINTER_AXIS_SCROLL_VERTICAL;
use libinput_scroll_hook::classify::LIBINPUT_POINTER_AXIS_SOURCE_CONTINUOUS;
use libinput_scroll_hook::classify::LIBINPUT_POINTER_AXIS_SOURCE_FINGER;
use libinput_scroll_hook::classify::LIBINPUT_POINTER_AXIS_SOURCE_WHEEL;
use libinput_scroll_hook::classify::LIBINPUT_POINTER_AXIS_SOURCE_WHEEL_TILT;
use libinput_scroll_hook::discrete_value_transform;
use libinput_scroll_hook::fallback_source_code;
use libinput_scroll_hook::should_scale_source;
use libinput_scroll_hook::wheel_value_transform;
use libinput_scroll_hook::AxisSource;
use libinput_scroll_hook::ScaleCfg;
use libinput_scroll_hook::Transform;

fn cfg(x: u32, y: u32, wheel: Option<u32>) -> ScaleCfg {
    ScaleCfg { x_milli: x, y_milli: y, wheel_milli: wheel, debug: false }
}

/// Applies a transform the way the shim does, with the milli factor
/// converted to its floating-point form at the multiplication.
fn apply(t: Transform, v: f64) -> f64 {
    match t {
        Transform::Passthrough => v,
        Transform::ScaleBy(m) => v * (m as f64) / 1000.0,
    }
}

#[test]
fn classifies_each_source_code() {
    assert_eq!(classify_source(LIBINPUT_POINTER_AXIS_SOURCE_WHEEL), AxisSource::Wheel);
    assert_eq!(classify_source(LIBINPUT_POINTER_AXIS_SOURCE_FINGER), AxisSource::Finger);
    assert_eq!(classify_source(LIBINPUT_POINTER_AXIS_SOURCE_CONTINUOUS), AxisSource::Continuous);
    assert_eq!(classify_source(LIBINPUT_POINTER_AXIS_SOURCE_WHEEL_TILT), AxisSource::WheelTilt);
    assert_eq!(classify_source(0), AxisSource::Unknown);
    assert_eq!(classify_source(99), AxisSource::Unknown);
}

#[test]
fn only_finger_and_continuous_qualify() {
    assert!(should_scale_source(LIBINPUT_POINTER_AXIS_SOURCE_FINGER));
    assert!(should_scale_source(LIBINPUT_POINTER_AXIS_SOURCE_CONTINUOUS));
    assert!(!should_scale_source(LIBINPUT_POINTER_AXIS_SOURCE_WHEEL));
    assert!(!should_scale_source(LIBINPUT_POINTER_AXIS_SOURCE_WHEEL_TILT));
    assert!(!should_scale_source(0));
    assert!(!should_scale_source(99));
}

#[test]
fn fallback_source_suppresses_scaling() {
    assert_eq!(fallback_source_code(), LIBINPUT_POINTER_AXIS_SOURCE_WHEEL);
    assert!(!should_scale_source(fallback_source_code()));
}

#[test]
fn eligible_sources_scale_by_their_axis_factor() {
    let c = cfg(3000, 2000, None);
    let horizontal = axis_value_transform(
        Some(LIBINPUT_POINTER_AXIS_SOURCE_FINGER),
        LIBINPUT_POINTER_AXIS_SCROLL_HORIZONTAL,
        &c,
    );
    assert_eq!(horizontal, Transform::ScaleBy(3000));
    let vertical = axis_value_transform(
        Some(LIBINPUT_POINTER_AXIS_SOURCE_CONTINUOUS),
        LIBINPUT_POINTER_AXIS_SCROLL_VERTICAL,
        &c,
    );
    assert_eq!(vertical, Transform::ScaleBy(2000));
}

#[test]
fn scaled_value_is_original_times_factor() {
    let c = cfg(2000, 500, None);
    let horizontal = axis_value_transform(
        Some(LIBINPUT_POINTER_AXIS_SOURCE_FINGER),
        LIBINPUT_POINTER_AXIS_SCROLL_HORIZONTAL,
        &c,
    );
    assert!((apply(horizontal, 3.5) - 7.0).abs() < 1e-9);
    let vertical = axis_value_transform(
        Some(LIBINPUT_POINTER_AXIS_SOURCE_CONTINUOUS),
        LIBINPUT_POINTER_AXIS_SCROLL_VERTICAL,
        &c,
    );
    assert!((apply(vertical, -4.0) - (-2.0)).abs() < 1e-9);
}

#[test]
fn wheel_and_unknown_sources_pass_through() {
    let c = cfg(3000, 2000, Some(5000));
    for code in [LIBINPUT_POINTER_AXIS_SOURCE_WHEEL, LIBINPUT_POINTER_AXIS_SOURCE_WHEEL_TILT, 0, 99] {
        for axis in [LIBINPUT_POINTER_AXIS_SCROLL_HORIZONTAL, LIBINPUT_POINTER_AXIS_SCROLL_VERTICAL] {
            assert_eq!(axis_value_transform(Some(code), axis, &c), Transform::Passthrough);
        }
    }
}

#[test]
fn unknown_axis_passes_through() {
    let c = cfg(3000, 2000, None);
    assert_eq!(
        axis_value_transform(Some(LIBINPUT_POINTER_AXIS_SOURCE_FINGER), 7, &c),
        Transform::Passthrough
    );
}

#[test]
fn null_handle_passes_through() {
    let c = cfg(3000, 2000, Some(5000));
    assert_eq!(
        axis_value_transform(None, LIBINPUT_POINTER_AXIS_SCROLL_HORIZONTAL, &c),
        Transform::Passthrough
    );
    assert_eq!(apply(axis_value_transform(None, LIBINPUT_POINTER_AXIS_SCROLL_HORIZONTAL, &c), 1.5), 1.5);
}

#[test]
fn discrete_values_are_never_touched() {
    assert_eq!(discrete_value_transform(), Transform::Passthrough);
    assert_eq!(apply(discrete_value_transform(), -3.0), -3.0);
}

#[test]
fn wheel_values_scale_only_when_configured() {
    let off = cfg(3000, 2000, None);
    assert_eq!(wheel_value_transform(&off), Transform::Passthrough);
    assert_eq!(apply(wheel_value_transform(&off), 120.0), 120.0);
    let on = cfg(3000, 2000, Some(2000));
    assert_eq!(wheel_value_transform(&on), Transform::ScaleBy(2000));
    assert!((apply(wheel_value_transform(&on), 120.0) - 240.0).abs() < 1e-9);
}

#[test]
fn repeated_calls_agree() {
    let c = cfg(3000, 2000, Some(5000));
    let first = axis_value_transform(
        Some(LIBINPUT_POINTER_AXIS_SOURCE_FINGER),
        LIBINPUT_POINTER_AXIS_SCROLL_VERTICAL,
        &c,
    );
    let second = axis_value_transform(
        Some(LIBINPUT_POINTER_AXIS_SOURCE_FINGER),
        LIBINPUT_POINTER_AXIS_SCROLL_VERTICAL,
        &c,
    );
    assert_eq!(first, second);
    assert_eq!(wheel_value_transform(&c), wheel_value_transform(&c));
    assert_eq!(discrete_value_transform(), discrete_value_transform());
}
