//! Axis and axis-source codes of the intercepted library, and the
//! classification that decides which scroll events are eligible for scaling.

use vstd::prelude::*;

verus! {

/// Opaque scroll-event handle owned by the calling library. The shim never
/// reads or writes through such a handle itself; it only forwards it to the
/// genuine accessors, so the type carries no data and no value of it is
/// ever constructed here — the one variant exists only because the type
/// must be inhabited.
pub enum libinput_event_pointer {
    Opaque,
}

/// Axis code for vertical scrolling.
pub const LIBINPUT_POINTER_AXIS_SCROLL_VERTICAL: u32 = 0;

/// Axis code for horizontal scrolling.
pub const LIBINPUT_POINTER_AXIS_SCROLL_HORIZONTAL: u32 = 1;

/// Source code for discrete mouse-wheel events.
pub const LIBINPUT_POINTER_AXIS_SOURCE_WHEEL: u32 = 1;

/// Source code for touchpad finger scrolling.
pub const LIBINPUT_POINTER_AXIS_SOURCE_FINGER: u32 = 2;

/// Source code for continuous (smooth) scroll devices.
pub const LIBINPUT_POINTER_AXIS_SOURCE_CONTINUOUS: u32 = 3;

/// Source code for tilting a mouse wheel sideways.
pub const LIBINPUT_POINTER_AXIS_SOURCE_WHEEL_TILT: u32 = 4;

/// The axis-source categories an event can fall into. Codes outside the
/// four known enumerants map to `Unknown`, which is always passed through.
#[derive(Clone, Copy, Debug, PartialEq, Eq)]
pub enum AxisSource {
    Wheel,
    Finger,
    Continuous,
    WheelTilt,
    Unknown,
}

/// The category a raw axis-source code falls into.
pub open spec fn classify_source_spec(code: u32) -> AxisSource {
    if code == LIBINPUT_POINTER_AXIS_SOURCE_WHEEL {
        AxisSource::Wheel
    } else if code == LIBINPUT_POINTER_AXIS_SOURCE_FINGER {
        AxisSource::Finger
    } else if code == LIBINPUT_POINTER_AXIS_SOURCE_CONTINUOUS {
        AxisSource::Continuous
    } else if code == LIBINPUT_POINTER_AXIS_SOURCE_WHEEL_TILT {
        AxisSource::WheelTilt
    } else {
        AxisSource::Unknown
    }
}

/// Maps a raw axis-source code reported by the genuine library to its
/// category.
pub fn classify_source(code: u32) -> (s: AxisSource)
    ensures
        s == classify_source_spec(code),
{
    if code == LIBINPUT_POINTER_AXIS_SOURCE_WHEEL {
        AxisSource::Wheel
    } else if code == LIBINPUT_POINTER_AXIS_SOURCE_FINGER {
        AxisSource::Finger
    } else if code == LIBINPUT_POINTER_AXIS_SOURCE_CONTINUOUS {
        AxisSource::Continuous
    } else if code == LIBINPUT_POINTER_AXIS_SOURCE_WHEEL_TILT {
        AxisSource::WheelTilt
    } else {
        AxisSource::Unknown
    }
}

/// Whether events with this axis-source code are eligible for scaling:
/// only finger and continuous sources are, every other code is passed
/// through untouched.
pub open spec fn should_scale_source_spec(code: u32) -> bool {
    code == LIBINPUT_POINTER_AXIS_SOURCE_FINGER || code == LIBINPUT_POINTER_AXIS_SOURCE_CONTINUOUS
}

/// Decides whether an event with this axis-source code qualifies for
/// scaling.
pub fn should_scale_source(code: u32) -> (r: bool)
    ensures
        r == should_scale_source_spec(code),
{
    code == LIBINPUT_POINTER_AXIS_SOURCE_FINGER || code == LIBINPUT_POINTER_AXIS_SOURCE_CONTINUOUS
}

/// The axis-source code the shim substitutes when the genuine source
/// accessor cannot be resolved: the wheel code, chosen so that scaling is
/// suppressed whenever no source information is available.
pub fn fallback_source_code() -> (code: u32)
    ensures
        code == LIBINPUT_POINTER_AXIS_SOURCE_WHEEL,
{
    LIBINPUT_POINTER_AXIS_SOURCE_WHEEL
}

/// Scaling eligibility follows the classification exactly: a code qualifies
/// if and only if it is categorised as finger or continuous.
pub proof fn lemma_scaling_matches_classification(code: u32)
    ensures
        should_scale_source_spec(code) <==> (classify_source_spec(code) == AxisSource::Finger
            || classify_source_spec(code) == AxisSource::Continuous),
{
}

/// The conservative fallback classification never qualifies for scaling:
/// when the source accessor cannot be resolved, no event is ever scaled.
pub proof fn lemma_fallback_source_suppresses_scaling()
    ensures
        !should_scale_source_spec(LIBINPUT_POINTER_AXIS_SOURCE_WHEEL),
{
}

} // verus!
