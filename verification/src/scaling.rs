//! The per-call decisions of the four intercepted entry points: whether the
//! value the genuine accessor returned is passed through unchanged or
//! multiplied by a configured factor. Every decision is a pure function of
//! the call's inputs and the resolved configuration; no call leaves any
//! state behind.

use vstd::prelude::*;
use crate::classify::LIBINPUT_POINTER_AXIS_SCROLL_HORIZONTAL;
use crate::classify::LIBINPUT_POINTER_AXIS_SCROLL_VERTICAL;
use crate::classify::should_scale_source;
use crate::classify::should_scale_source_spec;
use crate::config::ScaleCfg;

verus! {

/// What an entry point does to the value the genuine accessor returned:
/// hand it through untouched, or multiply it by a factor given in
/// thousandths.
#[derive(Clone, Copy, Debug, PartialEq, Eq)]
pub enum Transform {
    Passthrough,
    ScaleBy(u32),
}

/// The decision of the continuous axis-value entry point. `source` is the
/// event's axis-source code, or `None` for a null event handle, on which
/// the source accessor must not be consulted at all.
pub open spec fn axis_value_transform_spec(source: Option<u32>, axis: u32, cfg: ScaleCfg) -> Transform {
    match source {
        None => Transform::Passthrough,
        Some(code) => if !should_scale_source_spec(code) {
            Transform::Passthrough
        } else if axis == LIBINPUT_POINTER_AXIS_SCROLL_HORIZONTAL {
            Transform::ScaleBy(cfg.x_milli)
        } else if axis == LIBINPUT_POINTER_AXIS_SCROLL_VERTICAL {
            Transform::ScaleBy(cfg.y_milli)
        } else {
            Transform::Passthrough
        },
    }
}

/// Decides what the continuous axis-value entry point does: scale by the
/// axis's configured factor exactly when the handle is non-null, the source
/// is finger or continuous, and the axis is one of the two known ones —
/// scaling is an allow-list, every other case is a passthrough.
pub fn axis_value_transform(source: Option<u32>, axis: u32, cfg: &ScaleCfg) -> (t: Transform)
    ensures
        t == axis_value_transform_spec(source, axis, *cfg),
{
    match source {
        None => Transform::Passthrough,
        Some(code) => {
            if !should_scale_source(code) {
                Transform::Passthrough
            } else if axis == LIBINPUT_POINTER_AXIS_SCROLL_HORIZONTAL {
                Transform::ScaleBy(cfg.x_milli)
            } else if axis == LIBINPUT_POINTER_AXIS_SCROLL_VERTICAL {
                Transform::ScaleBy(cfg.y_milli)
            } else {
                Transform::Passthrough
            }
        },
    }
}

/// Decides what the discrete axis-value entry point does: nothing, ever —
/// wheel-step counts stay device-native for every axis and every source.
pub fn discrete_value_transform() -> (t: Transform)
    ensures
        t == Transform::Passthrough,
{
    Transform::Passthrough
}

/// The decision of the high-resolution wheel entry point.
pub open spec fn wheel_value_transform_spec(cfg: ScaleCfg) -> Transform {
    match cfg.wheel_milli {
        Some(w) => Transform::ScaleBy(w),
        None => Transform::Passthrough,
    }
}

/// Decides what the high-resolution wheel entry point does: scale by the
/// wheel factor exactly when one was configured, and pass through
/// otherwise.
pub fn wheel_value_transform(cfg: &ScaleCfg) -> (t: Transform)
    ensures
        t == wheel_value_transform_spec(*cfg),
{
    match cfg.wheel_milli {
        Some(w) => Transform::ScaleBy(w),
        None => Transform::Passthrough,
    }
}

/// For a non-null handle with a finger or continuous source, the continuous
/// value is scaled by exactly the factor configured for its axis —
/// horizontal by the horizontal factor, vertical by the vertical one.
pub proof fn lemma_eligible_sources_scale_by_axis_factor(code: u32, axis: u32, cfg: ScaleCfg)
    requires
        should_scale_source_spec(code),
    ensures
        axis == LIBINPUT_POINTER_AXIS_SCROLL_HORIZONTAL ==> axis_value_transform_spec(
            Some(code),
            axis,
            cfg,
        ) == Transform::ScaleBy(cfg.x_milli),
        axis == LIBINPUT_POINTER_AXIS_SCROLL_VERTICAL ==> axis_value_transform_spec(
            Some(code),
            axis,
            cfg,
        ) == Transform::ScaleBy(cfg.y_milli),
{
}

/// For every other source — wheel, wheel-tilt, or any unknown code — the
/// continuous value is passed through exactly, whatever the axis and the
/// configuration.
pub proof fn lemma_ineligible_sources_pass_through(code: u32, axis: u32, cfg: ScaleCfg)
    requires
        !should_scale_source_spec(code),
    ensures
        axis_value_transform_spec(Some(code), axis, cfg) == Transform::Passthrough,
{
}

/// A null event handle short-circuits to an exact passthrough: the decision
/// never looks at the axis or the configuration, and no classification is
/// needed to reach it.
pub proof fn lemma_null_handle_passes_through(axis: u32, cfg: ScaleCfg)
    ensures
        axis_value_transform_spec(None, axis, cfg) == Transform::Passthrough,
{
}

/// An axis code outside the two known enumerants is passed through even for
/// an eligible source: scaling is an allow-list on axis identity.
pub proof fn lemma_unknown_axis_passes_through(code: u32, axis: u32, cfg: ScaleCfg)
    requires
        axis != LIBINPUT_POINTER_AXIS_SCROLL_HORIZONTAL,
        axis != LIBINPUT_POINTER_AXIS_SCROLL_VERTICAL,
    ensures
        axis_value_transform_spec(Some(code), axis, cfg) == Transform::Passthrough,
{
}

/// The entry points are idempotent: the decision is a pure function of the
/// call's inputs and the configuration, so any two calls that observe the
/// same inputs resolve to the same transform — there is no hidden
/// accumulating state.
pub proof fn lemma_decisions_idempotent(
    source: Option<u32>,
    axis: u32,
    cfg: ScaleCfg,
    t1: Transform,
    t2: Transform,
    w1: Transform,
    w2: Transform,
)
    requires
        t1 == axis_value_transform_spec(source, axis, cfg),
        t2 == axis_value_transform_spec(source, axis, cfg),
        w1 == wheel_value_transform_spec(cfg),
        w2 == wheel_value_transform_spec(cfg),
    ensures
        t1 == t2,
        w1 == w2,
{
}

} // verus!
