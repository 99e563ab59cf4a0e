//! Scroll-axis rescaling logic for a libinput interception shim.
//!
//! The crate decides, for each intercepted accessor call, whether the value
//! reported by the genuine library is passed through unchanged or multiplied
//! by a configured per-axis scale factor. Scale factors are carried as
//! fixed-point thousandths (milli-units), so `1000` stands for a factor of
//! one; the surrounding shim converts a chosen factor to its floating-point
//! form at the single place where the multiplication happens.

#![allow(non_camel_case_types)]

pub mod classify;
pub mod config;
pub mod scaling;

pub use classify::libinput_event_pointer;
pub use classify::AxisSource;
pub use classify::classify_source;
pub use classify::should_scale_source;
pub use classify::fallback_source_code;
pub use config::ScaleCfg;
pub use config::clamp_milli;
pub use config::parse_scale_milli;
pub use scaling::Transform;
pub use scaling::axis_value_transform;
pub use scaling::discrete_value_transform;
pub use scaling::wheel_value_transform;
