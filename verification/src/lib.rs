//! Signal-conditioning core for a hybrid gaze/head pointing device.
//!
//! All arithmetic is fixed-point: a value is an `i64` holding the real
//! quantity scaled by [`fx::FX_ONE`] (16 fractional bits). The hosting
//! application converts its floating-point samples to this representation
//! at the boundary.

pub mod fixation;
pub mod accel;
pub mod fx;
pub mod lowpass;
pub mod one_euro;
pub mod poly;
pub mod rounder;
