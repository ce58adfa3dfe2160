//! A verified delay-line engine for "whammy bar" style pitch-bend effects.
//!
//! The engine varies the read delay of a circular sample buffer under control
//! of smoothed user parameters, reconstructing output samples by weighted
//! linear interpolation between neighboring buffer entries.  All audio samples
//! and control values are fixed-point integers: samples are plain `i32`
//! values in whatever scale the caller chooses (the engine is exact in them),
//! and control values carry [`interp::FRAC_ONE`] fixed-point fraction units
//! per whole unit.

pub mod interp;
pub mod ring_buffer;
pub mod smoother;
pub mod engine;
