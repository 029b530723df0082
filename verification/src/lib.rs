//! Multi-message MD5 with verified lane-parallel kernels and schedulers.
pub mod consts;
pub mod spec;
pub mod scalar;
pub mod lanes;
pub mod portable;
pub mod tuning;
pub mod schedule;
pub mod neon;
pub mod kernels;
pub mod dispatch;
