//! Timing: picosecond durations, standard-library time values, and timers.

pub mod duration;
pub mod fine_duration;

pub use fine_duration::FineDuration;
pub mod timer;
pub mod utils;
