//! Percentile-focused benchmarking: the verified core.
//!
//! This crate holds the computational heart of a percentile-oriented
//! benchmarking harness: picosecond durations and their display, exact
//! percentile statistics and a bounded-memory histogram recorder, sample
//! and counter aggregation, configuration layering, command-line parsing,
//! the benchmark tree and the natural ordering of its names, the decisions
//! of the sampling loop and of the timer calibration, the stored form of
//! baselines, and the CSV and table renderers. Each function states its
//! behaviour in a contract that Verus checks.

pub mod arg;
pub mod attr;
pub mod baseline;
pub mod bencher;
pub mod cli;
pub mod config;
pub mod counter;
pub mod entry;
pub mod output;
pub mod runner;
pub mod stats;
pub mod text;
pub mod thread;
pub mod time;
pub mod util;
