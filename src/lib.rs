//! Load-generation benchmark core: round-robin work dispatch, the shared
//! result aggregate, and the statistics computed from it after a run.
//!
//! Latencies are held as whole microseconds and sizes as bytes, so every
//! statistic is an exact integer function of the recorded observations.

pub mod stats;
pub mod report;
pub mod dispatch;
pub mod config;
