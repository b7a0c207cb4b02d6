//! A console session adapter for network devices: it keeps a rolling window
//! of recent output and decides, by per-device heuristics, whether the device
//! has returned to its interactive prompt.

pub mod cache;
pub mod driver;
pub mod prompt;
