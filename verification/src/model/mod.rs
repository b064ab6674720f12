//! Configuration.

pub mod tuning;
