//! The Kiro side of the gateway.

pub mod cache_estimate;
pub mod cache_sim;
pub mod canonical;
pub mod model;
pub mod provider;
