//! Data that the Kiro service sends.

pub mod events;
pub mod requests;
