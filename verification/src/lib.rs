//! Verified core of a gateway that serves the Anthropic Messages API on top of the Kiro
//! streaming service.

pub mod text;
pub mod admin;
pub mod anthropic;
pub mod common;
pub mod json;
pub mod text_map;
pub mod kiro;
pub mod db;
pub mod float_bits;
pub mod ids;
pub mod model;
