//! What the interfaces of the gateway share.

pub mod auth;
