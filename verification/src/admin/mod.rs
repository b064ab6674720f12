//! The decisions of the administration interface.

pub mod handlers;
pub mod replies;
