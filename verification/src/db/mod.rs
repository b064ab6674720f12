//! The request log and the access keys: what is written to and read from the database.

pub mod api_keys;
pub mod config;
pub mod groups;
pub mod query;
pub mod recorder;
pub mod schema;
pub mod sql;
pub mod writer;
