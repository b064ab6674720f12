//! The Anthropic side of the gateway: requests as clients send them and the event streams that
//! they get back.

pub mod thinking;
pub mod sse;
pub mod usage;
pub mod state_manager;
pub mod history;
pub mod signature;
pub mod stream;
pub mod stream_model;
pub mod buffered;
pub mod protocol;
pub mod delivery;
pub mod tags;
pub mod pieces;
pub mod context_management;
pub mod clearing;
pub mod tool_calls;
pub mod wire;
pub mod effects;
pub mod types;
pub mod logging;
pub mod middleware;
