//! Verified core of a "liked songs" backup tool: an authorization-code
//! capture flow, a token cache, and a generation-numbered snapshot store
//! with collection diffing.

pub mod auth_flow;
pub mod config;
pub mod encoding;
pub mod persistence;
pub mod spotify;
