//! Callbacks from the builder to its sidecar.

pub mod client;
pub mod config;
pub mod laws;
pub mod overrides;
pub mod state;
pub mod types;
