//! Configuration of the sidecar callbacks.

use vstd::prelude::*;

verus! {

/// Configuration for the sidecar callback client.
#[derive(Debug, Clone)]
pub struct SidecarConfig {
    /// HTTP endpoint of the sidecar (e.g., "http://localhost:8082").
    /// If empty, sidecar callbacks are disabled.
    pub endpoint: String,
    /// Timeout for individual HTTP requests, in milliseconds.
    pub request_timeout_ms: u64,
    /// Maximum number of retries when a callback request fails.
    pub max_retries: u32,
    /// Whether transactions need the sidecar's permission to enter the pool.
    pub permissions_enabled: bool,
}

impl Default for SidecarConfig {
    /// No endpoint, 200 ms for a request, 5 retries, and no permissions.
    fn default() -> (res: Self)
        ensures
            res.endpoint@ == Seq::<char>::empty(),
            res.request_timeout_ms == 200,
            res.max_retries == 5,
            !res.permissions_enabled,
    {
        SidecarConfig {
            endpoint: String::new(),
            request_timeout_ms: 200,
            max_retries: 5,
            permissions_enabled: false,
        }
    }
}

impl SidecarConfig {
    /// Sidecar callbacks are enabled.
    pub open spec fn enabled(&self) -> bool {
        self.endpoint@.len() > 0
    }

    /// Returns true if sidecar callbacks are enabled.
    pub fn is_enabled(&self) -> (res: bool)
        ensures
            res == self.enabled(),
            res == (self.endpoint@.len() > 0),
    {
        !self.endpoint.as_str().is_empty()
    }
}

} // verus!
