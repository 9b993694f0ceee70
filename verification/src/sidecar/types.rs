//! Bodies of the sidecar callbacks.

use vstd::prelude::*;
use vstd::string::*;

verus! {

/// Errors that can occur while calling back into the sidecar.
#[derive(Debug)]
pub enum SidecarError {
    Http(String),
}

impl SidecarError {
    /// The text of the error.
    pub open spec fn text(&self) -> Seq<char> {
        match self {
            SidecarError::Http(detail) => "HTTP request failed: "@ + detail@,
        }
    }

    /// The error as a message.
    pub fn message(&self) -> (res: String)
        ensures
            res@ == self.text(),
            match *self {
                SidecarError::Http(detail) => res@ == "HTTP request failed: "@ + detail@,
            },
    {
        match self {
            SidecarError::Http(detail) => "HTTP request failed: ".to_owned().concat(
                detail.as_str(),
            ),
        }
    }
}

/// Request sent to the sidecar after XT transactions are included.
#[derive(Debug, Clone)]
pub struct ConfirmIncludedRequest {
    pub instance_ids: Vec<String>,
}

/// Request asking the sidecar to authorize a single transaction before it is
/// admitted to the pool.
#[derive(Debug, Clone)]
pub struct CheckTxRequest {
    pub from: String,
    pub is_create: bool,
    pub has_value: bool,
}

/// Sidecar verdict for a [`CheckTxRequest`].
#[derive(Debug, Clone)]
pub struct CheckTxResponse {
    pub allowed: bool,
    pub reason: Option<String>,
    pub config_version: Option<u64>,
}

} // verus!
