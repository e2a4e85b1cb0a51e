//! Transfer requests: the (URL, destination path) pairs the request source
//! hands to the lifecycle loop. Ephemeral; never persisted.

use vstd::prelude::*;

verus! {

/// One transfer request: download `url` into the local file at `path`.
#[derive(Debug, Clone, PartialEq, Eq)]
pub struct HttpRequest {
    /// Absolute URL to fetch.
    pub url: String,
    /// Absolute local destination path.
    pub path: String,
}

/// How a channel-backed request source fails: only by running dry, which tells
/// the lifecycle loop to exit gracefully.
#[derive(Debug, Clone, PartialEq, Eq)]
pub enum ChannelHttpRequestSourceError {
    ChannelClosed,
}

} // verus!
