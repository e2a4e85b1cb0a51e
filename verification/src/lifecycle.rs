//! The lifecycle loop's decisions: what one awaited event leads to. The
//! surrounding loop performs the chosen action (spawning a transfer, exiting)
//! and hands the next event back.

use vstd::prelude::*;

use crate::errors::HttpDownloaderError;
use crate::request::HttpRequest;
use crate::transport::{classify_url, url_scheme_of, SchemeKind};

verus! {

/// One thing the lifecycle loop can wake up to.
#[derive(Debug)]
pub enum LifecycleEvent {
    /// The stop signal fired.
    Stop,
    /// The request source handed over the next transfer request.
    Request(HttpRequest),
    /// The request source is exhausted.
    SourceClosed,
}

/// What the loop does next.
#[derive(Debug)]
pub enum LifecycleAction {
    /// Return from the loop without draining in-flight transfers.
    Exit,
    /// Start a coordinator for this request over the selected transport and
    /// record its handle in the current-downloads set.
    Dispatch(HttpRequest, SchemeKind),
    /// Refuse the request and go on accepting others.
    Reject(HttpRequest, HttpDownloaderError),
}

/// Decide what one event means for the loop: stop and source exhaustion both
/// end it; a request is dispatched over the transport its scheme selects, and
/// rejected before any store or network activity when no transport supports
/// it. A rejected request never ends the loop.
pub fn lifetime_step(event: LifecycleEvent) -> (r: LifecycleAction)
    ensures
        event matches LifecycleEvent::Stop ==> r == LifecycleAction::Exit,
        event matches LifecycleEvent::SourceClosed ==> r == LifecycleAction::Exit,
        event matches LifecycleEvent::Request(req) ==> r == (if url_scheme_of(req.url@) == Some(
            "http"@,
        ) {
            LifecycleAction::Dispatch(req, SchemeKind::Http)
        } else if url_scheme_of(req.url@) == Some("https"@) {
            LifecycleAction::Dispatch(req, SchemeKind::Https)
        } else {
            LifecycleAction::Reject(req, HttpDownloaderError::UnsupportedScheme)
        }),
{
    match event {
        LifecycleEvent::Stop => LifecycleAction::Exit,
        LifecycleEvent::SourceClosed => LifecycleAction::Exit,
        LifecycleEvent::Request(req) => {
            match classify_url(req.url.as_str()) {
                Ok(kind) => LifecycleAction::Dispatch(req, kind),
                Err(e) => LifecycleAction::Reject(req, e),
            }
        },
    }
}

} // verus!
