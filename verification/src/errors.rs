//! Error values the download engine exposes. These are structured values;
//! surfacing them to a log pipeline is the embedder's responsibility.

use vstd::prelude::*;

verus! {

/// What can go wrong inside the segment store.
#[derive(Debug, Clone, PartialEq, Eq)]
pub enum StoreError {
    /// The backing medium rejected an insert (for this store: the id space is
    /// exhausted, so no fresh id can be handed out).
    Conflict,
    /// An update named an id that no live record carries.
    NotFound,
    /// The backing store refused an operation transiently.
    Unavailable,
    /// Persisted state violates the store's invariants.
    Corrupt,
}

/// The errors that can occur when a file is downloaded in parallel.
#[derive(Debug, Clone, PartialEq, Eq)]
pub enum HttpDownloaderError {
    /// The URL scheme is neither `http` nor `https`; fatal to the transfer.
    UnsupportedScheme,
    /// The HEAD response lacked a `Content-Length` header; fatal.
    ContentLengthNotSupported,
    /// Malformed headers, or a ranged response inconsistent with the request.
    BadServer,
    /// Connect, read or write error against the origin; the segment record
    /// stays behind for resumption.
    TransportError(String),
    /// Error opening, seeking or writing the destination file.
    SinkIoError(String),
    /// The backing store refused an operation transiently.
    StoreUnavailable,
    /// Persisted state violates the store's invariants.
    StoreCorrupt,
    /// The request source is exhausted; the lifecycle loop exits gracefully.
    SourceClosed,
    /// Anything else, with its reason.
    Other(String),
}

/// Lift a store failure into the transfer-level error taxonomy.
pub fn store_error_to_download_error(e: &StoreError) -> (r: HttpDownloaderError)
    ensures
        r == (match e {
            StoreError::Corrupt => HttpDownloaderError::StoreCorrupt,
            _ => HttpDownloaderError::StoreUnavailable,
        }),
{
    match e {
        StoreError::Corrupt => HttpDownloaderError::StoreCorrupt,
        _ => HttpDownloaderError::StoreUnavailable,
    }
}

impl HttpDownloaderError {
    /// A human-readable description of the error.
    pub fn message(&self) -> (r: String)
        ensures
            r@ == (match self {
                HttpDownloaderError::UnsupportedScheme => "unsupported scheme"@,
                HttpDownloaderError::ContentLengthNotSupported => (
                "Content-Length header not supported"@
                ),
                HttpDownloaderError::BadServer => (
                "The server returned something we can't continue with"@
                ),
                HttpDownloaderError::TransportError(reason) => "transport error: "@ + reason@,
                HttpDownloaderError::SinkIoError(reason) => "sink io error: "@ + reason@,
                HttpDownloaderError::StoreUnavailable => "store unavailable"@,
                HttpDownloaderError::StoreCorrupt => "store corrupt"@,
                HttpDownloaderError::SourceClosed => "request source closed"@,
                HttpDownloaderError::Other(reason) => "generic error: "@ + reason@,
            }),
    {
        match self {
            HttpDownloaderError::UnsupportedScheme => "unsupported scheme".to_owned(),
            HttpDownloaderError::ContentLengthNotSupported => {
                "Content-Length header not supported".to_owned()
            },
            HttpDownloaderError::BadServer => {
                "The server returned something we can't continue with".to_owned()
            },
            HttpDownloaderError::TransportError(reason) => {
                "transport error: ".to_owned().concat(reason.as_str())
            },
            HttpDownloaderError::SinkIoError(reason) => {
                "sink io error: ".to_owned().concat(reason.as_str())
            },
            HttpDownloaderError::StoreUnavailable => "store unavailable".to_owned(),
            HttpDownloaderError::StoreCorrupt => "store corrupt".to_owned(),
            HttpDownloaderError::SourceClosed => "request source closed".to_owned(),
            HttpDownloaderError::Other(reason) => {
                "generic error: ".to_owned().concat(reason.as_str())
            },
        }
    }
}

} // verus!
