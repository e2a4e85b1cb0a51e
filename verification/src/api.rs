//! The HTTP API surface's data shapes. The handlers themselves live with the
//! embedder; only the plain values cross into the engine.

use vstd::prelude::*;

verus! {

/// What the download endpoint answers.
#[derive(Debug)]
pub struct DownloadResponse {
    message: String,
}

impl View for DownloadResponse {
    type V = Seq<char>;

    closed spec fn view(&self) -> Seq<char> {
        self.message@
    }
}

impl DownloadResponse {
    /// A response carrying the given message.
    pub fn new(message: String) -> (r: Self)
        ensures
            r@ == message@,
    {
        DownloadResponse { message }
    }

    /// The response's message.
    pub fn message(&self) -> (r: &String)
        ensures
            r@ == self@,
    {
        &self.message
    }
}

} // verus!
