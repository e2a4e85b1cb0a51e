//! Scheme selection: the engine is oblivious to plaintext vs. TLS; the
//! connector is selected by URL scheme, and any scheme other than `http` or
//! `https` is rejected before planning begins.

use vstd::prelude::*;

use crate::errors::HttpDownloaderError;

verus! {

/// The scheme of a URL string as the `url` crate parses it: `None` when the
/// string is not an absolute URL, otherwise the scheme, lower-cased, without
/// the ':' delimiter. A function of the string alone.
pub uninterp spec fn url_scheme_of(s: Seq<char>) -> Option<Seq<char>>;

/// Relies on url::Url::parse and url::Url::scheme: parsing depends on the
/// string alone, and `scheme` returns the parsed scheme lower-cased as ASCII
/// without the ':' delimiter.
#[verifier::external_body]
fn url_scheme(u: &str) -> (r: Option<String>)
    ensures
        r is Some <==> url_scheme_of(u@) is Some,
        r matches Some(s) ==> url_scheme_of(u@) == Some(s@),
{
    match url::Url::parse(u) {
        Ok(parsed) => Some(parsed.scheme().to_string()),
        Err(_) => None,
    }
}

/// Which transport a URL selects: a plain TCP connection or TLS over TCP.
#[derive(Debug, Clone, Copy, PartialEq, Eq, Structural)]
pub enum SchemeKind {
    Http,
    Https,
}

/// Decide the transport for a URL: `http` and `https` each select their
/// connector; any other scheme, and any string that is no absolute URL, is
/// rejected with `UnsupportedScheme` before any store or network activity.
pub fn classify_url(u: &str) -> (r: Result<SchemeKind, HttpDownloaderError>)
    ensures
        r == (if url_scheme_of(u@) == Some("http"@) {
            Result::<SchemeKind, HttpDownloaderError>::Ok(SchemeKind::Http)
        } else if url_scheme_of(u@) == Some("https"@) {
            Result::<SchemeKind, HttpDownloaderError>::Ok(SchemeKind::Https)
        } else {
            Result::<SchemeKind, HttpDownloaderError>::Err(HttpDownloaderError::UnsupportedScheme)
        }),
{
    match url_scheme(u) {
        None => Err(HttpDownloaderError::UnsupportedScheme),
        Some(s) => {
            if s.eq(&"http".to_owned()) {
                Ok(SchemeKind::Http)
            } else if s.eq(&"https".to_owned()) {
                Ok(SchemeKind::Https)
            } else {
                Err(HttpDownloaderError::UnsupportedScheme)
            }
        },
    }
}

} // verus!
