use parget::errors::{store_error_to_download_error, HttpDownloaderError, StoreError};
use parget::http::{parse_content_length, HttpDownloader};
use parget::lifecycle::{lifetime_step, LifecycleAction, LifecycleEvent};
use parget::request::HttpRequest;
use parget::segment::{advance, SubDownload};
use parget::store::SegmentStore;
use parget::transport::{classify_url, SchemeKind};

fn request(url: &str, path: &str) -> HttpRequest {
    HttpRequest { url: url.to_string(), path: path.to_string() }
}

#[test]
fn classify_url_accepts_http_and_https() {
    assert_eq!(classify_url("http://example.com/x"), Ok(SchemeKind::Http));
    assert_eq!(classify_url("https://example.com/x"), Ok(SchemeKind::Https));
}

#[test]
fn classify_url_lowercases_the_scheme() {
    // the scheme comes back folded to lower case, whatever the input said
    assert_eq!(classify_url("HTTP://EXAMPLE.COM/x"), Ok(SchemeKind::Http));
    assert_eq!(classify_url("HtTpS://example.com/x"), Ok(SchemeKind::Https));
}

#[test]
fn ftp_scheme_is_rejected_before_any_activity() {
    assert_eq!(
        classify_url("ftp://example/x"),
        Err(HttpDownloaderError::UnsupportedScheme)
    );
}

#[test]
fn garbage_url_is_rejected() {
    assert_eq!(
        classify_url("not a url at all"),
        Err(HttpDownloaderError::UnsupportedScheme)
    );
}

#[test]
fn lifetime_step_dispatches_and_rejects() {
    assert!(matches!(lifetime_step(LifecycleEvent::Stop), LifecycleAction::Exit));
    assert!(matches!(lifetime_step(LifecycleEvent::SourceClosed), LifecycleAction::Exit));

    let good = lifetime_step(LifecycleEvent::Request(request("https://a.example/f", "/tmp/f")));
    match good {
        LifecycleAction::Dispatch(req, kind) => {
            assert_eq!(req.url, "https://a.example/f");
            assert_eq!(kind, SchemeKind::Https);
        },
        other => panic!("expected a dispatch, got {:?}", other),
    }

    let bad = lifetime_step(LifecycleEvent::Request(request("ftp://example/x", "/tmp/x")));
    match bad {
        LifecycleAction::Reject(req, e) => {
            assert_eq!(req.url, "ftp://example/x");
            assert_eq!(e, HttpDownloaderError::UnsupportedScheme);
        },
        other => panic!("expected a rejection, got {:?}", other),
    }
}

#[test]
fn parse_content_length_exact_values() {
    assert_eq!(parse_content_length(&b"12".to_vec()), Ok(12));
    assert_eq!(parse_content_length(&b"0".to_vec()), Ok(0));
    assert_eq!(parse_content_length(&b"1000".to_vec()), Ok(1000));
    assert_eq!(parse_content_length(&b"0042".to_vec()), Ok(42));
}

#[test]
fn parse_content_length_rejects_malformed_headers() {
    assert_eq!(
        parse_content_length(&b"".to_vec()),
        Err(HttpDownloaderError::BadServer)
    );
    assert_eq!(
        parse_content_length(&b"12a".to_vec()),
        Err(HttpDownloaderError::BadServer)
    );
    assert_eq!(
        parse_content_length(&b"-5".to_vec()),
        Err(HttpDownloaderError::BadServer)
    );
    assert_eq!(
        parse_content_length(&b"99999999999999999999999999999999".to_vec()),
        Err(HttpDownloaderError::BadServer)
    );
}

#[test]
fn advance_keeps_the_segment_end_fixed() {
    let mut seg = SubDownload {
        id: 1,
        url: "http://example.com/f".to_string(),
        offset: 100,
        remaining: 50,
        file_path: "/tmp/f".to_string(),
    };
    let end = seg.offset + seg.remaining;
    let mut last_offset = seg.offset;
    for chunk in [10usize, 0, 25, 15] {
        advance(&mut seg, chunk);
        assert!(seg.offset >= last_offset);
        assert_eq!(seg.offset + seg.remaining, end);
        last_offset = seg.offset;
    }
    assert_eq!(seg.remaining, 0);
}

#[test]
fn spawn_downloads_rejects_bad_probes() {
    let mut dl = HttpDownloader::new(SegmentStore::new());
    let req = request("ftp://example/x", "/tmp/out.bin");
    assert_eq!(
        dl.spawn_downloads(&req, &Some(b"12".to_vec()), 4),
        Err(HttpDownloaderError::UnsupportedScheme)
    );
    assert!(dl.store.segments().is_empty());

    let req = request("http://example.com/x", "/tmp/out.bin");
    assert_eq!(
        dl.spawn_downloads(&req, &None, 4),
        Err(HttpDownloaderError::ContentLengthNotSupported)
    );
    assert!(dl.store.segments().is_empty());

    assert_eq!(
        dl.spawn_downloads(&req, &Some(b"12 bytes".to_vec()), 4),
        Err(HttpDownloaderError::BadServer)
    );
    assert!(dl.store.segments().is_empty());
}

#[test]
fn whole_transfer_against_a_mock_server() {
    // the mock answers HEAD with Content-Length: 12 and serves ranged GETs
    // with exactly the requested bytes of this content
    let content: Vec<u8> = b"hello world!".to_vec();
    let mut dl = HttpDownloader::new(SegmentStore::new());
    let req = request("http://mock.example/data.bin", "/tmp/out.bin");

    let mut segs = dl.spawn_downloads(&req, &Some(b"12".to_vec()), 4).unwrap();
    assert_eq!(segs.len(), 4);
    assert_eq!(dl.store.segments().len(), 4);

    let mut sink = vec![0u8; 12];
    for seg in segs.iter_mut() {
        let body = vec![content[seg.offset..seg.offset + seg.remaining].to_vec()];
        dl.chunked_download(seg, &mut sink, &body).unwrap();
    }

    assert_eq!(sink, content);
    assert!(dl.store.segments().is_empty());
}

#[test]
fn killed_and_resumed_transfer_matches_the_uninterrupted_one() {
    let content: Vec<u8> = b"hello world!".to_vec();
    let mut dl = HttpDownloader::new(SegmentStore::new());
    let req = request("http://mock.example/data.bin", "/tmp/out.bin");

    let segs = dl.spawn_downloads(&req, &Some(b"12".to_vec()), 4).unwrap();
    let mut sink = vec![0u8; 12];

    // one worker processes exactly one chunk, then the process is killed:
    // the body ends early, the record stays behind with its progress
    let mut first = segs[0].clone();
    let partial = vec![content[first.offset..first.offset + 2].to_vec()];
    let r = dl.chunked_download(&mut first, &mut sink, &partial);
    assert!(matches!(r, Err(HttpDownloaderError::TransportError(_))));
    assert_eq!(dl.store.segments().len(), 4);

    // restart: recover the segments from the store and finish each range
    let stored = dl.resume_downloads(&req).unwrap();
    assert_eq!(stored.len(), 4);
    for mut seg in stored {
        let body = vec![content[seg.offset..seg.offset + seg.remaining].to_vec()];
        dl.chunked_download(&mut seg, &mut sink, &body).unwrap();
    }

    assert_eq!(sink, content);
    assert!(dl.store.segments().is_empty());
}

#[test]
fn overlong_chunk_is_truncated_and_terminates_the_segment() {
    let mut dl = HttpDownloader::new(SegmentStore::new());
    let mut seg = SubDownload {
        id: 0,
        url: "http://mock.example/f".to_string(),
        offset: 2,
        remaining: 3,
        file_path: "/tmp/f".to_string(),
    };
    seg.id = dl.store.add_download(&seg).unwrap();

    let mut sink = vec![0u8; 8];
    // the server violates the range and sends five bytes where three are owed
    dl.chunked_download(&mut seg, &mut sink, &vec![b"abcde".to_vec()]).unwrap();

    assert_eq!(sink, b"\0\0abc\0\0\0".to_vec());
    assert_eq!(seg.remaining, 0);
    assert!(dl.store.segments().is_empty());
}

#[test]
fn empty_chunks_are_ignored() {
    let mut dl = HttpDownloader::new(SegmentStore::new());
    let mut seg = SubDownload {
        id: 0,
        url: "http://mock.example/f".to_string(),
        offset: 0,
        remaining: 4,
        file_path: "/tmp/f".to_string(),
    };
    seg.id = dl.store.add_download(&seg).unwrap();

    let mut sink = vec![0u8; 4];
    let body = vec![Vec::new(), b"ab".to_vec(), Vec::new(), b"cd".to_vec()];
    dl.chunked_download(&mut seg, &mut sink, &body).unwrap();

    assert_eq!(sink, b"abcd".to_vec());
    assert!(dl.store.segments().is_empty());
}

#[test]
fn resume_refuses_unsupported_schemes_and_corrupt_state() {
    let mut dl = HttpDownloader::new(SegmentStore::new());
    assert_eq!(
        dl.resume_downloads(&request("ftp://example/x", "/tmp/x")),
        Err(HttpDownloaderError::UnsupportedScheme)
    );

    // two persisted segments whose ranges overlap violate the store invariant
    let url = "http://mock.example/f".to_string();
    let a = SubDownload {
        id: 0,
        url: url.clone(),
        offset: 0,
        remaining: 10,
        file_path: "/tmp/f".to_string(),
    };
    let b = SubDownload { offset: 5, ..a.clone() };
    dl.store.add_download(&a).unwrap();
    dl.store.add_download(&b).unwrap();
    assert_eq!(
        dl.resume_downloads(&request(&url, "/tmp/f")),
        Err(HttpDownloaderError::StoreCorrupt)
    );
}

#[test]
fn error_messages_match_their_kinds() {
    assert_eq!(
        HttpDownloaderError::ContentLengthNotSupported.message(),
        "Content-Length header not supported"
    );
    assert_eq!(
        HttpDownloaderError::BadServer.message(),
        "The server returned something we can't continue with"
    );
    assert_eq!(
        HttpDownloaderError::TransportError("reset".to_string()).message(),
        "transport error: reset"
    );
    assert_eq!(
        HttpDownloaderError::Other("reason".to_string()).message(),
        "generic error: reason"
    );
}

#[test]
fn store_errors_map_into_the_transfer_taxonomy() {
    assert_eq!(
        store_error_to_download_error(&StoreError::Corrupt),
        HttpDownloaderError::StoreCorrupt
    );
    assert_eq!(
        store_error_to_download_error(&StoreError::Unavailable),
        HttpDownloaderError::StoreUnavailable
    );
    assert_eq!(
        store_error_to_download_error(&StoreError::Conflict),
        HttpDownloaderError::StoreUnavailable
    );
}
