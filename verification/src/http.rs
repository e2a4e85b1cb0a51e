//! The download engine: probing results are turned into a plan, the plan into
//! registered segments, and body chunks into writes at exact offsets with the
//! store updated after every chunk.

use vstd::prelude::*;

use crate::errors::{store_error_to_download_error, HttpDownloaderError};
use crate::plan::{plan_interval, plan_len, split_range};
use crate::request::HttpRequest;
use crate::segment::{
    advance, advance_model, chunk_written, run_model, seg_in_bounds, SegmentModel, SubDownload,
};
use crate::sink::{write_at, write_range};
use crate::store::{
    add_model, segments_for, segments_without_id, store_wf, SegmentStore, StoreModel,
};
use crate::transport::{classify_url, url_scheme_of};
use crate::worker::{chunk_lens, chunks_from_content, lemma_transfer_writes_content, run_file_bytes, run_segments, seg_covers};

verus! {

/// Whether the byte is an ASCII decimal digit.
pub open spec fn is_digit(b: u8) -> bool {
    48 <= b <= 57
}

/// The value of a big-endian string of decimal digits.
pub open spec fn digits_value(s: Seq<u8>) -> int
    decreases s.len(),
{
    if s.len() == 0 {
        0
    } else {
        digits_value(s.drop_last()) * 10 + (s.last() - 48)
    }
}

/// Whether the bytes are a `Content-Length` value this host can hold: a
/// non-empty, all-digit decimal number no larger than the address space.
pub open spec fn valid_content_length(s: Seq<u8>) -> bool {
    &&& s.len() > 0
    &&& forall|i: int| 0 <= i < s.len() ==> is_digit(#[trigger] s[i])
    &&& digits_value(s) <= usize::MAX
}

proof fn lemma_digits_step(s: Seq<u8>, i: int)
    requires
        0 <= i < s.len(),
    ensures
        digits_value(s.take(i + 1)) == digits_value(s.take(i)) * 10 + (s[i] - 48),
{
    assert(s.take(i + 1).drop_last() =~= s.take(i));
    assert(s.take(i + 1).last() == s[i]);
}

/// A string of digits is worth a non-negative amount.
proof fn lemma_digits_nonneg(s: Seq<u8>, i: int)
    requires
        forall|k: int| 0 <= k < i ==> is_digit(#[trigger] s[k]),
        0 <= i <= s.len(),
    ensures
        0 <= digits_value(s.take(i)),
    decreases i,
{
    if i == 0 {
        assert(s.take(0) =~= Seq::<u8>::empty());
    } else {
        lemma_digits_nonneg(s, i - 1);
        lemma_digits_step(s, i - 1);
    }
}

/// Once a digit prefix is worth something, every longer prefix is worth at
/// least as much.
proof fn lemma_digits_prefix_monotone(s: Seq<u8>, i: int, j: int)
    requires
        forall|k: int| 0 <= k < j ==> is_digit(#[trigger] s[k]),
        0 <= i <= j <= s.len(),
    ensures
        digits_value(s.take(i)) <= digits_value(s.take(j)),
    decreases j - i,
{
    if i < j {
        lemma_digits_prefix_monotone(s, i, j - 1);
        lemma_digits_nonneg(s, j - 1);
        lemma_digits_step(s, j - 1);
    }
}

/// Parse a `Content-Length` header value as a non-negative integer. Returns
/// the exact decimal value when the bytes are a well-formed number that fits
/// the host; any other input is a malformed header, `BadServer`.
pub fn parse_content_length(bytes: &Vec<u8>) -> (r: Result<usize, HttpDownloaderError>)
    ensures
        valid_content_length(bytes@) ==> (r matches Ok(v) && v == digits_value(bytes@)),
        !valid_content_length(bytes@) ==> r == Result::<usize, HttpDownloaderError>::Err(
            HttpDownloaderError::BadServer,
        ),
{
    let n = bytes.len();
    if n == 0 {
        return Err(HttpDownloaderError::BadServer);
    }
    let mut acc: usize = 0;
    let mut i: usize = 0;
    proof {
        assert(bytes@.take(0) =~= Seq::<u8>::empty());
    }
    while i < n
        invariant
            n == bytes@.len(),
            i <= n,
            forall|k: int| 0 <= k < i ==> is_digit(#[trigger] bytes@[k]),
            acc == digits_value(bytes@.take(i as int)),
        decreases n - i,
    {
        let b = bytes[i];
        if b < 48 || b > 57 {
            return Err(HttpDownloaderError::BadServer);
        }
        let d = (b - 48) as usize;
        if acc > (usize::MAX - d) / 10 {
            proof {
                lemma_digits_step(bytes@, i as int);
                assert(digits_value(bytes@.take(i + 1)) > usize::MAX) by {
                    assert(acc * 10 + d > usize::MAX) by (nonlinear_arith)
                        requires
                            acc > (usize::MAX - d) / 10,
                            0 <= d <= 9,
                    ;
                }
                if forall|l: int| 0 <= l < bytes@.len() ==> is_digit(#[trigger] bytes@[l]) {
                    lemma_digits_prefix_monotone(bytes@, i + 1, n as int);
                    assert(bytes@.take(n as int) =~= bytes@);
                    assert(digits_value(bytes@) > usize::MAX);
                }
            }
            return Err(HttpDownloaderError::BadServer);
        }
        proof {
            lemma_digits_step(bytes@, i as int);
            assert(acc * 10 + d <= usize::MAX) by (nonlinear_arith)
                requires
                    acc <= (usize::MAX - d) / 10,
                    0 <= d <= 9,
            ;
        }
        acc = acc * 10 + d;
        i = i + 1;
    }
    proof {
        assert(bytes@.take(n as int) =~= bytes@);
    }
    Ok(acc)
}

/// Whether a URL's scheme selects one of the two supported transports.
pub open spec fn scheme_supported(u: Seq<char>) -> bool {
    url_scheme_of(u) == Some("http"@) || url_scheme_of(u) == Some("https"@)
}

/// The planned intervals as one sequence.
pub open spec fn plan_seq(size: int, workers: int) -> Seq<(int, int)> {
    Seq::new(plan_len(size, workers) as nat, |i: int| plan_interval(size, workers, i))
}

/// One segment record as the coordinator shapes it from a planned interval:
/// the next byte to write is the interval's begin, and the whole interval is
/// still owed. The id is a placeholder until the store assigns one.
pub open spec fn segment_of_interval(url: Seq<char>, path: Seq<char>, iv: (int, int)) -> SegmentModel {
    SegmentModel { id: 0, url, offset: iv.0, remaining: iv.1 - iv.0, file_path: path }
}

/// The store after the coordinator registered one segment per interval, in
/// order.
pub open spec fn register_model(
    m: StoreModel,
    url: Seq<char>,
    path: Seq<char>,
    ivs: Seq<(int, int)>,
) -> StoreModel
    decreases ivs.len(),
{
    if ivs.len() == 0 {
        m
    } else {
        add_model(
            register_model(m, url, path, ivs.drop_last()),
            segment_of_interval(url, path, ivs.last()),
        )
    }
}

/// The segment records a successful registration returns: one per planned
/// interval, under consecutive fresh ids starting at `next_id`.
pub open spec fn planned_segments(
    next_id: int,
    url: Seq<char>,
    path: Seq<char>,
    size: int,
    workers: int,
) -> Seq<SegmentModel> {
    Seq::new(
        plan_len(size, workers) as nat,
        |i: int|
            SegmentModel {
                id: next_id + i,
                url,
                offset: plan_interval(size, workers, i).0,
                remaining: plan_interval(size, workers, i).1 - plan_interval(size, workers, i).0,
                file_path: path,
            },
    )
}

/// A complete transfer is exact: when every segment registered from the plan
/// runs its stable-server body to completion, the destination file holds the
/// server's content byte for byte.
pub proof fn lemma_planned_transfer_is_exact(
    file: Seq<u8>,
    content: Seq<u8>,
    next_id: int,
    url: Seq<char>,
    path: Seq<char>,
    workers: int,
    bodies: Seq<Seq<Seq<u8>>>,
)
    requires
        file.len() == content.len(),
        1 <= workers,
        bodies.len() == plan_len(file.len() as int, workers),
        forall|i: int|
            0 <= i < bodies.len() ==> chunks_from_content(
                content,
                #[trigger] planned_segments(next_id, url, path, file.len() as int, workers)[i],
                bodies[i],
            ),
        forall|i: int|
            0 <= i < bodies.len() ==> run_model(
                #[trigger] planned_segments(next_id, url, path, file.len() as int, workers)[i],
                chunk_lens(bodies[i]),
            ).remaining == 0,
    ensures
        run_segments(
            file,
            planned_segments(next_id, url, path, file.len() as int, workers),
            bodies,
        ) == content,
{
    let size = file.len() as int;
    let n = plan_len(size, workers);
    let segs = planned_segments(next_id, url, path, size, workers);
    crate::plan::lemma_plan_partition(size, workers);
    assert forall|i: int| 0 <= i < n implies 0 <= (#[trigger] segs[i]).offset && 0
        <= segs[i].remaining && segs[i].offset + segs[i].remaining <= size by {
        let iv = plan_interval(size, workers, i);
        assert(segs[i].offset == iv.0 && segs[i].offset + segs[i].remaining == iv.1);
        if i > 0 {
            assert(plan_interval(size, workers, 0).1 <= plan_interval(size, workers, i).0);
            assert(plan_interval(size, workers, 0).0 == 0);
            assert(plan_interval(size, workers, 0).0 < plan_interval(size, workers, 0).1);
        }
        if i < n - 1 {
            assert(plan_interval(size, workers, i).1 <= plan_interval(size, workers, n - 1).0);
            assert(plan_interval(size, workers, n - 1).0 < plan_interval(size, workers, n - 1).1);
            assert(plan_interval(size, workers, n - 1).1 == size);
        }
    }
    lemma_transfer_writes_content(file, content, segs, bodies);
    assert forall|x: int| 0 <= x < size implies seg_covers(segs, x) by {
        assert(crate::plan::plan_covers(size, workers, x));
        let i = choose|i: int|
            0 <= i < plan_len(size, workers) && (#[trigger] plan_interval(size, workers, i)).0 <= x
                < plan_interval(size, workers, i).1;
        assert(segs[i].offset <= x < segs[i].offset + segs[i].remaining);
    }
    assert(run_segments(file, segs, bodies) =~= content);
}

/// Every segment's byte range fits the host's address space.
pub open spec fn seg_ranges_ok(segs: Seq<SegmentModel>) -> bool {
    forall|i: int|
        0 <= i < segs.len() ==> (#[trigger] segs[i]).offset + segs[i].remaining <= usize::MAX
}

/// No two segments' ranges `[offset, offset + remaining)` intersect.
pub open spec fn seg_ranges_disjoint(segs: Seq<SegmentModel>) -> bool {
    forall|i: int, j: int|
        #![trigger segs[i], segs[j]]
        0 <= i < j < segs.len() ==> (segs[i].offset + segs[i].remaining <= segs[j].offset
            || segs[j].offset + segs[j].remaining <= segs[i].offset)
}

/// The engine that drives one transfer: it owns the segment store and turns
/// probe results into registered segments and body chunks into file writes.
pub struct HttpDownloader {
    /// The shared segment store all workers report to.
    pub store: SegmentStore,
}

impl HttpDownloader {
    /// A downloader over the given store.
    pub fn new(store: SegmentStore) -> (r: Self)
        ensures
            r.store == store,
    {
        HttpDownloader { store }
    }

    /// Plan one transfer and register its segments: reject unsupported
    /// schemes before any store activity, fail when the probe carried no
    /// `Content-Length` or a malformed one, split the size across `workers`,
    /// and insert one record per interval. Returns the records under the ids
    /// the store assigned.
    pub fn spawn_downloads(
        &mut self,
        download_request: &HttpRequest,
        content_length: &Option<Vec<u8>>,
        workers: usize,
    ) -> (r: Result<Vec<SubDownload>, HttpDownloaderError>)
        requires
            old(self).store.wf(),
            1 <= workers,
        ensures
            final(self).store.wf(),
            !scheme_supported(download_request.url@) ==> r == Result::<
                Vec<SubDownload>,
                HttpDownloaderError,
            >::Err(HttpDownloaderError::UnsupportedScheme) && final(self).store@ == old(
                self,
            ).store@,
            scheme_supported(download_request.url@) && content_length is None ==> r == Result::<
                Vec<SubDownload>,
                HttpDownloaderError,
            >::Err(HttpDownloaderError::ContentLengthNotSupported) && final(self).store@ == old(
                self,
            ).store@,
            content_length matches Some(b) ==> ((scheme_supported(download_request.url@)
                && !valid_content_length(b@)) ==> r == Result::<
                Vec<SubDownload>,
                HttpDownloaderError,
            >::Err(HttpDownloaderError::BadServer) && final(self).store@ == old(self).store@),
            content_length matches Some(b) ==> ((scheme_supported(download_request.url@)
                && valid_content_length(b@)) ==> ({
                let size = digits_value(b@);
                let count = plan_len(size, workers as int);
                if old(self).store@.next_id + count <= i32::MAX {
                    &&& r matches Ok(segs)
                    &&& segs.deep_view() == planned_segments(
                        old(self).store@.next_id,
                        download_request.url@,
                        download_request.path@,
                        size,
                        workers as int,
                    )
                    &&& final(self).store@ == register_model(
                        old(self).store@,
                        download_request.url@,
                        download_request.path@,
                        plan_seq(size, workers as int),
                    )
                } else {
                    r == Result::<Vec<SubDownload>, HttpDownloaderError>::Err(
                        HttpDownloaderError::StoreUnavailable,
                    ) && final(self).store@ == old(self).store@
                }
            })),
    {
        if let Err(e) = classify_url(download_request.url.as_str()) {
            return Err(e);
        }
        let length_bytes = match content_length {
            None => {
                return Err(HttpDownloaderError::ContentLengthNotSupported);
            },
            Some(b) => b,
        };
        let size = match parse_content_length(length_bytes) {
            Err(e) => {
                return Err(e);
            },
            Ok(v) => v,
        };
        let ranges = split_range(size, workers);
        let count = ranges.len();
        if !self.store.capacity_for(count) {
            return Err(HttpDownloaderError::StoreUnavailable);
        }
        proof {
            crate::plan::lemma_plan_partition(size as int, workers as int);
        }
        let ghost m0 = self.store@;
        let ghost url = download_request.url@;
        let ghost path = download_request.path@;
        let ghost ivs = plan_seq(size as int, workers as int);
        let mut out: Vec<SubDownload> = Vec::new();
        proof {
            assert(ivs.take(0) =~= Seq::<(int, int)>::empty());
            assert(out.deep_view() =~= Seq::<SegmentModel>::empty());
            assert(planned_segments(m0.next_id, url, path, size as int, workers as int).take(0)
                =~= Seq::<SegmentModel>::empty());
        }
        let mut idx: usize = 0;
        while idx < count
            invariant
                old(self).store.wf(),
                self.store.wf(),
                1 <= workers,
                m0 == old(self).store@,
                url == download_request.url@,
                path == download_request.path@,
                ivs == plan_seq(size as int, workers as int),
                count == ranges@.len(),
                count == plan_len(size as int, workers as int),
                m0.next_id + count <= i32::MAX,
                forall|i: int|
                    0 <= i < count ==> (#[trigger] ranges@[i]).0 == plan_interval(
                        size as int,
                        workers as int,
                        i,
                    ).0 && ranges@[i].1 == plan_interval(size as int, workers as int, i).1,
                forall|i: int|
                    0 <= i < count ==> (#[trigger] ranges@[i]).0 <= ranges@[i].1,
                idx <= count,
                self.store@ == register_model(m0, url, path, ivs.take(idx as int)),
                self.store@.next_id == m0.next_id + idx,
                out.deep_view() == planned_segments(
                    m0.next_id,
                    url,
                    path,
                    size as int,
                    workers as int,
                ).take(idx as int),
            decreases count - idx,
        {
            let (begin, end) = ranges[idx];
            let d = SubDownload {
                id: 0,
                url: download_request.url.clone(),
                offset: begin,
                remaining: end - begin,
                file_path: download_request.path.clone(),
            };
            let ghost before = self.store@;
            let id = match self.store.add_download(&d) {
                Ok(id) => id,
                Err(e) => {
                    return Err(store_error_to_download_error(&e));
                },
            };
            let mut registered = d;
            registered.id = id;
            let ghost prev_dv = out.deep_view();
            out.push(registered);
            proof {
                assert(ivs.take(idx + 1).drop_last() =~= ivs.take(idx as int));
                assert(ivs.take(idx + 1).last() == plan_interval(size as int, workers as int, idx as int));
                assert(add_model(before, d@) == add_model(
                    before,
                    segment_of_interval(url, path, ivs[idx as int]),
                ));
                assert(self.store@ == register_model(m0, url, path, ivs.take(idx + 1)));
                let planned = planned_segments(m0.next_id, url, path, size as int, workers as int);
                assert(registered@ =~= planned[idx as int]);
                assert(prev_dv.len() == idx);
                assert(out@.len() == idx + 1);
                assert forall|j: int| 0 <= j < out@.len() implies out.deep_view()[j]
                    == planned.take(idx + 1)[j] by {
                    assert(out.deep_view()[j] == out@[j]@);
                    if j < idx {
                        assert(out.deep_view()[j] == prev_dv[j]);
                        assert(prev_dv[j] == planned.take(idx as int)[j]);
                    } else {
                        assert(out.deep_view()[j] == registered@);
                    }
                }
                assert(out.deep_view() =~= planned.take(idx + 1));
            }
            idx = idx + 1;
        }
        proof {
            assert(ivs.take(count as int) =~= ivs);
            assert(planned_segments(m0.next_id, url, path, size as int, workers as int).take(
                count as int,
            ) =~= planned_segments(m0.next_id, url, path, size as int, workers as int));
        }
        Ok(out)
    }

    /// Resumption entry point: instead of probing and planning afresh, adopt
    /// the live segments the store already holds for this URL. The scheme is
    /// still checked first, and segments whose ranges overlap or overflow the
    /// address space mean the persisted state violates its invariants.
    pub fn resume_downloads(&self, download_request: &HttpRequest) -> (r: Result<
        Vec<SubDownload>,
        HttpDownloaderError,
    >)
        ensures
            !scheme_supported(download_request.url@) ==> r == Result::<
                Vec<SubDownload>,
                HttpDownloaderError,
            >::Err(HttpDownloaderError::UnsupportedScheme),
            scheme_supported(download_request.url@) ==> ({
                let live = segments_for(self.store@.segments, download_request.url@);
                if seg_ranges_ok(live) && seg_ranges_disjoint(live) {
                    r matches Ok(v) && v.deep_view() == live
                } else {
                    r == Result::<Vec<SubDownload>, HttpDownloaderError>::Err(
                        HttpDownloaderError::StoreCorrupt,
                    )
                }
            }),
    {
        if let Err(e) = classify_url(download_request.url.as_str()) {
            return Err(e);
        }
        let live = match self.store.downloads_by_url(&download_request.url) {
            Ok(v) => v,
            Err(e) => {
                return Err(store_error_to_download_error(&e));
            },
        };
        let ghost lv = live.deep_view();
        let n = live.len();
        let mut i: usize = 0;
        while i < n
            invariant
                scheme_supported(download_request.url@),
                lv == segments_for(self.store@.segments, download_request.url@),
                n == lv.len(),
                lv == live.deep_view(),
                i <= n,
                forall|a: int| 0 <= a < i ==> (#[trigger] lv[a]).offset + lv[a].remaining <= usize::MAX,
            decreases n - i,
        {
            assert(lv[i as int] == live[i as int]@);
            if live[i].offset.checked_add(live[i].remaining).is_none() {
                return Err(HttpDownloaderError::StoreCorrupt);
            }
            i = i + 1;
        }
        let mut i: usize = 0;
        while i < n
            invariant
                scheme_supported(download_request.url@),
                lv == segments_for(self.store@.segments, download_request.url@),
                n == lv.len(),
                lv == live.deep_view(),
                seg_ranges_ok(lv),
                i <= n,
                forall|a: int, b: int|
                    #![trigger lv[a], lv[b]]
                    0 <= a < b < n && a < i ==> (lv[a].offset + lv[a].remaining <= lv[b].offset
                        || lv[b].offset + lv[b].remaining <= lv[a].offset),
            decreases n - i,
        {
            let mut j: usize = i + 1;
            while j < n
                invariant
                    scheme_supported(download_request.url@),
                    lv == segments_for(self.store@.segments, download_request.url@),
                    n == lv.len(),
                    lv == live.deep_view(),
                    seg_ranges_ok(lv),
                    i < j <= n,
                    i < n,
                    forall|b: int|
                        i < b < j ==> ((#[trigger] lv[b]).offset + lv[b].remaining
                            <= lv[i as int].offset || lv[i as int].offset + lv[i as int].remaining
                            <= lv[b].offset),
                decreases n - j,
            {
                assert(lv[i as int] == live[i as int]@);
                assert(lv[j as int] == live[j as int]@);
                let i_end = live[i].offset + live[i].remaining;
                let j_end = live[j].offset + live[j].remaining;
                if !(i_end <= live[j].offset || j_end <= live[i].offset) {
                    return Err(HttpDownloaderError::StoreCorrupt);
                }
                j = j + 1;
            }
            i = i + 1;
        }
        Ok(live)
    }

    /// Drive one segment through a list of body chunks: each chunk is written
    /// in full at the segment's current offset (clamped to the bytes still
    /// owed), the segment advances, and the store is updated after every
    /// chunk — the write is observable before the store claims the progress.
    /// When the range is complete the record is removed from the store; when
    /// the body ends early the record is left intact for resumption and the
    /// worker surfaces a transport error.
    pub fn chunked_download(
        &mut self,
        download: &mut SubDownload,
        sink: &mut Vec<u8>,
        chunks: &Vec<Vec<u8>>,
    ) -> (r: Result<(), HttpDownloaderError>)
        requires
            old(self).store.wf(),
            old(self).store@.segments.contains(old(download)@),
            seg_in_bounds(old(download)@),
            old(download)@.offset + old(download)@.remaining <= old(sink)@.len(),
        ensures
            final(self).store.wf(),
            final(download)@ == run_model(old(download)@, chunk_lens(chunks.deep_view())),
            final(sink)@ == run_file_bytes(old(sink)@, old(download)@, chunks.deep_view()),
            final(download)@.remaining == 0 ==> r == Result::<(), HttpDownloaderError>::Ok(())
                && final(self).store@ == (StoreModel {
                segments: segments_without_id(old(self).store@.segments, old(download)@.id),
                ..old(self).store@
            }),
            final(download)@.remaining > 0 ==> (r matches Err(e) && e matches
                HttpDownloaderError::TransportError(msg) && msg@
                == "body ended before the requested range was complete"@) && (forall|i: int|
                0 <= i < old(self).store@.segments.len() && old(self).store@.segments[i] == old(
                    download,
                )@ ==> final(self).store@ == (StoreModel {
                    segments: old(self).store@.segments.update(i, final(download)@),
                    ..old(self).store@
                })),
    {
        let ghost m0 = self.store@;
        let ghost d0 = old(download)@;
        let ghost cd = chunks.deep_view();
        let ghost idx = choose|i: int| 0 <= i < m0.segments.len() && m0.segments[i] == d0;
        let n = chunks.len();
        proof {
            assert(cd.take(0) =~= Seq::<Seq<u8>>::empty());
            assert(chunk_lens(cd.take(0)) =~= Seq::<int>::empty());
            assert(m0.segments.update(idx, d0) =~= m0.segments);
        }
        let mut k: usize = 0;
        while k < n && download.remaining > 0
            invariant
                n == cd.len(),
                cd == chunks.deep_view(),
                k <= n,
                self.store.wf(),
                m0 == old(self).store@,
                d0 == old(download)@,
                0 <= idx < m0.segments.len(),
                m0.segments[idx] == d0,
                store_wf(m0),
                seg_in_bounds(d0),
                d0.offset + d0.remaining <= old(sink)@.len(),
                download@ == run_model(d0, chunk_lens(cd.take(k as int))),
                download@.id == d0.id,
                download@.url == d0.url,
                download@.file_path == d0.file_path,
                download@.offset + download@.remaining == d0.offset + d0.remaining,
                d0.offset <= download@.offset,
                0 <= download@.remaining <= d0.remaining,
                sink@ == run_file_bytes(old(sink)@, d0, cd.take(k as int)),
                sink@.len() == old(sink)@.len(),
                self.store@ == (StoreModel {
                    segments: m0.segments.update(idx, download@),
                    ..m0
                }),
            decreases n - k,
        {
            let ghost dk = download@;
            let ghost prefix = cd.take(k as int);
            proof {
                assert(cd[k as int] == chunks@[k as int]@);
                assert(cd.take(k + 1) =~= prefix.push(cd[k as int]));
                assert(prefix.push(cd[k as int]) =~= prefix + seq![cd[k as int]]);
                crate::worker::lemma_run_file_compose(old(sink)@, d0, prefix, seq![cd[k as int]]);
                assert(chunk_lens(prefix + seq![cd[k as int]]) =~= chunk_lens(prefix) + seq![
                    cd[k as int].len() as int,
                ]);
                crate::segment::lemma_run_compose(
                    d0,
                    chunk_lens(prefix),
                    seq![cd[k as int].len() as int],
                );
                assert(seq![cd[k as int].len() as int].skip(1) =~= Seq::<int>::empty());
                assert(seq![cd[k as int]].skip(1) =~= Seq::<Seq<u8>>::empty());
            }
            let chunk = &chunks[k];
            if chunk.len() == 0 {
                proof {
                    crate::worker::lemma_run_single(sink@, dk, cd[k as int]);
                    assert(chunk_written(dk, 0) == 0);
                    assert(advance_model(dk, 0) =~= dk);
                    assert(cd[k as int].take(0) =~= Seq::<u8>::empty());
                    assert(write_at(sink@, dk.offset, cd[k as int].take(0)) =~= sink@);
                    assert(download@ == run_model(d0, chunk_lens(cd.take(k + 1))));
                    assert(sink@ == run_file_bytes(old(sink)@, d0, cd.take(k + 1)));
                }
                k = k + 1;
                continue ;
            }
            let written = if chunk.len() <= download.remaining {
                chunk.len()
            } else {
                download.remaining
            };
            let ghost sink_prev = sink@;
            write_range(sink, download.offset, chunk, written);
            advance(download, written);
            proof {
                crate::worker::lemma_run_single(sink_prev, dk, cd[k as int]);
                assert(chunk_written(dk, cd[k as int].len() as int) == written as int);
                assert(download@ == run_model(d0, chunk_lens(cd.take(k + 1))));
                assert(sink@ == run_file_bytes(old(sink)@, d0, cd.take(k + 1)));
            }
            let ghost before = self.store@;
            match self.store.update_download(download) {
                Ok(_) => {},
                Err(e) => {
                    proof {
                        assert(before.segments[idx].id == download@.id);
                        assert(false);
                    }
                    return Err(store_error_to_download_error(&e));
                },
            }
            proof {
                assert forall|i: int|
                    0 <= i < before.segments.len() && (#[trigger] before.segments[i]).id
                        == download@.id implies i == idx by {
                    if i != idx {
                        assert(before.segments[i].id == m0.segments[i].id);
                        assert(before.segments[idx].id == dk.id);
                    }
                }
                assert(self.store@.segments =~= m0.segments.update(idx, download@));
                assert(self.store@ =~= (StoreModel {
                    segments: m0.segments.update(idx, download@),
                    ..m0
                }));
            }
            k = k + 1;
        }
        proof {
            if k < n {
                assert(download@.remaining == 0);
                crate::worker::lemma_run_stalled(sink@, download@, cd.skip(k as int));
                assert(cd =~= cd.take(k as int) + cd.skip(k as int));
                crate::worker::lemma_run_file_compose(
                    old(sink)@,
                    d0,
                    cd.take(k as int),
                    cd.skip(k as int),
                );
                crate::segment::lemma_run_compose(
                    d0,
                    chunk_lens(cd.take(k as int)),
                    chunk_lens(cd.skip(k as int)),
                );
                assert(chunk_lens(cd.take(k as int)) + chunk_lens(cd.skip(k as int)) =~= chunk_lens(
                    cd,
                ));
            } else {
                assert(cd.take(n as int) =~= cd);
            }
        }
        if download.remaining == 0 {
            match self.store.remove_by_id(download.id) {
                Ok(_) => {},
                Err(_) => {},
            }
            proof {
                lemma_filter_update_same_id(m0.segments, idx, download@, d0.id);
                assert(self.store@ =~= (StoreModel {
                    segments: segments_without_id(m0.segments, d0.id),
                    ..m0
                }));
            }
            Ok(())
        } else {
            proof {
                assert forall|i: int|
                    0 <= i < m0.segments.len() && m0.segments[i] == d0 implies self.store@ == (
                StoreModel { segments: m0.segments.update(i, download@), ..m0 }) by {
                    if i != idx {
                        assert(m0.segments[i].id == m0.segments[idx].id);
                    }
                }
            }
            Err(
                HttpDownloaderError::TransportError(
                    "body ended before the requested range was complete".to_owned(),
                ),
            )
        }
    }
}

/// Updating a record in place and then dropping its id removes exactly what
/// dropping the id from the original would have removed.
proof fn lemma_filter_update_same_id(s: Seq<SegmentModel>, i: int, x: SegmentModel, id: int)
    requires
        0 <= i < s.len(),
        s[i].id == id,
        x.id == id,
    ensures
        segments_without_id(s.update(i, x), id) == segments_without_id(s, id),
{
    let pred = crate::store::seg_lacks_id(id);
    let s2 = s.update(i, x);
    let a = s.subrange(0, i);
    let c = s.subrange(i + 1, s.len() as int);
    assert(s =~= a + seq![s[i]] + c);
    assert(s2 =~= a + seq![x] + c);
    Seq::filter_distributes_over_add(a + seq![s[i]], c, pred);
    Seq::filter_distributes_over_add(a, seq![s[i]], pred);
    Seq::filter_distributes_over_add(a + seq![x], c, pred);
    Seq::filter_distributes_over_add(a, seq![x], pred);
    assert(!pred(s[i]));
    assert(!pred(x));
    assert(seq![s[i]].filter(pred) =~= Seq::<SegmentModel>::empty()) by {
        reveal(Seq::filter);
        assert(Seq::<SegmentModel>::empty().filter(pred) =~= Seq::<SegmentModel>::empty());
        assert(seq![s[i]].drop_last() =~= Seq::<SegmentModel>::empty());
        assert(seq![s[i]].last() == s[i]);
    }
    assert(seq![x].filter(pred) =~= Seq::<SegmentModel>::empty()) by {
        reveal(Seq::filter);
        assert(Seq::<SegmentModel>::empty().filter(pred) =~= Seq::<SegmentModel>::empty());
        assert(seq![x].last() == x);
        assert(seq![x].drop_last() =~= Seq::<SegmentModel>::empty());
    }
    assert((a + seq![s[i]] + c).filter(pred) =~= (a + seq![x] + c).filter(pred));
}

} // verus!
