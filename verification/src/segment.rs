//! The segment data model: one contiguous byte range of one transfer, the
//! unit of work a single worker owns, and the record the store persists.

use vstd::prelude::*;

verus! {

/// Mathematical view of a segment record.
#[verifier::ext_equal]
pub struct SegmentModel {
    pub id: int,
    pub url: Seq<char>,
    pub offset: int,
    pub remaining: int,
    pub file_path: Seq<char>,
}

/// One byte range of one download. `offset` is the next byte to write,
/// measured from file start; `remaining` is how many bytes are still owed for
/// this range. The record is complete exactly when `remaining` reaches zero.
#[derive(Debug, PartialEq, Eq)]
pub struct SubDownload {
    /// Identifier assigned by the store on insert; stable for the record's lifetime.
    pub id: i32,
    /// Absolute URL of the transfer; immutable.
    pub url: String,
    /// Next byte to write, from file start; monotonically non-decreasing.
    pub offset: usize,
    /// Bytes still to fetch for this segment; monotonically non-increasing.
    pub remaining: usize,
    /// Absolute local destination path; immutable.
    pub file_path: String,
}

impl View for SubDownload {
    type V = SegmentModel;

    open spec fn view(&self) -> SegmentModel {
        SegmentModel {
            id: self.id as int,
            url: self.url@,
            offset: self.offset as int,
            remaining: self.remaining as int,
            file_path: self.file_path@,
        }
    }
}

impl DeepView for SubDownload {
    type V = SegmentModel;

    open spec fn deep_view(&self) -> SegmentModel {
        self@
    }
}

impl Clone for SubDownload {
    fn clone(&self) -> (res: Self)
        ensures
            res@ == self@,
    {
        SubDownload {
            id: self.id,
            url: self.url.clone(),
            offset: self.offset,
            remaining: self.remaining,
            file_path: self.file_path.clone(),
        }
    }
}

/// A segment's byte range `[offset, offset + remaining)` lies within what a
/// file of the host can address.
pub open spec fn seg_in_bounds(s: SegmentModel) -> bool {
    s.offset + s.remaining <= usize::MAX
}

/// How many bytes of a body chunk of length `len` the worker writes: the whole
/// chunk, clamped to what the segment is still owed (a longer chunk is a
/// server protocol violation and is truncated).
pub open spec fn chunk_written(s: SegmentModel, len: int) -> int {
    if len <= s.remaining {
        len
    } else {
        s.remaining
    }
}

/// The segment after `k` more bytes of its range were written.
pub open spec fn advance_model(s: SegmentModel, k: int) -> SegmentModel {
    SegmentModel { offset: s.offset + k, remaining: s.remaining - k, ..s }
}

/// The segment after a worker consumed body chunks of the given lengths,
/// clamping each chunk to the bytes still owed.
pub open spec fn run_model(s: SegmentModel, chunks: Seq<int>) -> SegmentModel
    decreases chunks.len(),
{
    if chunks.len() == 0 {
        s
    } else {
        run_model(advance_model(s, chunk_written(s, chunks[0])), chunks.skip(1))
    }
}

/// All chunk lengths are non-negative (they are lengths of byte buffers).
pub open spec fn chunks_ok(chunks: Seq<int>) -> bool {
    forall|k: int| 0 <= k < chunks.len() ==> 0 <= #[trigger] chunks[k]
}

/// Advance a segment in place after `written` bytes of its range reached the
/// sink: the offset moves forward by exactly what was written and the bytes
/// owed shrink by the same amount, so `offset + remaining` is unchanged.
pub fn advance(seg: &mut SubDownload, written: usize)
    requires
        written <= old(seg)@.remaining,
        seg_in_bounds(old(seg)@),
    ensures
        final(seg)@ == advance_model(old(seg)@, written as int),
{
    seg.offset = seg.offset + written;
    seg.remaining = seg.remaining - written;
}

/// Running a worker never moves the offset backwards, never owes new bytes,
/// and keeps the segment's end `offset + remaining` exactly where it was.
pub proof fn lemma_run_bounds(s: SegmentModel, chunks: Seq<int>)
    requires
        0 <= s.remaining,
        chunks_ok(chunks),
    ensures
        s.offset <= run_model(s, chunks).offset,
        0 <= run_model(s, chunks).remaining <= s.remaining,
        run_model(s, chunks).offset + run_model(s, chunks).remaining == s.offset + s.remaining,
        run_model(s, chunks).id == s.id,
        run_model(s, chunks).url == s.url,
        run_model(s, chunks).file_path == s.file_path,
    decreases chunks.len(),
{
    if chunks.len() > 0 {
        let s1 = advance_model(s, chunk_written(s, chunks[0]));
        assert(chunks_ok(chunks.skip(1))) by {
            assert(forall|k: int|
                0 <= k < chunks.skip(1).len() ==> chunks.skip(1)[k] == #[trigger] chunks[k + 1]);
        }
        lemma_run_bounds(s1, chunks.skip(1));
    }
}

/// Consuming chunk lists one after the other is the same as consuming their
/// concatenation.
pub proof fn lemma_run_compose(s: SegmentModel, a: Seq<int>, b: Seq<int>)
    ensures
        run_model(s, a + b) == run_model(run_model(s, a), b),
    decreases a.len(),
{
    if a.len() == 0 {
        assert(a + b =~= b);
    } else {
        let s1 = advance_model(s, chunk_written(s, a[0]));
        assert((a + b).skip(1) =~= a.skip(1) + b);
        lemma_run_compose(s1, a.skip(1), b);
    }
}

/// Progress monotonicity: over any worker run, the sequence of persisted
/// offsets is non-decreasing, and `offset + remaining` is invariant at every
/// step.
pub proof fn lemma_progress_monotonic(s: SegmentModel, chunks: Seq<int>, i: int, j: int)
    requires
        0 <= s.remaining,
        chunks_ok(chunks),
        0 <= i <= j <= chunks.len(),
    ensures
        run_model(s, chunks.take(i)).offset <= run_model(s, chunks.take(j)).offset,
        run_model(s, chunks.take(i)).offset + run_model(s, chunks.take(i)).remaining == s.offset
            + s.remaining,
{
    let si = run_model(s, chunks.take(i));
    assert(chunks_ok(chunks.take(i)));
    assert(chunks_ok(chunks.take(j)));
    lemma_run_bounds(s, chunks.take(i));
    assert(chunks.take(j) =~= chunks.take(i) + chunks.subrange(i, j));
    lemma_run_compose(s, chunks.take(i), chunks.subrange(i, j));
    assert(chunks_ok(chunks.subrange(i, j)));
    lemma_run_bounds(si, chunks.subrange(i, j));
}

} // verus!
