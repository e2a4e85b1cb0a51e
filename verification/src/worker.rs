//! The segment worker's effect, modelled over the file sink: what a run of
//! body chunks does to the destination file and to the segment record, and the
//! resumption law that makes crash recovery sound.

use vstd::prelude::*;

use crate::segment::{advance_model, chunk_written, chunks_ok, run_model, SegmentModel};
use crate::segment::lemma_run_bounds;
use crate::sink::write_at;

verus! {

/// The lengths of a list of body chunks.
pub open spec fn chunk_lens(chunks: Seq<Seq<u8>>) -> Seq<int> {
    chunks.map_values(|c: Seq<u8>| c.len() as int)
}

/// The file after a worker consumed the given body chunks for segment `s`:
/// each chunk lands at the segment's current offset, clamped to the bytes the
/// segment is still owed, and the segment advances in step.
pub open spec fn run_file_bytes(file: Seq<u8>, s: SegmentModel, chunks: Seq<Seq<u8>>) -> Seq<u8>
    decreases chunks.len(),
{
    if chunks.len() == 0 {
        file
    } else {
        let w = chunk_written(s, chunks[0].len() as int);
        run_file_bytes(
            write_at(file, s.offset, chunks[0].take(w)),
            advance_model(s, w),
            chunks.skip(1),
        )
    }
}

/// A stable server's body for segment `s`: chunk by chunk, the bytes handed
/// over are exactly the next bytes of `content` at the segment's position.
pub open spec fn chunks_from_content(
    content: Seq<u8>,
    s: SegmentModel,
    chunks: Seq<Seq<u8>>,
) -> bool
    decreases chunks.len(),
{
    chunks.len() == 0 || {
        let w = chunk_written(s, chunks[0].len() as int);
        &&& chunks[0].take(w) == content.subrange(s.offset, s.offset + w)
        &&& chunks_from_content(content, advance_model(s, w), chunks.skip(1))
    }
}

/// One chunk does one clamped write at the segment's offset and advances the
/// segment by the same amount.
pub proof fn lemma_run_single(file: Seq<u8>, s: SegmentModel, c: Seq<u8>)
    ensures
        run_model(s, seq![c.len() as int]) == advance_model(s, chunk_written(s, c.len() as int)),
        run_file_bytes(file, s, seq![c]) == write_at(
            file,
            s.offset,
            c.take(chunk_written(s, c.len() as int)),
        ),
{
    assert(seq![c.len() as int].skip(1) =~= Seq::<int>::empty());
    assert(seq![c].skip(1) =~= Seq::<Seq<u8>>::empty());
    assert(seq![c][0] == c);
    assert(seq![c].len() == 1);
    let w = chunk_written(s, c.len() as int);
    assert(run_model(advance_model(s, w), Seq::<int>::empty()) == advance_model(s, w));
    assert(run_file_bytes(
        write_at(file, s.offset, c.take(w)),
        advance_model(s, w),
        Seq::<Seq<u8>>::empty(),
    ) == write_at(file, s.offset, c.take(w)));
}

/// Running chunks never changes the file's length.
pub proof fn lemma_run_file_len(file: Seq<u8>, s: SegmentModel, chunks: Seq<Seq<u8>>)
    ensures
        run_file_bytes(file, s, chunks).len() == file.len(),
    decreases chunks.len(),
{
    if chunks.len() > 0 {
        let w = chunk_written(s, chunks[0].len() as int);
        lemma_run_file_len(write_at(file, s.offset, chunks[0].take(w)), advance_model(s, w), chunks.skip(1));
    }
}

/// Consuming chunk lists one after the other is the same as consuming their
/// concatenation, for the file and the segment alike.
pub proof fn lemma_run_file_compose(
    file: Seq<u8>,
    s: SegmentModel,
    a: Seq<Seq<u8>>,
    b: Seq<Seq<u8>>,
)
    ensures
        run_file_bytes(file, s, a + b) == run_file_bytes(
            run_file_bytes(file, s, a),
            run_model(s, chunk_lens(a)),
            b,
        ),
    decreases a.len(),
{
    if a.len() == 0 {
        assert(a + b =~= b);
        assert(chunk_lens(a) =~= Seq::<int>::empty());
    } else {
        let w = chunk_written(s, a[0].len() as int);
        let file1 = write_at(file, s.offset, a[0].take(w));
        let s1 = advance_model(s, w);
        assert((a + b).skip(1) =~= a.skip(1) + b);
        assert(chunk_lens(a)[0] == a[0].len() as int);
        assert(chunk_lens(a).skip(1) =~= chunk_lens(a.skip(1)));
        lemma_run_file_compose(file1, s1, a.skip(1), b);
    }
}

/// A segment that owes nothing any more is left alone by any further chunks.
pub proof fn lemma_run_stalled(file: Seq<u8>, s: SegmentModel, chunks: Seq<Seq<u8>>)
    requires
        s.remaining == 0,
    ensures
        run_file_bytes(file, s, chunks) == file,
        run_model(s, chunk_lens(chunks)) == s,
    decreases chunks.len(),
{
    if chunks.len() > 0 {
        let w = chunk_written(s, chunks[0].len() as int);
        assert(w == 0);
        assert(chunks[0].take(0) =~= Seq::<u8>::empty());
        assert(write_at(file, s.offset, chunks[0].take(0)) =~= file);
        assert(advance_model(s, 0) =~= s);
        assert(chunk_lens(chunks).skip(1) =~= chunk_lens(chunks.skip(1)));
        lemma_run_stalled(file, s, chunks.skip(1));
    }
}

/// What a worker run writes is exactly the prefix of the server's content
/// between the segment's starting offset and where the run left off; every
/// other byte of the file is untouched.
pub proof fn lemma_run_writes_prefix(
    file: Seq<u8>,
    s: SegmentModel,
    content: Seq<u8>,
    chunks: Seq<Seq<u8>>,
)
    requires
        0 <= s.offset,
        0 <= s.remaining,
        s.offset + s.remaining <= file.len(),
        content.len() == file.len(),
        chunks_from_content(content, s, chunks),
    ensures
        run_file_bytes(file, s, chunks) == write_at(
            file,
            s.offset,
            content.subrange(s.offset, run_model(s, chunk_lens(chunks)).offset),
        ),
    decreases chunks.len(),
{
    let lens = chunk_lens(chunks);
    assert(chunks_ok(lens));
    lemma_run_bounds(s, lens);
    let end = run_model(s, lens).offset;
    if chunks.len() == 0 {
        assert(content.subrange(s.offset, s.offset) =~= Seq::<u8>::empty());
        assert(write_at(file, s.offset, content.subrange(s.offset, s.offset)) =~= file);
    } else {
        let w = chunk_written(s, chunks[0].len() as int);
        let file1 = write_at(file, s.offset, chunks[0].take(w));
        let s1 = advance_model(s, w);
        assert(chunk_lens(chunks).skip(1) =~= chunk_lens(chunks.skip(1)));
        assert(run_model(s1, chunk_lens(chunks.skip(1))).offset == end);
        lemma_run_writes_prefix(file1, s1, content, chunks.skip(1));
        assert(chunks_ok(chunk_lens(chunks.skip(1))));
        lemma_run_bounds(s1, chunk_lens(chunks.skip(1)));
        assert(run_file_bytes(file, s, chunks) == write_at(
            file1,
            s1.offset,
            content.subrange(s1.offset, end),
        ));
        assert(write_at(
            write_at(file, s.offset, content.subrange(s.offset, s.offset + w)),
            s.offset + w,
            content.subrange(s.offset + w, end),
        ) =~= write_at(file, s.offset, content.subrange(s.offset, end)));
    }
}

/// The file after a list of segments each consumed its own body, one segment
/// after the other.
pub open spec fn run_segments(
    file: Seq<u8>,
    segs: Seq<SegmentModel>,
    bodies: Seq<Seq<Seq<u8>>>,
) -> Seq<u8>
    decreases segs.len(),
{
    if segs.len() == 0 {
        file
    } else {
        run_segments(run_file_bytes(file, segs[0], bodies[0]), segs.skip(1), bodies.skip(1))
    }
}

/// Whether byte `x` lies in some segment's range.
pub open spec fn seg_covers(segs: Seq<SegmentModel>, x: int) -> bool {
    exists|i: int|
        0 <= i < segs.len() && (#[trigger] segs[i]).offset <= x < segs[i].offset + segs[i].remaining
}

/// A transfer writes exactly what it owes: after every segment ran its
/// stable-server body to completion, each byte inside some segment's range
/// holds the server's content, and every other byte of the file is untouched.
pub proof fn lemma_transfer_writes_content(
    file: Seq<u8>,
    content: Seq<u8>,
    segs: Seq<SegmentModel>,
    bodies: Seq<Seq<Seq<u8>>>,
)
    requires
        content.len() == file.len(),
        segs.len() == bodies.len(),
        forall|i: int|
            0 <= i < segs.len() ==> 0 <= (#[trigger] segs[i]).offset && 0 <= segs[i].remaining
                && segs[i].offset + segs[i].remaining <= file.len(),
        forall|i: int|
            0 <= i < segs.len() ==> chunks_from_content(content, #[trigger] segs[i], bodies[i]),
        forall|i: int|
            0 <= i < segs.len() ==> run_model(
                #[trigger] segs[i],
                chunk_lens(bodies[i]),
            ).remaining == 0,
    ensures
        run_segments(file, segs, bodies).len() == file.len(),
        forall|x: int|
            0 <= x < file.len() ==> run_segments(file, segs, bodies)[x] == (if seg_covers(segs, x) {
                content[x]
            } else {
                file[x]
            }),
    decreases segs.len(),
{
    if segs.len() > 0 {
        let s0 = segs[0];
        let f1 = run_file_bytes(file, s0, bodies[0]);
        assert(chunks_ok(chunk_lens(bodies[0])));
        lemma_run_bounds(s0, chunk_lens(bodies[0]));
        lemma_run_writes_prefix(file, s0, content, bodies[0]);
        lemma_run_file_len(file, s0, bodies[0]);
        assert(run_model(s0, chunk_lens(bodies[0])).offset == s0.offset + s0.remaining);
        assert(forall|i: int|
            0 <= i < segs.skip(1).len() ==> segs.skip(1)[i] == #[trigger] segs[i + 1]);
        assert(forall|i: int|
            0 <= i < bodies.skip(1).len() ==> bodies.skip(1)[i] == #[trigger] bodies[i + 1]);
        lemma_transfer_writes_content(f1, content, segs.skip(1), bodies.skip(1));
        assert forall|x: int| 0 <= x < file.len() implies run_segments(file, segs, bodies)[x] == (
        if seg_covers(segs, x) {
            content[x]
        } else {
            file[x]
        }) by {
            let out = run_segments(file, segs, bodies);
            assert(out == run_segments(f1, segs.skip(1), bodies.skip(1)));
            if seg_covers(segs.skip(1), x) {
                let i = choose|i: int|
                    0 <= i < segs.skip(1).len() && (#[trigger] segs.skip(1)[i]).offset <= x
                        < segs.skip(1)[i].offset + segs.skip(1)[i].remaining;
                assert(segs[i + 1] == segs.skip(1)[i]);
                assert(seg_covers(segs, x));
            } else {
                assert(out[x] == f1[x]);
                if s0.offset <= x < s0.offset + s0.remaining {
                    assert(f1[x] == content[x]);
                    assert(seg_covers(segs, x));
                } else {
                    assert(f1[x] == file[x]);
                    if seg_covers(segs, x) {
                        let i = choose|i: int|
                            0 <= i < segs.len() && (#[trigger] segs[i]).offset <= x < segs[i].offset
                                + segs[i].remaining;
                        assert(i != 0);
                        assert(segs.skip(1)[i - 1] == segs[i]);
                        assert(seg_covers(segs.skip(1), x));
                    }
                }
            }
        }
    }
}

/// Resumption law: interrupt a worker after any stable-server chunk list,
/// restart it from the persisted segment record, and let the second run finish
/// the range; the file ends byte-identical to a run that was never
/// interrupted.
pub proof fn lemma_resumption(
    file: Seq<u8>,
    s: SegmentModel,
    content: Seq<u8>,
    first: Seq<Seq<u8>>,
    rest: Seq<Seq<u8>>,
    full: Seq<Seq<u8>>,
)
    requires
        0 <= s.offset,
        0 <= s.remaining,
        s.offset + s.remaining <= file.len(),
        content.len() == file.len(),
        chunks_from_content(content, s, first),
        chunks_from_content(content, run_model(s, chunk_lens(first)), rest),
        chunks_from_content(content, s, full),
        run_model(run_model(s, chunk_lens(first)), chunk_lens(rest)).remaining == 0,
        run_model(s, chunk_lens(full)).remaining == 0,
    ensures
        run_file_bytes(run_file_bytes(file, s, first), run_model(s, chunk_lens(first)), rest)
            == run_file_bytes(file, s, full),
{
    let lens1 = chunk_lens(first);
    assert(chunks_ok(lens1));
    lemma_run_bounds(s, lens1);
    let s1 = run_model(s, lens1);
    let file1 = run_file_bytes(file, s, first);
    lemma_run_writes_prefix(file, s, content, first);
    lemma_run_file_len(file, s, first);
    assert(chunks_ok(chunk_lens(rest)));
    lemma_run_bounds(s1, chunk_lens(rest));
    lemma_run_writes_prefix(file1, s1, content, rest);
    lemma_run_writes_prefix(file, s, content, full);
    assert(chunks_ok(chunk_lens(full)));
    lemma_run_bounds(s, chunk_lens(full));
    let end = s.offset + s.remaining;
    assert(run_model(s1, chunk_lens(rest)).offset == end);
    assert(run_model(s, chunk_lens(full)).offset == end);
    assert(write_at(
        write_at(file, s.offset, content.subrange(s.offset, s1.offset)),
        s1.offset,
        content.subrange(s1.offset, end),
    ) =~= write_at(file, s.offset, content.subrange(s.offset, end)));
}

} // verus!
