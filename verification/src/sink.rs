//! The file sink model: the destination file as a byte sequence, written at
//! exact offsets. The critical pairing of seek target and write payload is one
//! operation here, `write_range`, whose effect is the spec-level `write_at`.

use vstd::prelude::*;

verus! {

/// The file after `data` was written at position `pos`: bytes inside
/// `[pos, pos + data.len())` come from `data`, all others are untouched.
/// The file's length never changes; writes must land inside it.
pub open spec fn write_at(file: Seq<u8>, pos: int, data: Seq<u8>) -> Seq<u8>
    recommends
        0 <= pos,
        pos + data.len() <= file.len(),
{
    Seq::new(
        file.len(),
        |i: int|
            if pos <= i < pos + data.len() {
                data[i - pos]
            } else {
                file[i]
            },
    )
}

/// Write the first `count` bytes of `data` into the sink at position `pos`:
/// seek and write as one step, so the offset→data pairing cannot be split.
pub fn write_range(sink: &mut Vec<u8>, pos: usize, data: &Vec<u8>, count: usize)
    requires
        count <= data@.len(),
        pos + count <= old(sink)@.len(),
    ensures
        final(sink)@ == write_at(old(sink)@, pos as int, data@.take(count as int)),
{
    let n = sink.len();
    let mut i: usize = 0;
    while i < count
        invariant
            i <= count,
            count <= data@.len(),
            pos + count <= n,
            n == sink@.len(),
            sink@.len() == old(sink)@.len(),
            sink@ == write_at(old(sink)@, pos as int, data@.take(i as int)),
        decreases count - i,
    {
        sink.set(pos + i, data[i]);
        i = i + 1;
        proof {
            assert(sink@ =~= write_at(old(sink)@, pos as int, data@.take(i as int)));
        }
    }
    proof {
        assert(sink@ =~= write_at(old(sink)@, pos as int, data@.take(count as int)));
    }
}

} // verus!
