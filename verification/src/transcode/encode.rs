//! Cutting a frame into chunks.
use crate::frame::Frame;
use crate::transcode::{chunk_views, concat_data, wire_encoding, Chunk, ChunkView};
use vstd::prelude::*;
use vstd::slice::{slice_subrange, slice_to_vec};

verus! {

/// The most bytes that one chunk carries.
pub const CHUNK_SIZE: usize = 1500;

/// How many chunks `len` bytes are cut into.
pub open spec fn chunk_count(len: int) -> int {
    (len + CHUNK_SIZE - 1) / CHUNK_SIZE as int
}

/// The bytes of chunk `i`: the `i`-th run of `CHUNK_SIZE` bytes of `raw`,
/// shorter for the last chunk when the length is not a multiple of it.
pub open spec fn chunk_bytes(raw: Seq<u8>, i: int) -> Seq<u8> {
    let start = CHUNK_SIZE * i;
    let end = if CHUNK_SIZE * (i + 1) <= raw.len() { CHUNK_SIZE * (i + 1) } else { raw.len() as int };
    raw.subrange(start, end)
}

/// The chunks that `raw` is cut into, numbered from 0.
pub open spec fn split_into_chunks(raw: Seq<u8>) -> Seq<ChunkView> {
    Seq::new(
        chunk_count(raw.len() as int) as nat,
        |i: int| ChunkView { index: i as usize, data: chunk_bytes(raw, i) },
    )
}

/// A run of `CHUNK_SIZE` bytes starts before the end exactly for the
/// positions below the chunk count.
pub proof fn lemma_chunk_count(i: int, len: int)
    requires
        0 <= i,
        0 <= len,
    ensures
        (CHUNK_SIZE * i < len) == (i < chunk_count(len)),
{
    assert((1500 * i < len) == (i < (len + 1499) / 1500)) by (nonlinear_arith)
        requires
            0 <= i,
            0 <= len,
    ;
}

/// Cuts a frame's raw bytes into chunks of `CHUNK_SIZE` bytes, the last one
/// possibly shorter, numbered in order from 0.
pub fn frame_to_chunks(frame: Frame) -> (r: Vec<Chunk>)
    ensures
        chunk_views(r@) == split_into_chunks(frame@.data),
{
    let raw = frame.into_raw();
    let len = raw.len();
    let ghost spec_raw = raw@;
    let mut chunks: Vec<Chunk> = Vec::new();
    let mut start: usize = 0;
    let mut i: usize = 0;
    proof {
        lemma_chunk_count(0, len as int);
    }
    while start < len
        invariant
            len == raw@.len(),
            raw@ == spec_raw,
            start <= len,
            chunks@.len() == i,
            start < len ==> start == CHUNK_SIZE * i,
            (start < len) == (i < chunk_count(len as int)),
            i <= chunk_count(len as int),
            forall|j: int|
                0 <= j < i ==> #[trigger] chunks@[j]@ == split_into_chunks(spec_raw)[j],
        decreases len - start,
    {
        let end: usize = if len - start > CHUNK_SIZE {
            start + CHUNK_SIZE
        } else {
            len
        };
        let data = slice_to_vec(slice_subrange(raw.as_slice(), start, end));
        let chunk = Chunk::new(i, data);
        proof {
            assert(chunk@.data == chunk_bytes(spec_raw, i as int));
        }
        chunks.push(chunk);
        proof {
            lemma_chunk_count(i + 1, len as int);
            if end < len {
                assert(end == CHUNK_SIZE * (i + 1));
            }
        }
        start = end;
        i = i + 1;
    }
    proof {
        assert(chunk_views(chunks@) =~= split_into_chunks(spec_raw));
    }
    chunks
}

/// The end of the first `k` chunks of `raw`: `CHUNK_SIZE * k`, or the end
/// of `raw` when that lies before.
pub open spec fn prefix_end(len: int, k: int) -> int {
    if CHUNK_SIZE * k <= len { CHUNK_SIZE * k } else { len }
}

proof fn lemma_concat_prefix(raw: Seq<u8>, k: int)
    requires
        0 <= k <= chunk_count(raw.len() as int),
    ensures
        concat_data(split_into_chunks(raw).take(k)) =~= raw.subrange(0, prefix_end(raw.len() as int, k)),
    decreases k,
{
    let chunks = split_into_chunks(raw);
    if k == 0 {
        assert(chunks.take(0) =~= Seq::<ChunkView>::empty());
    } else {
        lemma_concat_prefix(raw, k - 1);
        lemma_chunk_count(k - 1, raw.len() as int);
        assert(chunks.take(k).drop_last() =~= chunks.take(k - 1));
        assert(chunks.take(k).last() == chunks[k - 1]);
    }
}

/// Gluing together the chunks that `raw` is cut into gives back `raw`.
pub proof fn lemma_chunks_reassemble(raw: Seq<u8>)
    ensures
        concat_data(split_into_chunks(raw)) == raw,
{
    let n = chunk_count(raw.len() as int);
    lemma_chunk_count(n, raw.len() as int);
    lemma_concat_prefix(raw, n);
    assert(split_into_chunks(raw).take(n) =~= split_into_chunks(raw));
    assert(raw.subrange(0, raw.len() as int) =~= raw);
}

/// Each chunk of `raw` carries at most `CHUNK_SIZE` bytes, so its encoding
/// takes at most `CHUNK_SIZE + 16` bytes.
pub proof fn lemma_chunk_sizes(raw: Seq<u8>, i: int)
    requires
        raw.len() <= usize::MAX,
        0 <= i < chunk_count(raw.len() as int),
    ensures
        split_into_chunks(raw)[i].index == i,
        split_into_chunks(raw)[i].data.len() <= CHUNK_SIZE,
        split_into_chunks(raw)[i].data.len() > 0,
        wire_encoding(split_into_chunks(raw)[i]).len() <= CHUNK_SIZE + 16,
{
    lemma_chunk_count(i, raw.len() as int);
    vstd::bytes::lemma_auto_spec_u64_to_from_le_bytes();
}

} // verus!
