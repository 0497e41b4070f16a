//! Gluing chunks back into a frame.
use crate::frame::{required_len, Frame, FrameView};
use crate::transcode::encode::{lemma_chunks_reassemble, split_into_chunks};
use crate::transcode::{chunk_views, concat_data, Chunk};
use vstd::prelude::*;

verus! {

/// The width of the frames that travel between peers.
pub const FRAME_WIDTH: u32 = 640;

/// The height of the frames that travel between peers.
pub const FRAME_HEIGHT: u32 = 480;

/// The chunks' bytes glued together in the order the chunks come; their
/// indices are not looked at.
pub fn concat_chunks(chunks: Vec<Chunk>) -> (r: Vec<u8>)
    ensures
        r@ == concat_data(chunk_views(chunks@)),
{
    let ghost all = chunks@;
    let mut t_buf: Vec<u8> = Vec::new();
    for chunk in it: chunks
        invariant
            it.seq() == all,
            t_buf@ == concat_data(chunk_views(all.take(it.index() as int))),
    {
        proof {
            let k = it.index() as int;
            assert(all.take(k + 1).drop_last() =~= all.take(k));
            assert(chunk_views(all.take(k + 1)).drop_last() =~= chunk_views(all.take(k)));
        }
        let mut data = chunk.into_data();
        t_buf.append(&mut data);
    }
    proof {
        assert(all.take(all.len() as int) =~= all);
    }
    t_buf
}

/// Glues the chunks' bytes together in the order the chunks come, and reads
/// them as a `FRAME_WIDTH` by `FRAME_HEIGHT` frame. The chunks must carry at
/// least the bytes that such a frame needs; their indices are not looked at.
pub fn chunks_to_frame(chunks: Vec<Chunk>) -> (r: Frame)
    requires
        required_len(FRAME_WIDTH, FRAME_HEIGHT) <= concat_data(chunk_views(chunks@)).len(),
    ensures
        r@ == (FrameView {
            width: FRAME_WIDTH,
            height: FRAME_HEIGHT,
            data: concat_data(chunk_views(chunks@)),
        }),
{
    let t_buf = concat_chunks(chunks);
    Frame::from_raw(FRAME_WIDTH, FRAME_HEIGHT, t_buf).unwrap()
}

/// Gluing back the chunks that a `FRAME_WIDTH` by `FRAME_HEIGHT` frame is
/// cut into carries enough bytes for a frame, and gives back that frame.
pub proof fn lemma_frame_chunks_roundtrip(f: FrameView)
    requires
        f.width == FRAME_WIDTH,
        f.height == FRAME_HEIGHT,
        required_len(FRAME_WIDTH, FRAME_HEIGHT) <= f.data.len(),
    ensures
        required_len(FRAME_WIDTH, FRAME_HEIGHT) <= concat_data(split_into_chunks(f.data)).len(),
        (FrameView {
            width: FRAME_WIDTH,
            height: FRAME_HEIGHT,
            data: concat_data(split_into_chunks(f.data)),
        }) == f,
{
    lemma_chunks_reassemble(f.data);
}

} // verus!
