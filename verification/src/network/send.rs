//! What the sender puts on the wire.
use crate::transcode::{chunk_views, wire_encoding, Chunk};
use vstd::prelude::*;

verus! {

/// One datagram per chunk, in the order of the chunks, each holding the
/// chunk's wire encoding.
pub fn chunks_to_datagrams(chunks: &Vec<Chunk>) -> (r: Vec<Vec<u8>>)
    ensures
        r@.len() == chunks@.len(),
        forall|i: int| 0 <= i < r@.len() ==> #[trigger] r@[i]@ == wire_encoding(chunk_views(chunks@)[i]),
{
    let mut datagrams: Vec<Vec<u8>> = Vec::new();
    let mut i: usize = 0;
    while i < chunks.len()
        invariant
            i <= chunks@.len(),
            datagrams@.len() == i,
            forall|j: int| 0 <= j < i ==> #[trigger] datagrams@[j]@ == wire_encoding(chunk_views(chunks@)[j]),
        decreases chunks@.len() - i,
    {
        let bytes = chunks[i].to_wire();
        datagrams.push(bytes);
        i = i + 1;
    }
    datagrams
}

} // verus!
