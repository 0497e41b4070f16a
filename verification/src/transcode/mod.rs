//! The unit of transport: a numbered slice of a frame's bytes, and the
//! bytes that carry one chunk over the network.
use vstd::bytes::{lemma_auto_spec_u64_to_from_le_bytes, spec_u64_from_le_bytes, spec_u64_to_le_bytes};
use vstd::prelude::*;

pub mod decode;
pub mod encode;

verus! {

/// What a chunk holds: its position among the chunks of its frame, and
/// its share of the frame's bytes.
#[verifier::ext_equal]
pub struct ChunkView {
    pub index: usize,
    pub data: Seq<u8>,
}

/// A numbered slice of a frame's raw bytes.
#[derive(Clone, Debug, PartialEq, Eq)]
pub struct Chunk {
    index: usize,
    data: Vec<u8>,
}

impl View for Chunk {
    type V = ChunkView;

    closed spec fn view(&self) -> ChunkView {
        ChunkView { index: self.index, data: self.data@ }
    }
}

/// The views of a sequence of chunks.
pub open spec fn chunk_views(chunks: Seq<Chunk>) -> Seq<ChunkView> {
    chunks.map_values(|c: Chunk| c@)
}

/// The bytes that carry a chunk: its index as a little-endian `u64`, the
/// length of its data as a little-endian `u64`, then the data itself.
pub open spec fn wire_encoding(c: ChunkView) -> Seq<u8>
    recommends
        c.data.len() <= usize::MAX,
{
    spec_u64_to_le_bytes(c.index as u64) + spec_u64_to_le_bytes(c.data.len() as u64) + c.data
}

/// The chunk that a buffer starts with, if any. Bytes after the encoded
/// chunk are ignored; an index or length that does not fit in `usize`, or
/// data that runs past the end of the buffer, gives `None`.
pub open spec fn wire_decoding(b: Seq<u8>) -> Option<ChunkView> {
    if b.len() < 16 {
        None
    } else {
        let index = spec_u64_from_le_bytes(b.subrange(0, 8));
        let len = spec_u64_from_le_bytes(b.subrange(8, 16));
        if index > usize::MAX || len > usize::MAX || b.len() - 16 < len {
            None
        } else {
            Some(ChunkView { index: index as usize, data: b.subrange(16, 16 + len) })
        }
    }
}

/// The bytes of a sequence of chunks, one chunk after the other.
pub open spec fn concat_data(chunks: Seq<ChunkView>) -> Seq<u8>
    decreases chunks.len(),
{
    if chunks.len() == 0 {
        Seq::empty()
    } else {
        concat_data(chunks.drop_last()) + chunks.last().data
    }
}

/// Calls `bincode::serialize` on the pair (index, data) with no size limit.
/// Claimed: the result is `Ok`, holding the index as a little-endian `u64`,
/// the length of the data as a little-endian `u64`, then the data bytes.
/// bincode 0.9's `serialize` writes integers little-endian, writes a `usize`
/// as a `u64`, writes a tuple as its fields in order and a sequence as its
/// length followed by its elements; writing into a `Vec` cannot fail and no
/// limit is set, so no error can arise.
#[verifier::external_body]
fn bincode_serialize_pair(index: usize, data: &Vec<u8>) -> (r: Option<Vec<u8>>)
    ensures
        r is Some,
        r matches Some(b) ==> b@ == wire_encoding((ChunkView { index, data: data@ })),
{
    bincode::serialize(&(index, data), bincode::Infinite).ok()
}

/// Calls `bincode::deserialize` for the pair (index, data) on `bytes`.
/// Claimed: the result is `Ok` exactly when `wire_decoding` gives a chunk,
/// and then holds that chunk's index and data. bincode 0.9 reads the index
/// and the length as little-endian `u64`s, refuses a value that does not fit
/// in `usize`, refuses input that ends before the data does, and leaves any
/// bytes after the data unread.
#[verifier::external_body]
fn bincode_deserialize_pair(bytes: &[u8]) -> (r: Option<(usize, Vec<u8>)>)
    ensures
        r is Some <==> wire_decoding(bytes@) is Some,
        r matches Some(p) ==> wire_decoding(bytes@) == Some((ChunkView { index: p.0, data: p.1@ })),
{
    bincode::deserialize::<(usize, Vec<u8>)>(bytes).ok()
}

impl Chunk {
    /// A chunk with the given position and bytes.
    pub fn new(index: usize, data: Vec<u8>) -> (c: Chunk)
        ensures
            c@ == (ChunkView { index, data: data@ }),
    {
        Chunk { index, data }
    }

    /// The chunk's position among the chunks of its frame.
    pub fn index(&self) -> (r: usize)
        ensures
            r == self@.index,
    {
        self.index
    }

    /// The chunk's bytes, borrowed.
    pub fn data(&self) -> (r: &Vec<u8>)
        ensures
            r@ == self@.data,
    {
        &self.data
    }

    /// The chunk's bytes, taken out of it.
    pub fn into_data(self) -> (r: Vec<u8>)
        ensures
            r@ == self@.data,
    {
        self.data
    }

    /// The bytes that carry this chunk over the network.
    pub fn to_wire(&self) -> (r: Vec<u8>)
        ensures
            r@ == wire_encoding(self@),
    {
        match bincode_serialize_pair(self.index, &self.data) {
            Some(b) => b,
            None => Vec::new(),
        }
    }

    /// The chunk that `bytes` starts with, or `None` when they do not start
    /// with an encoded chunk.
    pub fn from_wire(bytes: &[u8]) -> (r: Option<Chunk>)
        ensures
            match wire_decoding(bytes@) {
                Some(c) => r matches Some(k) && k@ == c,
                None => r is None,
            },
    {
        match bincode_deserialize_pair(bytes) {
            Some((index, data)) => Some(Chunk { index, data }),
            None => None,
        }
    }
}

/// Decoding the bytes of an encoded chunk, followed by anything at all,
/// gives back that chunk.
pub proof fn lemma_wire_roundtrip(c: ChunkView, rest: Seq<u8>)
    requires
        c.data.len() <= usize::MAX,
    ensures
        wire_decoding(wire_encoding(c) + rest) == Some(c),
{
    lemma_auto_spec_u64_to_from_le_bytes();
    let a = spec_u64_to_le_bytes(c.index as u64);
    let l = spec_u64_to_le_bytes(c.data.len() as u64);
    let b = wire_encoding(c) + rest;
    assert(b.subrange(0, 8) =~= a);
    assert(b.subrange(8, 16) =~= l);
    assert(b.subrange(16, 16 + c.data.len() as int) =~= c.data);
}

} // verus!
