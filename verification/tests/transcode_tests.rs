use opv::frame::Frame;
use opv::transcode::decode::{chunks_to_frame, concat_chunks, FRAME_HEIGHT, FRAME_WIDTH};
use opv::transcode::encode::{frame_to_chunks, CHUNK_SIZE};
use opv::transcode::Chunk;

fn pattern(len: usize) -> Vec<u8> {
    (0..len).map(|i| (i % 251) as u8).collect()
}

#[test]
fn chunk_accessors() {
    let c = Chunk::new(5, vec![1, 2, 3]);
    assert_eq!(c.index(), 5);
    assert_eq!(c.data(), &vec![1, 2, 3]);
    assert_eq!(c.into_data(), vec![1, 2, 3]);
}

#[test]
fn chunk_wire_bytes() {
    let c = Chunk::new(3, vec![7, 8]);
    assert_eq!(
        c.to_wire(),
        vec![3, 0, 0, 0, 0, 0, 0, 0, 2, 0, 0, 0, 0, 0, 0, 0, 7, 8]
    );
}

#[test]
fn chunk_wire_bytes_large_index() {
    let c = Chunk::new(0x0102, Vec::new());
    assert_eq!(
        c.to_wire(),
        vec![2, 1, 0, 0, 0, 0, 0, 0, 0, 0, 0, 0, 0, 0, 0, 0]
    );
}

#[test]
fn chunk_wire_roundtrip_with_padding() {
    let c = Chunk::new(819, pattern(1200));
    let mut buf = c.to_wire();
    buf.resize(1516, 0);
    assert_eq!(Chunk::from_wire(&buf), Some(c));
}

#[test]
fn chunk_from_wire_refuses_short_header() {
    assert_eq!(Chunk::from_wire(&[0u8; 15]), None);
    assert_eq!(Chunk::from_wire(&[]), None);
}

#[test]
fn chunk_from_wire_refuses_truncated_data() {
    let bytes = vec![1, 0, 0, 0, 0, 0, 0, 0, 3, 0, 0, 0, 0, 0, 0, 0, 7, 8];
    assert_eq!(Chunk::from_wire(&bytes), None);
}

#[test]
fn chunk_from_wire_reads_prefix() {
    let bytes = vec![1, 0, 0, 0, 0, 0, 0, 0, 1, 0, 0, 0, 0, 0, 0, 0, 7, 8, 9];
    assert_eq!(Chunk::from_wire(&bytes), Some(Chunk::new(1, vec![7])));
}

#[test]
fn full_frame_makes_820_chunks() {
    let raw = pattern(1228800);
    let f = Frame::from_raw(FRAME_WIDTH, FRAME_HEIGHT, raw.clone()).unwrap();
    let chunks = frame_to_chunks(f);
    assert_eq!(chunks.len(), 820);
    for (i, c) in chunks.iter().enumerate() {
        assert_eq!(c.index(), i);
        let start = i * CHUNK_SIZE;
        let end = std::cmp::min(start + CHUNK_SIZE, raw.len());
        assert_eq!(c.data(), &raw[start..end].to_vec());
    }
    assert_eq!(chunks[819].data().len(), 300);
}

#[test]
fn small_frame_makes_one_chunk() {
    let f = Frame::from_raw(2, 2, pattern(16)).unwrap();
    let chunks = frame_to_chunks(f);
    assert_eq!(chunks, vec![Chunk::new(0, pattern(16))]);
}

#[test]
fn empty_frame_makes_no_chunks() {
    let f = Frame::from_raw(0, 0, Vec::new()).unwrap();
    assert!(frame_to_chunks(f).is_empty());
}

#[test]
fn exact_multiple_makes_full_chunks() {
    let f = Frame::from_raw(750, 1, pattern(3000)).unwrap();
    let chunks = frame_to_chunks(f);
    assert_eq!(chunks.len(), 2);
    assert_eq!(chunks[1].data().len(), 1500);
}

#[test]
fn chunks_reassemble_into_frame() {
    let raw = pattern(1228800);
    let f = Frame::from_raw(FRAME_WIDTH, FRAME_HEIGHT, raw.clone()).unwrap();
    let back = chunks_to_frame(frame_to_chunks(f));
    assert_eq!(back.width(), 640);
    assert_eq!(back.height(), 480);
    assert_eq!(back.into_raw(), raw);
}

#[test]
fn chunks_glue_in_arrival_order() {
    let chunks = vec![Chunk::new(1, vec![3, 4]), Chunk::new(0, vec![1, 2])];
    assert_eq!(concat_chunks(chunks), vec![3, 4, 1, 2]);
}

#[test]
fn frame_keeps_extra_bytes() {
    let mut chunks = vec![Chunk::new(0, pattern(1228800))];
    chunks.push(Chunk::new(1, vec![1, 2, 3]));
    let f = chunks_to_frame(chunks);
    assert_eq!(f.as_raw().len(), 1228803);
}
