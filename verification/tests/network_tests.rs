use opv::frame::Frame;
use opv::network::connect::{
    binding_request, decode_xor_mapped_address, mapped_address, mapped_address_from_message,
    ConnectionError, IpFamily, StunAttribute, StunMessage,
};
use opv::network::recv::{FrameReceiver, ReceiveAction, CHUNKS_PER_FRAME, RECEIVE_BUFFER_SIZE};
use opv::network::send::chunks_to_datagrams;
use opv::transcode::decode::{FRAME_HEIGHT, FRAME_WIDTH};
use opv::transcode::encode::frame_to_chunks;
use opv::transcode::Chunk;

fn pattern(len: usize) -> Vec<u8> {
    (0..len).map(|i| (i * 7 % 253) as u8).collect()
}

fn received(datagram: &[u8]) -> Vec<u8> {
    let mut buf = vec![0u8; RECEIVE_BUFFER_SIZE];
    buf[..datagram.len()].copy_from_slice(datagram);
    buf
}

#[test]
fn datagrams_are_chunk_encodings() {
    let chunks = vec![Chunk::new(0, vec![5]), Chunk::new(1, vec![6, 7])];
    let d = chunks_to_datagrams(&chunks);
    assert_eq!(d.len(), 2);
    assert_eq!(d[0], chunks[0].to_wire());
    assert_eq!(d[1], vec![1, 0, 0, 0, 0, 0, 0, 0, 2, 0, 0, 0, 0, 0, 0, 0, 6, 7]);
}

#[test]
fn frame_travels_through_receiver() {
    let raw = pattern(1228800);
    let f = Frame::from_raw(FRAME_WIDTH, FRAME_HEIGHT, raw.clone()).unwrap();
    let datagrams = chunks_to_datagrams(&frame_to_chunks(f));
    assert_eq!(datagrams.len(), CHUNKS_PER_FRAME);
    let mut r = FrameReceiver::new();
    for (i, d) in datagrams.iter().enumerate() {
        assert!(d.len() <= RECEIVE_BUFFER_SIZE);
        match r.on_buffer(&received(d)) {
            ReceiveAction::Buffered => assert!(i + 1 < CHUNKS_PER_FRAME),
            ReceiveAction::Deliver(frame) => {
                assert_eq!(i + 1, CHUNKS_PER_FRAME);
                assert_eq!(frame.width(), 640);
                assert_eq!(frame.height(), 480);
                assert_eq!(frame.into_raw(), raw);
            }
            other => panic!("unexpected {:?}", other),
        }
    }
    assert_eq!(r.pending(), 0);
    assert!(!r.is_halted());
}

#[test]
fn receiver_counts_pending_chunks() {
    let mut r = FrameReceiver::new();
    assert_eq!(r.pending(), 0);
    let d = Chunk::new(0, vec![1, 2, 3]).to_wire();
    assert!(matches!(r.on_buffer(&received(&d)), ReceiveAction::Buffered));
    assert_eq!(r.pending(), 1);
}

#[test]
fn receiver_ignores_garbage() {
    let mut r = FrameReceiver::new();
    let mut garbage = vec![0u8; RECEIVE_BUFFER_SIZE];
    garbage[8] = 0xff;
    garbage[9] = 0xff;
    assert!(matches!(r.on_buffer(&garbage), ReceiveAction::Undecodable));
    assert!(matches!(r.on_buffer(&[1, 2, 3]), ReceiveAction::Undecodable));
    assert_eq!(r.pending(), 0);
    assert!(!r.is_halted());
}

#[test]
fn receiver_halts_on_short_frame() {
    let mut r = FrameReceiver::new();
    for i in 0..CHUNKS_PER_FRAME {
        let d = Chunk::new(i, vec![1, 2]).to_wire();
        let a = r.on_buffer(&received(&d));
        if i + 1 < CHUNKS_PER_FRAME {
            assert!(matches!(a, ReceiveAction::Buffered));
        } else {
            assert!(matches!(a, ReceiveAction::Halted));
        }
    }
    assert!(r.is_halted());
    let d = Chunk::new(0, vec![1]).to_wire();
    assert!(matches!(r.on_buffer(&received(&d)), ReceiveAction::Halted));
    assert_eq!(r.pending(), 0);
}

#[test]
fn binding_request_header() {
    let req = binding_request();
    assert_eq!(req.len(), 20);
    assert_eq!(&req[0..4], &[0, 1, 0, 0]);
    assert_eq!(&req[4..8], &[0x21, 0x12, 0xa4, 0x42]);
}

fn response_with(attrs: &[(u16, Vec<u8>)], txid: [u8; 12]) -> Vec<u8> {
    let mut body = Vec::new();
    for (kind, value) in attrs {
        body.extend_from_slice(&kind.to_be_bytes());
        body.extend_from_slice(&(value.len() as u16).to_be_bytes());
        body.extend_from_slice(value);
        while body.len() % 4 != 0 {
            body.push(0);
        }
    }
    let mut msg = vec![0x01, 0x01];
    msg.extend_from_slice(&(body.len() as u16).to_be_bytes());
    msg.extend_from_slice(&[0x21, 0x12, 0xa4, 0x42]);
    msg.extend_from_slice(&txid);
    msg.extend_from_slice(&body);
    msg
}

fn xor_v4(ip: [u8; 4], port: u16) -> Vec<u8> {
    let cookie = [0x21u8, 0x12, 0xa4, 0x42];
    let p = port ^ 0x2112;
    let mut v = vec![0, 1];
    v.extend_from_slice(&p.to_be_bytes());
    for i in 0..4 {
        v.push(ip[i] ^ cookie[i]);
    }
    v
}

#[test]
fn mapped_address_reads_xor_mapped_v4() {
    let txid = [3u8; 12];
    let resp = response_with(&[(0x8022, b"srv".to_vec()), (0x0020, xor_v4([203, 0, 113, 7], 54321))], txid);
    let a = mapped_address(&resp).unwrap();
    assert_eq!(a.family, IpFamily::V4);
    assert_eq!(a.octets, vec![203, 0, 113, 7]);
    assert_eq!(a.port, 54321);
}

#[test]
fn mapped_address_takes_first_xor_mapped() {
    let txid = [0u8; 12];
    let resp = response_with(
        &[(0x0020, xor_v4([10, 0, 0, 1], 1000)), (0x0020, xor_v4([10, 0, 0, 2], 2000))],
        txid,
    );
    let a = mapped_address(&resp).unwrap();
    assert_eq!(a.octets, vec![10, 0, 0, 1]);
    assert_eq!(a.port, 1000);
}

#[test]
fn mapped_address_without_attribute_fails() {
    let resp = response_with(&[(0x0001, vec![0, 1, 0, 80, 1, 2, 3, 4])], [1u8; 12]);
    assert!(matches!(mapped_address(&resp), Err(ConnectionError::StunFailed)));
}

#[test]
fn mapped_address_refuses_garbage() {
    assert!(matches!(mapped_address(&[0u8; 10]), Err(ConnectionError::StunFailed)));
    let mut bad_cookie = response_with(&[(0x0020, xor_v4([1, 2, 3, 4], 5))], [0u8; 12]);
    bad_cookie[4] = 0;
    assert!(matches!(mapped_address(&bad_cookie), Err(ConnectionError::StunFailed)));
}

#[test]
fn xor_mapped_v6_uses_transaction_id() {
    let txid: [u8; 12] = [1, 2, 3, 4, 5, 6, 7, 8, 9, 10, 11, 12];
    let key: Vec<u8> = [0x21u8, 0x12, 0xa4, 0x42].iter().chain(txid.iter()).cloned().collect();
    let ip: Vec<u8> = (100..116).collect();
    let mut v = vec![0, 2, 0x21, 0x13];
    for i in 0..16 {
        v.push(ip[i] ^ key[i]);
    }
    let a = decode_xor_mapped_address(&txid, &v).unwrap();
    assert_eq!(a.family, IpFamily::V6);
    assert_eq!(a.octets, ip);
    assert_eq!(a.port, 1);
}

#[test]
fn xor_mapped_short_and_bad_values() {
    let txid = [0u8; 12];
    assert!(decode_xor_mapped_address(&txid, &vec![0, 1, 0, 0]).is_none());
    assert!(decode_xor_mapped_address(&txid, &vec![0, 3, 0, 0, 1]).is_none());
    assert!(decode_xor_mapped_address(&txid, &vec![0, 1, 0, 0, 1, 2, 3, 4, 5]).is_none());
    let a = decode_xor_mapped_address(&txid, &vec![0, 1, 0x21, 0x12, 0x21 ^ 9]).unwrap();
    assert_eq!(a.octets, vec![9, 0, 0, 0]);
    assert_eq!(a.port, 0);
}

#[test]
fn message_without_xor_mapped_fails() {
    let msg = StunMessage {
        transaction_id: [0u8; 12],
        attributes: vec![StunAttribute { kind: 0x8022, value: vec![1] }],
    };
    assert!(matches!(mapped_address_from_message(&msg), Err(ConnectionError::StunFailed)));
    let msg = StunMessage {
        transaction_id: [0u8; 12],
        attributes: vec![StunAttribute { kind: 0x0020, value: vec![0, 7, 0, 0, 1] }],
    };
    assert!(matches!(mapped_address_from_message(&msg), Err(ConnectionError::StunFailed)));
}

#[test]
fn frames_arrive_in_order_with_garbage_between() {
    let raws = [pattern(1228800), pattern(1228800).iter().map(|b| b ^ 0x5a).collect::<Vec<u8>>()];
    let mut r = FrameReceiver::new();
    let mut delivered = Vec::new();
    let mut garbage = vec![0u8; RECEIVE_BUFFER_SIZE];
    garbage[8] = 0xff;
    garbage[9] = 0xff;
    for raw in raws.iter() {
        let f = Frame::from_raw(FRAME_WIDTH, FRAME_HEIGHT, raw.clone()).unwrap();
        for (i, d) in chunks_to_datagrams(&frame_to_chunks(f)).iter().enumerate() {
            if i % 100 == 0 {
                assert!(matches!(r.on_buffer(&garbage), ReceiveAction::Undecodable));
            }
            if let ReceiveAction::Deliver(frame) = r.on_buffer(&received(d)) {
                delivered.push(frame.into_raw());
            }
        }
    }
    assert_eq!(delivered.len(), 2);
    assert_eq!(delivered[0], raws[0]);
    assert_eq!(delivered[1], raws[1]);
    assert_eq!(r.pending(), 0);
}

#[test]
fn one_frame_per_820_decoded_chunks() {
    let mut r = FrameReceiver::new();
    let mut frames = 0;
    for i in 0..(2 * CHUNKS_PER_FRAME + 5) {
        let d = Chunk::new(i, pattern(1500)).to_wire();
        if let ReceiveAction::Deliver(_) = r.on_buffer(&received(&d)) {
            frames += 1;
            assert_eq!((i + 1) % CHUNKS_PER_FRAME, 0);
        }
    }
    assert_eq!(frames, 2);
    assert_eq!(r.pending(), 5);
}

#[test]
fn mapped_address_skips_plain_mapped_address() {
    let txid = [9u8; 12];
    let resp = response_with(
        &[(0x0001, vec![0, 1, 0, 80, 1, 2, 3, 4]), (0x0020, xor_v4([192, 0, 2, 1], 3478))],
        txid,
    );
    let a = mapped_address(&resp).unwrap();
    assert_eq!(a.octets, vec![192, 0, 2, 1]);
    assert_eq!(a.port, 3478);
}
