use opv::frame::Frame;

#[test]
fn from_raw_accepts_exact_size() {
    let f = Frame::from_raw(2, 3, vec![9u8; 24]).unwrap();
    assert_eq!(f.width(), 2);
    assert_eq!(f.height(), 3);
    assert_eq!(f.as_raw().len(), 24);
    assert_eq!(f.into_raw(), vec![9u8; 24]);
}

#[test]
fn from_raw_accepts_longer_buffer() {
    let f = Frame::from_raw(1, 1, vec![1, 2, 3, 4, 5]).unwrap();
    assert_eq!(f.into_raw(), vec![1, 2, 3, 4, 5]);
}

#[test]
fn from_raw_refuses_short_buffer() {
    assert!(Frame::from_raw(2, 2, vec![0u8; 15]).is_none());
    assert!(Frame::from_raw(640, 480, vec![0u8; 1228799]).is_none());
}

#[test]
fn from_raw_refuses_huge_size() {
    assert!(Frame::from_raw(u32::MAX, u32::MAX, vec![0u8; 16]).is_none());
}

#[test]
fn from_raw_accepts_empty_image() {
    let f = Frame::from_raw(0, 0, Vec::new()).unwrap();
    assert!(f.as_raw().is_empty());
}
