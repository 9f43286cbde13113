use hfo2::types::ByteRange;

#[test]
fn new_covers_the_whole_slice() {
    let data = b"0123456789";
    let range = ByteRange::new(data);
    assert_eq!(range.start(), 0);
    assert_eq!(range.len(), 10);
    assert!(!range.is_empty());
    assert_eq!(range.as_slice(), data);
    assert_eq!(range.buffer(), data);
}

#[test]
fn new_of_empty_slice() {
    let range = ByteRange::new(b"");
    assert_eq!(range.len(), 0);
    assert!(range.is_empty());
    assert_eq!(range.get(0), None);
    assert_eq!(range.as_slice(), b"");
}

#[test]
fn get_reads_inside_and_refuses_outside() {
    let data = b"0123456789";
    let range = ByteRange::new(data).sub(3, 4).unwrap();
    assert_eq!(range.get(0), Some(b'3'));
    assert_eq!(range.get(3), Some(b'6'));
    assert_eq!(range.get(4), None);
    assert_eq!(range.get(usize::MAX), None);
}

#[test]
fn sub_keeps_offsets_from_the_buffer() {
    let data = b"0123456789";
    let whole = ByteRange::new(data);
    let mid = whole.sub(2, 6).unwrap();
    assert_eq!(mid.start(), 2);
    assert_eq!(mid.len(), 6);
    assert_eq!(mid.as_slice(), b"234567");
    let inner = mid.sub(1, 3).unwrap();
    assert_eq!(inner.start(), 3);
    assert_eq!(inner.as_slice(), b"345");
    assert_eq!(inner.buffer(), data);
}

#[test]
fn sub_at_the_edges() {
    let data = b"0123456789";
    let whole = ByteRange::new(data);
    assert_eq!(whole.sub(0, 10).unwrap().as_slice(), data);
    assert!(whole.sub(10, 0).unwrap().is_empty());
    assert_eq!(whole.sub(10, 0).unwrap().start(), 10);
    assert!(whole.sub(0, 0).unwrap().is_empty());
    assert_eq!(whole.sub(9, 1).unwrap().as_slice(), b"9");
}

#[test]
fn sub_past_the_end_is_refused() {
    let data = b"0123456789";
    let whole = ByteRange::new(data);
    assert!(whole.sub(0, 11).is_none());
    assert!(whole.sub(11, 0).is_none());
    assert!(whole.sub(5, 6).is_none());
    assert!(whole.sub(usize::MAX, 2).is_none());
    assert!(whole.sub(2, usize::MAX).is_none());
    let mid = whole.sub(2, 6).unwrap();
    assert!(mid.sub(0, 7).is_none());
    assert!(mid.sub(6, 1).is_none());
}
