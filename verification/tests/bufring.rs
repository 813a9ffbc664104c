use vortex::bufring::{ring_bytes, BufRingError, ProvidedBufRing};

#[test]
fn a_new_ring_holds_zeroed_buffers() {
    let ring = ProvidedBufRing::new(3, 4, 16).unwrap();
    assert_eq!((ring.bgid(), ring.buf_count(), ring.buf_size()), (3, 4, 16));
    for id in 0..4 {
        assert_eq!(ring.get_buf(id, 16), &[0u8; 16]);
    }
    assert_eq!(ring.get_buf(0, 0), &[] as &[u8]);
}

#[test]
fn the_defaults_make_eight_mebibytes() {
    let count = ProvidedBufRing::DEFAULT_BUF_COUNT;
    let size = ProvidedBufRing::DEFAULT_BUF_SIZE;
    assert_eq!((count, size), (2048, 4096));
    let ring = ProvidedBufRing::new(0, count, size).unwrap();
    assert_eq!(ring.get_buf(2047, 4096).len(), 4096);
}

#[test]
fn filled_buffers_read_back_and_leave_the_others() {
    let mut ring = ProvidedBufRing::new(0, 3, 4).unwrap();
    ring.get_buf_mut(1).copy_from_slice(b"abcd");
    assert_eq!(ring.get_buf(1, 4), b"abcd");
    assert_eq!(ring.get_buf(1, 2), b"ab");
    assert_eq!(ring.get_buf(0, 4), &[0u8; 4]);
    assert_eq!(ring.get_buf(2, 4), &[0u8; 4]);
}

#[test]
fn returning_a_buffer_keeps_its_contents() {
    let mut ring = ProvidedBufRing::new(9, 2, 4).unwrap();
    ring.get_buf_mut(0).copy_from_slice(b"wxyz");
    for _ in 0..70000 {
        ring.return_buf(0);
    }
    assert_eq!(ring.get_buf(0, 4), b"wxyz");
    assert_eq!((ring.bgid(), ring.buf_count(), ring.buf_size()), (9, 2, 4));
}

#[test]
fn a_ring_needs_the_size_of_its_buffers() {
    assert_eq!(ring_bytes(4, 16), Some(64));
    assert_eq!(ring_bytes(0, 16), Some(0));
    assert_eq!(ring_bytes(65535, 65536), Some(4294901760));
}

#[test]
fn memory_decides_whether_there_is_a_ring() {
    let refused = ProvidedBufRing::with_memory(3, 2, 8, Vec::new(), false);
    assert_eq!(refused.err(), Some(BufRingError::OutOfMemory));
    let ring = ProvidedBufRing::with_memory(3, 2, 8, Vec::new(), true).unwrap();
    assert_eq!((ring.bgid(), ring.buf_count(), ring.buf_size()), (3, 2, 8));
    assert_eq!(ring.get_buf(1, 8), &[0u8; 8]);
}
