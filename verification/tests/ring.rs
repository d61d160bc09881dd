use cs581_project::ring::RingBuffer;

#[test]
fn ring_starts_empty() {
    let ring = RingBuffer::new(8);
    assert_eq!(ring.len(), 0);
}

#[test]
fn ring_write_position_wraps() {
    let mut ring = RingBuffer::new(4);
    assert_eq!(ring.write_position(), 0);
    let evicted = ring.wrapping_write(&[1, 2, 3]);
    assert_eq!(evicted, 0);
    assert_eq!(ring.write_position(), 3);
    let evicted = ring.wrapping_write(&[4, 5]);
    assert_eq!(evicted, 1);
    assert_eq!(ring.len(), 4);
    assert_eq!(ring.write_position(), 1);
}

#[test]
fn ring_wrapping_write_evicts_oldest() {
    let mut ring = RingBuffer::new(4);
    ring.wrapping_write(&[1, 2, 3]);
    ring.wrapping_write(&[4, 5]);
    assert_eq!(ring.index(0), 2);
    assert_eq!(ring.index(1), 3);
    assert_eq!(ring.index(2), 4);
    assert_eq!(ring.index(3), 5);
}

#[test]
fn ring_wrapping_write_caps_at_capacity() {
    let mut ring = RingBuffer::new(3);
    let evicted = ring.wrapping_write(&[9, 8, 7, 6, 5]);
    // Only the first three bytes fit; nothing held before, so none evicted.
    assert_eq!(evicted, 0);
    assert_eq!(ring.len(), 3);
    assert_eq!(ring.index(0), 9);
    assert_eq!(ring.index(2), 7);
}

#[test]
fn ring_peak_reads_without_consuming() {
    let mut ring = RingBuffer::new(8);
    ring.wrapping_write(&[10, 11, 12, 13, 14]);
    let got = ring.peak(1, 3);
    assert_eq!(got, vec![11, 12, 13]);
    let clipped = ring.peak(3, 10);
    assert_eq!(clipped, vec![13, 14]);
    assert_eq!(ring.len(), 5);
}

#[test]
fn ring_ignore_drops_oldest() {
    let mut ring = RingBuffer::new(8);
    ring.wrapping_write(&[10, 11, 12, 13]);
    assert_eq!(ring.ignore(2), 2);
    assert_eq!(ring.len(), 2);
    assert_eq!(ring.index(0), 12);
    assert_eq!(ring.ignore(5), 2);
    assert_eq!(ring.len(), 0);
}

#[test]
fn ring_wrapping_push_evicts_when_full() {
    let mut ring = RingBuffer::new(2);
    ring.wrapping_push(1);
    ring.wrapping_push(2);
    ring.wrapping_push(3);
    assert_eq!(ring.len(), 2);
    assert_eq!(ring.index(0), 2);
    assert_eq!(ring.index(1), 3);
}

#[test]
fn ring_clear_keeps_capacity() {
    let mut ring = RingBuffer::new(4);
    ring.wrapping_write(&[1, 2, 3]);
    ring.clear();
    assert_eq!(ring.len(), 0);
    let evicted = ring.wrapping_write(&[7, 8, 9, 10]);
    assert_eq!(evicted, 0);
    assert_eq!(ring.len(), 4);
}

#[test]
fn ring_fill_from_slice_takes_what_fits() {
    let mut ring = RingBuffer::new(4);
    let src: Vec<u8> = vec![1, 2, 3, 4, 5, 6];
    let taken = ring.fill_from_slice(&src, 1);
    assert_eq!(taken, 4);
    assert_eq!(ring.index(0), 2);
    assert_eq!(ring.index(3), 5);
    let taken = ring.fill_from_slice(&src, 5);
    assert_eq!(taken, 0);
}
