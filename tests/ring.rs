use termcastd::ring::RingBuffer;

fn collect(ring: &RingBuffer) -> Vec<u8> {
    let mut it = ring.iter();
    let mut out = Vec::new();
    while let Some(b) = it.next() {
        out.push(b);
    }
    out
}

#[test]
fn add() {
    let mut ring = RingBuffer::new(4);
    let bytes = &[0, 1, 2, 3, 4, 5, 6];

    ring.add(&bytes[0..1]);
    assert_eq!(ring.len(), 1);
    let buf: Vec<u8> = collect(&ring);
    assert_eq!(buf, vec![0]);

    ring.add(&bytes[1..3]);
    assert_eq!(ring.len(), 3);
    let buf: Vec<u8> = collect(&ring);
    assert_eq!(buf, vec![0, 1, 2]);

    ring.add(&bytes[3..4]);
    assert_eq!(ring.len(), 4);
    let buf: Vec<u8> = collect(&ring);
    assert_eq!(buf, vec![0, 1, 2, 3]);

    ring.add(&bytes[4..6]);
    assert_eq!(ring.len(), 4);
    let buf: Vec<u8> = collect(&ring);
    assert_eq!(buf, vec![2, 3, 4, 5]);

    ring.add(bytes);
    assert_eq!(ring.len(), 4);
    let buf: Vec<u8> = collect(&ring);
    assert_eq!(buf, vec![3, 4, 5, 6]);
}

#[test]
fn add_no_wraparound() {
    let mut ring = RingBuffer::new(4);
    let bytes = &[0, 1, 2, 3, 4];

    assert!(ring.add_no_wraparound(&bytes[0..1]).is_ok(), "Append first byte.");
    assert_eq!(ring.len(), 1);

    assert!(ring.add_no_wraparound(&bytes[1..3]).is_ok(), "Append second and third bytes.");
    assert_eq!(ring.len(), 3);

    assert!(ring.add_no_wraparound(&bytes[3..4]).is_ok(), "Append fourth byte.");
    assert_eq!(ring.len(), 4);

    assert!(ring.add_no_wraparound(&bytes[4..5]).is_err(), "Failed to add fifth byte.");
    assert_eq!(ring.len(), 4);
}

#[test]
fn clear() {
    let mut ring = RingBuffer::new(4);
    let bytes = &[0, 1, 2, 3, 4, 5, 6];
    ring.add(bytes);
    assert_eq!(ring.len(), 4);
    ring.clear();
    assert_eq!(ring.len(), 0);

    ring.add(&bytes[0..3]);
    assert_eq!(ring.len(), 3);
    ring.clear();
    assert_eq!(ring.len(), 0);
}

#[test]
fn clone() {
    let mut ring = RingBuffer::new(4);
    let bytes = &[0, 1, 2, 3, 4, 5, 6];
    ring.add(&bytes[0..4]);

    let cloned_ring = ring.clone();
    assert_eq!(cloned_ring, &bytes[0..4]);

    ring.add(&bytes[4..5]);
    let cloned_ring = ring.clone();
    assert_eq!(cloned_ring, vec![1, 2, 3, 4]);

    ring.add(&bytes[5..]);
    let cloned_ring = ring.clone();
    assert_eq!(cloned_ring, vec![3, 4, 5, 6]);
}

#[test]
fn ring_keeps_last_capacity_bytes_in_order() {
    let mut ring = RingBuffer::new(5);
    let mut all = Vec::new();
    for chunk in [&[1u8, 2, 3][..], &[4, 5], &[6, 7, 8, 9], &[], &[10]] {
        ring.add(chunk);
        all.extend_from_slice(chunk);
        let keep = all.len().min(5);
        assert!(ring.len() <= 5);
        assert_eq!(collect(&ring), all[all.len() - keep..].to_vec());
        assert_eq!(ring.clone(), all[all.len() - keep..].to_vec());
    }
}

#[test]
fn add_no_wraparound_keeps_what_fits() {
    let mut ring = RingBuffer::new(4);
    assert!(ring.add_no_wraparound(&[1, 2, 3]).is_ok());
    assert!(ring.add_no_wraparound(&[4, 5, 6]).is_err());
    assert_eq!(collect(&ring), vec![1, 2, 3, 4]);
}

#[test]
fn add_no_wraparound_on_a_wrapped_ring_fails_without_change() {
    let mut ring = RingBuffer::new(3);
    ring.add(&[1, 2, 3, 4]);
    assert!(ring.add_no_wraparound(&[9]).is_err());
    assert_eq!(collect(&ring), vec![2, 3, 4]);
    assert!(ring.add_no_wraparound(&[]).is_ok());
    ring.add(&[5]);
    assert_eq!(collect(&ring), vec![3, 4, 5]);
}

#[test]
fn iter_of_empty_ring_yields_nothing() {
    let ring = RingBuffer::new(2);
    assert_eq!(ring.len(), 0);
    assert_eq!(ring.get_offset(), 0);
    assert!(collect(&ring).is_empty());
}
