use webmux::chunk_queue::{TerminalRingBuffer, CHUNK_SLOTS, MAX_CHUNK_SIZE};

#[test]
fn chunks_arrive_in_sequence() {
    let mut q = TerminalRingBuffer::new();
    let mut reader = q.create_reader();
    assert!(q.write(b"one").is_ok());
    assert!(q.write(b"two").is_ok());
    let a = reader.try_read_next(&mut q).expect("first");
    assert_eq!((a.sequence, a.data.as_slice()), (1, &b"one"[..]));
    let b = reader.try_read_next(&mut q).expect("second");
    assert_eq!((b.sequence, b.data.as_slice()), (2, &b"two"[..]));
    assert!(reader.try_read_next(&mut q).is_none());
}

#[test]
fn oversized_chunk_is_refused() {
    let mut q = TerminalRingBuffer::new();
    assert!(q.write(&vec![0u8; MAX_CHUNK_SIZE + 1]).is_err());
    assert!(q.write(&vec![0u8; MAX_CHUNK_SIZE]).is_ok());
}

#[test]
fn full_queue_evicts_the_oldest_chunk() {
    let mut q = TerminalRingBuffer::new();
    let mut reader = q.create_reader();
    for i in 0..(CHUNK_SLOTS + 1) {
        assert!(q.write(&[(i % 256) as u8]).is_ok());
    }
    // Chunk 1 was evicted: the reader finds no chunk 1 and gets nothing.
    assert!(reader.try_read_next(&mut q).is_none());
}

#[test]
fn out_of_order_chunks_are_requeued_until_their_turn() {
    let mut q = TerminalRingBuffer::new();
    let mut first = q.create_reader();
    for word in [&b"a"[..], b"b", b"c"] {
        assert!(q.write(word).is_ok());
    }
    assert_eq!(first.try_read_next(&mut q).expect("1").sequence, 1);
    // A second reader that has taken nothing wants chunk 1, which is gone;
    // the newer chunks are put back for the first reader.
    let mut second = q.create_reader();
    assert!(second.try_read_next(&mut q).is_none());
    assert_eq!(first.try_read_next(&mut q).expect("2").data, b"b".to_vec());
    assert_eq!(first.try_read_next(&mut q).expect("3").data, b"c".to_vec());
}
