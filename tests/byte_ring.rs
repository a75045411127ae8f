use webmux::ring_buffer::{BufferError, OptimizedTerminalBuffer};

#[test]
fn reader_that_keeps_up_sees_every_write_once_in_order() {
    let mut buf = OptimizedTerminalBuffer::new(16);
    let reader = buf.create_reader("r".to_string());
    let mut seen: Vec<u8> = Vec::new();
    let mut written: Vec<u8> = Vec::new();
    for i in 0..50u8 {
        let chunk = [i, i.wrapping_mul(3), i.wrapping_add(7)];
        assert_eq!(buf.write(&chunk), Ok(()));
        written.extend_from_slice(&chunk);
        let got = reader.try_read_next(&mut buf).expect("new bytes");
        assert_eq!(got, chunk.to_vec());
        assert_eq!(reader.try_read_next(&mut buf), None);
        seen.extend(got);
    }
    assert_eq!(seen, written);
    let stats = buf.stats();
    assert_eq!(stats.bytes_written, 150);
    assert_eq!(stats.bytes_read, 150);
    assert_eq!(stats.messages_written, 50);
    assert_eq!(stats.overruns, 0);
    assert_eq!(stats.reader_count, 1);
}

#[test]
fn write_larger_than_half_capacity_is_refused() {
    let mut buf = OptimizedTerminalBuffer::new(16);
    assert_eq!(buf.write(&[0u8; 9]), Err(BufferError::DataTooLarge));
    assert_eq!(buf.write(&[0u8; 8]), Ok(()));
    assert_eq!(buf.stats().messages_written, 1);
}

#[test]
fn compaction_keeps_what_the_slowest_reader_has_not_read() {
    let mut buf = OptimizedTerminalBuffer::new(16);
    let fast = buf.create_reader("fast".to_string());
    let slow = buf.create_reader("slow".to_string());
    assert_eq!(buf.write(b"abcdefgh"), Ok(()));
    assert_eq!(fast.try_read_next(&mut buf), Some(b"abcdefgh".to_vec()));
    assert_eq!(buf.write(b"ijkl"), Ok(()));
    assert_eq!(slow.try_read_next(&mut buf), Some(b"abcdefghijkl".to_vec()));
    assert_eq!(buf.write(b"mnop"), Ok(()));
    // fast is at 8 and slow at 12: compaction may drop only the first 8 bytes.
    assert_eq!(buf.write(b"qrst"), Ok(()));
    assert_eq!(fast.try_read_next(&mut buf), Some(b"ijklmnopqrst".to_vec()));
    assert_eq!(slow.try_read_next(&mut buf), Some(b"mnopqrst".to_vec()));
    assert_eq!(buf.stats().buffer_size, 12);
}

#[test]
fn stalled_reader_fills_the_buffer_and_counts_an_overrun() {
    let mut buf = OptimizedTerminalBuffer::new(16);
    let stalled = buf.create_reader("stalled".to_string());
    assert_eq!(buf.write(b"12345678"), Ok(()));
    assert_eq!(buf.write(b"abcdefgh"), Ok(()));
    assert_eq!(buf.write(b"X"), Err(BufferError::BufferFull));
    assert_eq!(buf.stats().overruns, 1);
    assert_eq!(stalled.try_read_next(&mut buf), Some(b"12345678abcdefgh".to_vec()));
    assert_eq!(buf.write(b"X"), Ok(()));
    assert_eq!(buf.stats().buffer_size, 1);
}

#[test]
fn new_reader_starts_at_the_current_end() {
    let mut buf = OptimizedTerminalBuffer::new(32);
    assert_eq!(buf.write(b"before"), Ok(()));
    let late = buf.create_reader("late".to_string());
    assert_eq!(late.try_read_next(&mut buf), None);
    assert_eq!(buf.write(b"after"), Ok(()));
    assert_eq!(late.try_read_next(&mut buf), Some(b"after".to_vec()));
}

#[test]
fn detached_reader_no_longer_blocks_compaction() {
    let mut buf = OptimizedTerminalBuffer::new(16);
    let gone = buf.create_reader("gone".to_string());
    let live = buf.create_reader("live".to_string());
    assert_eq!(buf.write(b"12345678"), Ok(()));
    assert_eq!(live.try_read_next(&mut buf), Some(b"12345678".to_vec()));
    gone.detach(&mut buf);
    assert_eq!(buf.stats().reader_count, 1);
    assert_eq!(buf.write(b"abcdefgh"), Ok(()));
    assert_eq!(buf.write(b"ijklmnop"), Ok(()));
    assert_eq!(live.try_read_next(&mut buf), Some(b"abcdefghijklmnop".to_vec()));
}

#[test]
fn without_readers_nothing_is_compacted() {
    let mut buf = OptimizedTerminalBuffer::new(8);
    assert_eq!(buf.write(b"abcd"), Ok(()));
    assert_eq!(buf.write(b"efgh"), Ok(()));
    assert_eq!(buf.write(b"i"), Err(BufferError::BufferFull));
}

#[test]
fn unknown_reader_reads_nothing() {
    let mut buf = OptimizedTerminalBuffer::new(8);
    let r = buf.create_reader("r".to_string());
    buf.remove_reader("r");
    assert_eq!(buf.write(b"ab"), Ok(()));
    assert_eq!(r.try_read_next(&mut buf), None);
}
