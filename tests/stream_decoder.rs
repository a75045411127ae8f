use webmux::utf8_stream::Utf8StreamDecoder;

fn decode_in_two(bytes: &[u8], split: usize) -> String {
    let mut d = Utf8StreamDecoder::new();
    let (a, n1) = d.decode_chunk(&bytes[..split]);
    let (b, n2) = d.decode_chunk(&bytes[split..]);
    assert_eq!(n1, split);
    assert_eq!(n2, bytes.len() - split);
    format!("{}{}", a, b)
}

#[test]
fn split_at_every_offset_matches_whole() {
    let text = "h\u{e9}llo \u{20ac} \u{1f600} end";
    let bytes = text.as_bytes();
    let mut whole = Utf8StreamDecoder::new();
    let (all, n) = whole.decode_chunk(bytes);
    assert_eq!(all, text);
    assert_eq!(n, bytes.len());
    for split in 0..=bytes.len() {
        assert_eq!(decode_in_two(bytes, split), text, "split at {}", split);
    }
}

#[test]
fn ascii_chunk_passes_through() {
    let mut d = Utf8StreamDecoder::new();
    assert_eq!(d.decode_chunk(b"plain text"), ("plain text".to_string(), 10));
}

#[test]
fn incomplete_tail_is_held_back() {
    let euro = "\u{20ac}".as_bytes();
    let mut d = Utf8StreamDecoder::new();
    let (first, n) = d.decode_chunk(&[b'a', euro[0], euro[1]]);
    assert_eq!(first, "a");
    assert_eq!(n, 3);
    let (second, _) = d.decode_chunk(&[euro[2], b'b']);
    assert_eq!(second, "\u{20ac}b");
}

#[test]
fn invalid_bytes_are_never_emitted() {
    let mut d = Utf8StreamDecoder::new();
    let (out, n) = d.decode_chunk(&[b'o', b'k', 0xff, b'x']);
    assert_eq!(out, "okx");
    assert_eq!(n, 4);
    let (more, _) = d.decode_chunk(&[0xff, 0xfe, 0x80, b'y']);
    assert_eq!(more, "y");
}

#[test]
fn empty_chunk_gives_nothing() {
    let mut d = Utf8StreamDecoder::new();
    assert_eq!(d.decode_chunk(&[]), (String::new(), 0));
}

#[test]
fn character_split_over_three_chunks_survives() {
    let mut d = Utf8StreamDecoder::new();
    assert_eq!(d.decode_chunk(&[0xf0]).0, "");
    assert_eq!(d.decode_chunk(&[0x9f]).0, "");
    assert_eq!(d.decode_chunk(&[0x98, 0x80]).0, "\u{1f600}");
}

#[test]
fn byte_by_byte_feeding_matches_whole() {
    let text = "a\u{e9}\u{20ac}\u{1f600}z";
    let mut d = Utf8StreamDecoder::new();
    let mut out = String::new();
    for b in text.as_bytes() {
        out.push_str(&d.decode_chunk(&[*b]).0);
    }
    assert_eq!(out, text);
}

#[test]
fn partial_character_then_garbage_is_dropped() {
    let mut d = Utf8StreamDecoder::new();
    assert_eq!(d.decode_chunk(&[b'a', 0xe2, 0x82]).0, "a");
    assert_eq!(d.decode_chunk(&[b'b', b'c']).0, "bc");
}
