use webmux::protocol::{
    encode_frame, encode_terminal_output, parse_binary_message, split_output, BinaryMessageType,
    BinaryRequest, MAX_OUTPUT_CHUNK,
};
use webmux::tmux_cmd::{
    escape_single_quotes, must_create_session, parse_session_list, parse_window_list, TmuxCommandBatch,
};
use webmux::types::AppError;

#[test]
fn output_frame_layout() {
    assert_eq!(encode_terminal_output("hé"), vec![0x01, 3, 0, 0, 0, b'h', 0xc3, 0xa9]);
    let payload = vec![9u8; 300];
    let frame = encode_frame(BinaryMessageType::Stats.type_byte(), &payload);
    assert_eq!(&frame[..5], &[0x05, 44, 1, 0, 0]);
    assert_eq!(frame.len(), 305);
}

#[test]
fn message_type_bytes_round_trip() {
    for b in 1u8..=7 {
        assert_eq!(BinaryMessageType::from_byte(b).expect("known").type_byte(), b);
    }
    assert!(BinaryMessageType::from_byte(0).is_none());
    assert!(BinaryMessageType::from_byte(8).is_none());
    assert_eq!(BinaryMessageType::Pong.type_byte(), 0x07);
}

#[test]
fn binary_messages_are_read() {
    assert!(matches!(parse_binary_message(&[0x06]), BinaryRequest::Ping));
    assert!(matches!(parse_binary_message(&[]), BinaryRequest::Ignored));
    match parse_binary_message(&[0x03, 2, 0, 0, 0, b'l', b's', b'!']) {
        BinaryRequest::Input(s) => assert_eq!(s, "ls"),
        _ => panic!("expected input"),
    }
    assert!(matches!(parse_binary_message(&[0x03, 9, 0, 0, 0, b'l']), BinaryRequest::Ignored));
    assert!(matches!(parse_binary_message(&[0x03, 1, 0, 0, 0, 0xff]), BinaryRequest::InvalidInput));
    assert!(matches!(parse_binary_message(&[0x01, 1, 0, 0, 0, b'a']), BinaryRequest::Ignored));
}

#[test]
fn output_is_split_into_bounded_chunks() {
    let data = vec![1u8; MAX_OUTPUT_CHUNK * 2 + 5];
    let parts = split_output(&data, MAX_OUTPUT_CHUNK);
    let sizes: Vec<usize> = parts.iter().map(|p| p.len()).collect();
    assert_eq!(sizes, vec![MAX_OUTPUT_CHUNK, MAX_OUTPUT_CHUNK, 5]);
    assert!(split_output(&[], 4).is_empty());
    assert_eq!(split_output(b"abcdefg", 3), vec![b"abc".to_vec(), b"def".to_vec(), b"g".to_vec()]);
}

#[test]
fn single_quotes_are_escaped() {
    assert_eq!(escape_single_quotes("it's"), "it'\\''s");
    assert_eq!(escape_single_quotes("plain"), "plain");
    assert_eq!(escape_single_quotes(""), "");
}

#[test]
fn command_batch_builds_one_script() {
    let mut b = TmuxCommandBatch::new();
    assert!(b.is_empty());
    b.add_command(&["list-sessions"]);
    b.add_command(&["kill-session", "-t", "old"]);
    assert!(!b.is_empty());
    assert_eq!(b.script(), "list-sessions \\; kill-session -t old");
}

#[test]
fn window_listing_is_parsed() {
    let out = "0:bash:1:2\n\n1:vim:0:x\nbad:line:1:1\n2:short\n";
    let windows = parse_window_list(out);
    let got: Vec<(u32, String, bool, u32)> =
        windows.into_iter().map(|w| (w.index, w.name, w.active, w.panes)).collect();
    assert_eq!(got, vec![(0, "bash".to_string(), true, 2), (1, "vim".to_string(), false, 1)]);
}

#[test]
fn session_listing_is_parsed() {
    let out = "main:1:1700000000:3:80x24\r\nside:0:-5:x:100x30\nbroken:0:soon:1:1x1\n";
    let sessions = parse_session_list(out);
    let got: Vec<(String, bool, i64, u32, String)> = sessions
        .into_iter()
        .map(|s| (s.name, s.attached, s.created, s.windows, s.dimensions))
        .collect();
    assert_eq!(
        got,
        vec![
            ("main".to_string(), true, 1700000000, 3, "80x24".to_string()),
            ("side".to_string(), false, -5, 0, "100x30".to_string()),
        ]
    );
}

#[test]
fn app_errors_map_to_status_and_message() {
    let e = AppError::NotFound("no such session".to_string());
    assert_eq!(e.status_code(), 404);
    assert_eq!(e.client_message(), "no such session");
    let e = AppError::Internal("disk on fire".to_string());
    assert_eq!(e.status_code(), 500);
    assert_eq!(e.client_message(), "Internal server error");
    assert_eq!(AppError::SessionError("busy".to_string()).status_code(), 409);
}

#[test]
fn session_is_created_only_when_not_listed() {
    let listing = parse_session_list("main:1:1700000000:3:80x24\n");
    assert!(!must_create_session(Some(&listing), "main"));
    assert!(must_create_session(Some(&listing), "other"));
    assert!(must_create_session(None, "main"));
}
