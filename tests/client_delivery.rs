use std::collections::VecDeque;
use webmux::client_manager::{group_batch, MAX_BATCH_SIZE};
use webmux::client_manager::{
    combine_terminal_outputs, OptimizedClientManager, OptimizedMessage, SendDecision,
    BACKPRESSURE_THRESHOLD,
};
use webmux::protocol::MAX_MESSAGE_SIZE;

#[test]
fn exhausted_permits_drop_sends() {
    let mut m = OptimizedClientManager::new();
    m.add_client("c".to_string(), true);
    for _ in 0..BACKPRESSURE_THRESHOLD {
        assert_eq!(m.send_to_client("c"), SendDecision::Deliver);
    }
    assert_eq!(m.send_to_client("c"), SendDecision::Dropped);
    assert_eq!(m.send_to_client("c"), SendDecision::Dropped);
    m.release_permit("c");
    assert_eq!(m.send_to_client("c"), SendDecision::Deliver);
    assert_eq!(m.send_to_client("c"), SendDecision::Dropped);
}

#[test]
fn unknown_client_is_reported() {
    let mut m = OptimizedClientManager::new();
    assert_eq!(m.send_to_client("nobody"), SendDecision::UnknownClient);
    m.add_client("c".to_string(), false);
    m.remove_client("c");
    assert_eq!(m.send_to_client("c"), SendDecision::UnknownClient);
}

#[test]
fn releases_never_exceed_the_threshold() {
    let mut m = OptimizedClientManager::new();
    m.add_client("c".to_string(), true);
    m.release_permit("c");
    for _ in 0..BACKPRESSURE_THRESHOLD {
        assert_eq!(m.send_to_client("c"), SendDecision::Deliver);
    }
    assert_eq!(m.send_to_client("c"), SendDecision::Dropped);
}

fn out(b: &[u8]) -> OptimizedMessage {
    OptimizedMessage::TerminalOutput(b.to_vec())
}

fn shape(ms: &[OptimizedMessage]) -> Vec<String> {
    ms.iter()
        .map(|m| match m {
            OptimizedMessage::TerminalOutput(b) => format!("out:{}", String::from_utf8_lossy(b)),
            OptimizedMessage::Binary(b) => format!("bin:{}", b.len()),
            OptimizedMessage::Json(s) => format!("json:{}", s),
        })
        .collect()
}

#[test]
fn consecutive_outputs_are_merged_around_other_messages() {
    let msgs = vec![
        out(b"ab"),
        out(b"cd"),
        OptimizedMessage::Json("{}".to_string()),
        out(b"e"),
        OptimizedMessage::Binary(vec![7]),
    ];
    assert_eq!(shape(&combine_terminal_outputs(&msgs)), vec!["out:abcd", "json:{}", "out:e", "bin:1"]);
}

#[test]
fn merged_output_stays_within_the_message_limit() {
    let big = vec![b'x'; MAX_MESSAGE_SIZE - 1];
    let msgs = vec![OptimizedMessage::TerminalOutput(big), out(b"yz")];
    let combined = combine_terminal_outputs(&msgs);
    assert_eq!(combined.len(), 2);
    match (&combined[0], &combined[1]) {
        (OptimizedMessage::TerminalOutput(a), OptimizedMessage::TerminalOutput(b)) => {
            assert_eq!(a.len(), MAX_MESSAGE_SIZE - 1);
            assert_eq!(b, &b"yz".to_vec());
        }
        _ => panic!("expected two outputs"),
    }
}

#[test]
fn no_messages_gives_none() {
    assert!(combine_terminal_outputs(&Vec::new()).is_empty());
}

#[test]
fn batch_groups_messages_per_client_in_order() {
    let mut q: VecDeque<(String, OptimizedMessage)> = VecDeque::new();
    q.push_back(("a".to_string(), out(b"1")));
    q.push_back(("b".to_string(), out(b"x")));
    q.push_back(("a".to_string(), out(b"2")));
    q.push_back(("a".to_string(), OptimizedMessage::Json("{}".to_string())));
    let groups = group_batch(&mut q);
    assert!(q.is_empty());
    let got: Vec<(String, Vec<String>)> = groups.iter().map(|(id, ms)| (id.clone(), shape(ms))).collect();
    assert_eq!(
        got,
        vec![
            ("a".to_string(), vec!["out:12".to_string(), "json:{}".to_string()]),
            ("b".to_string(), vec!["out:x".to_string()]),
        ]
    );
    for i in 0..(MAX_BATCH_SIZE + 3) {
        q.push_back((format!("c{}", i % 2), out(b"z")));
    }
    let groups = group_batch(&mut q);
    assert_eq!(q.len(), 3);
    assert_eq!(groups.len(), 2);
    assert!(group_batch(&mut VecDeque::new()).is_empty());
}
