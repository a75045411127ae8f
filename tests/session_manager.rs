use std::collections::VecDeque;
use webmux::input_batch::{plan_input_batch, InputAction, InputCommand};
use webmux::shared_session::{
    AddOutcome, CaptureAction, CaptureOutcome, ManagerConfig, OptimizedSessionManager,
    RemoveOutcome, SessionError, SessionRequest, GRACE_PERIOD_MS,
};

fn manager() -> OptimizedSessionManager {
    OptimizedSessionManager::new(ManagerConfig::default())
}

fn ready_session(m: &mut OptimizedSessionManager, name: &str) {
    assert_eq!(m.request_session(name), SessionRequest::Create);
    assert!(m.session_ready(name));
}

fn describe(actions: &[InputAction]) -> Vec<String> {
    actions
        .iter()
        .map(|a| match a {
            InputAction::SendText(t) => format!("text:{}", t),
            InputAction::SendSpecialKey(k) => format!("key:{}", k),
            InputAction::Resize(c, r) => format!("resize:{}x{}", c, r),
        })
        .collect()
}

#[test]
fn default_config_values() {
    let c = ManagerConfig::default();
    assert_eq!(c.capture_interval_ms, 33);
    assert_eq!(c.max_input_batch, 100);
    assert_eq!(c.input_batch_timeout_ms, 5);
    assert_eq!(c.max_buffer_size, 10 * 1024 * 1024);
    assert_eq!(c.max_concurrent_captures, 10);
}

#[test]
fn first_joins_create_the_missing_session_once() {
    let mut m = manager();
    assert_eq!(m.add_client_to_session("new", "c1".to_string()), AddOutcome::CreateSession);
    assert_eq!(m.add_client_to_session("new", "c2".to_string()), AddOutcome::Joined);
    assert_eq!(m.request_session("new"), SessionRequest::Join);
    assert!(m.session_ready("new"));
    assert_eq!(m.remove_client_from_session("new", "c1", 0), RemoveOutcome::Removed);
    assert_eq!(m.remove_client_from_session("new", "c2", 0), RemoveOutcome::LastClientLeft);
}

#[test]
fn concurrent_joins_create_the_session_once() {
    let mut m = manager();
    assert_eq!(m.request_session("work"), SessionRequest::Create);
    assert_eq!(m.request_session("work"), SessionRequest::Join);
    assert_eq!(m.add_client_to_session("work", "a".to_string()), AddOutcome::Joined);
    assert_eq!(m.add_client_to_session("work", "b".to_string()), AddOutcome::Joined);
    assert!(m.session_ready("work"));
    assert_eq!(m.request_session("work"), SessionRequest::Join);
}

#[test]
fn last_client_leaving_cancels_capture_and_grace_period_applies() {
    let mut m = manager();
    ready_session(&mut m, "s");
    assert_eq!(m.add_client_to_session("s", "a".to_string()), AddOutcome::Joined);
    assert_eq!(m.add_client_to_session("s", "b".to_string()), AddOutcome::Joined);
    assert_eq!(m.remove_client_from_session("s", "a", 1000), RemoveOutcome::Removed);
    assert_eq!(m.remove_client_from_session("s", "b", 1000), RemoveOutcome::LastClientLeft);
    // Within the grace period the session stays and is reused.
    assert!(!m.expire_idle_session("s", 1000 + GRACE_PERIOD_MS - 1));
    assert_eq!(m.request_session("s"), SessionRequest::Join);
    assert_eq!(m.add_client_to_session("s", "c".to_string()), AddOutcome::RestartCapture);
    assert_eq!(m.remove_client_from_session("s", "c", 5000), RemoveOutcome::LastClientLeft);
    // After the grace period with no client it is removed.
    assert!(!m.expire_idle_session("s", 5000 + GRACE_PERIOD_MS - 1));
    assert!(m.expire_idle_session("s", 5000 + GRACE_PERIOD_MS));
    assert_eq!(m.request_session("s"), SessionRequest::Create);
}

#[test]
fn session_with_clients_never_expires() {
    let mut m = manager();
    ready_session(&mut m, "s");
    assert_eq!(m.add_client_to_session("s", "a".to_string()), AddOutcome::Joined);
    assert!(!m.expire_idle_session("s", u64::MAX));
}

#[test]
fn unknown_session_errors() {
    let mut m = manager();
    assert_eq!(m.remove_client_from_session("none", "a", 0), RemoveOutcome::NoSuchSession);
    assert_eq!(m.send_input("none", "x"), Err(SessionError::NotFound));
    assert_eq!(m.send_special_key("none", "Enter"), Err(SessionError::NotFound));
    assert_eq!(m.resize_session("none", 80, 24), Err(SessionError::NotFound));
    assert!(m.get_session_stats("none").is_none());
    assert!(m.next_input_batch("none").is_none());
    assert!(m.capture_result("none", CaptureOutcome::Failed).is_none());
}

#[test]
fn failed_setup_forgets_the_session() {
    let mut m = manager();
    assert_eq!(m.request_session("s"), SessionRequest::Create);
    m.session_failed("s");
    assert_eq!(m.request_session("s"), SessionRequest::Create);
}

#[test]
fn input_is_batched_in_order() {
    let mut m = manager();
    ready_session(&mut m, "s");
    assert_eq!(m.send_input("s", "l"), Ok(()));
    assert_eq!(m.send_input("s", "s"), Ok(()));
    assert_eq!(m.send_special_key("s", "Enter"), Ok(()));
    assert_eq!(m.send_input("s", "pwd"), Ok(()));
    assert_eq!(m.resize_session("s", 120, 40), Ok(()));
    assert_eq!(m.send_input("s", "x"), Ok(()));
    let batch = m.next_input_batch("s").expect("session");
    assert_eq!(
        describe(&batch),
        vec!["text:ls", "key:Enter", "text:pwd", "resize:120x40", "text:x"]
    );
    assert!(m.next_input_batch("s").expect("session").is_empty());
}

#[test]
fn batch_takes_at_most_the_limit() {
    let mut q: VecDeque<InputCommand> = VecDeque::new();
    for t in ["a", "b", "c"] {
        q.push_back(InputCommand::Text(t.to_string()));
    }
    q.push_back(InputCommand::SpecialKey("Tab".to_string()));
    let first = plan_input_batch(&mut q, 2);
    assert_eq!(describe(&first), vec!["text:ab"]);
    assert_eq!(q.len(), 2);
    let rest = plan_input_batch(&mut q, 10);
    assert_eq!(describe(&rest), vec!["text:c", "key:Tab"]);
    assert!(q.is_empty());
}

#[test]
fn empty_text_is_not_sent() {
    let mut q: VecDeque<InputCommand> = VecDeque::new();
    q.push_back(InputCommand::Text(String::new()));
    q.push_back(InputCommand::SpecialKey("Enter".to_string()));
    assert_eq!(describe(&plan_input_batch(&mut q, 10)), vec!["key:Enter"]);
}

#[test]
fn capture_broadcasts_only_changes() {
    let mut m = manager();
    ready_session(&mut m, "s");
    assert!(matches!(m.capture_result("s", CaptureOutcome::Captured("hi".to_string())), Some(CaptureAction::Idle)));
    assert!(!m.has_clients("s"));
    assert_eq!(m.add_client_to_session("s", "a".to_string()), AddOutcome::Joined);
    assert!(m.has_clients("s"));
    match m.capture_result("s", CaptureOutcome::Captured("hi".to_string())) {
        Some(CaptureAction::Broadcast(frame)) => assert_eq!(frame, vec![0x01, 2, 0, 0, 0, b'h', b'i']),
        _ => panic!("expected a broadcast"),
    }
    assert!(matches!(m.capture_result("s", CaptureOutcome::Captured("hi".to_string())), Some(CaptureAction::Unchanged)));
    let stats = m.get_session_stats("s").expect("stats");
    assert_eq!(stats.total_captures, 1);
    assert_eq!(stats.bytes_captured, 2);
}

#[test]
fn capture_stops_after_ten_consecutive_failures() {
    let mut m = manager();
    ready_session(&mut m, "s");
    assert_eq!(m.add_client_to_session("s", "a".to_string()), AddOutcome::Joined);
    for _ in 0..9 {
        assert!(matches!(m.capture_result("s", CaptureOutcome::Failed), Some(CaptureAction::RetryLater)));
    }
    assert!(matches!(m.capture_result("s", CaptureOutcome::Failed), Some(CaptureAction::Stop)));
    assert_eq!(m.get_session_stats("s").expect("stats").capture_errors, 10);
    // The loop is gone: a new client restarts it.
    assert_eq!(m.add_client_to_session("s", "b".to_string()), AddOutcome::RestartCapture);
}

#[test]
fn success_resets_the_failure_count() {
    let mut m = manager();
    ready_session(&mut m, "s");
    assert_eq!(m.add_client_to_session("s", "a".to_string()), AddOutcome::Joined);
    for _ in 0..9 {
        m.capture_result("s", CaptureOutcome::Failed);
    }
    m.capture_result("s", CaptureOutcome::Captured("x".to_string()));
    assert!(matches!(m.capture_result("s", CaptureOutcome::Failed), Some(CaptureAction::RetryLater)));
}

#[test]
fn oversized_capture_is_rejected_by_the_buffer() {
    let mut config = ManagerConfig::default();
    config.max_buffer_size = 8;
    let mut m = OptimizedSessionManager::new(config);
    ready_session(&mut m, "s");
    assert_eq!(m.add_client_to_session("s", "a".to_string()), AddOutcome::Joined);
    assert!(matches!(m.capture_result("s", CaptureOutcome::Captured("too long".to_string())), Some(CaptureAction::BufferRejected)));
    assert_eq!(m.get_session_stats("s").expect("stats").capture_errors, 1);
}

#[test]
fn failed_clients_are_pruned_after_broadcast() {
    let mut m = manager();
    ready_session(&mut m, "s");
    for id in ["a", "b", "c"] {
        assert_eq!(m.add_client_to_session("s", id.to_string()), AddOutcome::Joined);
    }
    m.prune_clients("s", &vec!["a".to_string(), "c".to_string()]);
    assert_eq!(m.remove_client_from_session("s", "b", 0), RemoveOutcome::LastClientLeft);
}

#[test]
fn input_results_are_counted() {
    let mut m = manager();
    ready_session(&mut m, "s");
    m.record_input_result("s", false);
    m.record_input_result("s", true);
    m.record_input_result("s", true);
    let stats = m.get_session_stats("s").expect("stats");
    assert_eq!(stats.total_inputs, 1);
    assert_eq!(stats.input_errors, 2);
}
