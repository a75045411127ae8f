use webmux::terminal_delta::{render_delta, snapshot_delta, TerminalDeltaTracker};
use webmux::terminal_parse::{parse_terminal_output, MAX_LINES};

fn lines_of(data: &str) -> Vec<String> {
    parse_terminal_output(data).lines.iter().map(|l| l.content.clone()).collect()
}

#[test]
fn first_delta_sends_everything() {
    let mut t = TerminalDeltaTracker::new();
    let snap = t.parse_terminal_output("one\ntwo\nthree");
    let d = t.compute_delta("c1", &snap).expect("first delta");
    assert!(d.clear_screen);
    assert_eq!(d.changes.len(), 3);
    let texts: Vec<&str> = d.changes.iter().map(|c| c.content.as_str()).collect();
    assert_eq!(texts, vec!["one", "two", "three"]);
    let numbers: Vec<u32> = d.changes.iter().map(|c| c.line_number).collect();
    assert_eq!(numbers, vec![0, 1, 2]);
    assert_eq!(d.cursor_row, Some(2));
    assert_eq!(d.cursor_col, Some(5));
    assert_eq!(d.viewport_top, Some(0));
}

#[test]
fn identical_snapshot_twice_gives_none() {
    let mut t = TerminalDeltaTracker::new();
    let a = t.parse_terminal_output("$ ls\nfile\n");
    let b = t.parse_terminal_output("$ ls\nfile\n");
    assert!(t.compute_delta("c", &a).is_some());
    assert!(t.compute_delta("c", &b).is_none());
}

#[test]
fn shrinking_below_half_clears_screen() {
    let mut t = TerminalDeltaTracker::new();
    let big = t.parse_terminal_output("a\nb\nc\nd\ne\nf");
    t.compute_delta("c", &big);
    let small = t.parse_terminal_output("x\ny");
    let d = t.compute_delta("c", &small).expect("delta");
    assert!(d.clear_screen);
    let texts: Vec<&str> = d.changes.iter().map(|c| c.content.as_str()).collect();
    assert_eq!(texts, vec!["x", "y"]);
}

#[test]
fn moderate_shrink_blanks_removed_lines() {
    let mut t = TerminalDeltaTracker::new();
    let old = t.parse_terminal_output("a\nb\nc\nd");
    t.compute_delta("c", &old);
    let new = t.parse_terminal_output("a\nb\nc");
    let d = t.compute_delta("c", &new).expect("delta");
    assert!(!d.clear_screen);
    assert_eq!(d.changes.len(), 1);
    assert_eq!(d.changes[0].line_number, 3);
    assert_eq!(d.changes[0].content, "");
    assert_eq!(d.changes[0].hash, 0);
}

#[test]
fn prompt_scenario_never_resends_identical_lines() {
    let mut t = TerminalDeltaTracker::new();
    let s1 = t.parse_terminal_output("$ ");
    let d1 = t.compute_delta("client", &s1).expect("first");
    assert!(d1.clear_screen);
    assert_eq!(d1.changes.len(), 1);
    assert_eq!(d1.changes[0].line_number, 0);
    assert_eq!(d1.changes[0].content, "$ ");

    let s2 = t.parse_terminal_output("$ ls\n");
    let d2 = t.compute_delta("client", &s2).expect("second");
    assert!(!d2.clear_screen);
    let c2: Vec<(u32, &str)> = d2.changes.iter().map(|c| (c.line_number, c.content.as_str())).collect();
    assert_eq!(c2, vec![(0, "$ ls"), (1, "")]);
    assert_eq!(d2.cursor_row, Some(1));
    assert_eq!(d2.cursor_col, Some(0));
    assert_eq!(d2.viewport_top, None);

    let s3 = t.parse_terminal_output("$ ls\nfile.txt\n$ ");
    let d3 = t.compute_delta("client", &s3).expect("third");
    let c3: Vec<(u32, &str)> = d3.changes.iter().map(|c| (c.line_number, c.content.as_str())).collect();
    assert_eq!(c3, vec![(1, "file.txt"), (2, "$ ")]);
    assert_eq!(d3.cursor_row, Some(2));
    assert_eq!(d3.cursor_col, Some(2));
}

#[test]
fn clients_are_tracked_separately_and_removed() {
    let mut t = TerminalDeltaTracker::new();
    let s = t.parse_terminal_output("hello");
    assert!(t.compute_delta("a", &s).is_some());
    assert!(t.compute_delta("b", &s).expect("b is new").clear_screen);
    t.remove_client("a");
    assert!(t.compute_delta("a", &s).expect("a is new again").clear_screen);
}

#[test]
fn carriage_return_overwrites_in_place() {
    assert_eq!(lines_of("abcd\rXY"), vec!["XYcd"]);
}

#[test]
fn clear_screen_sequence_wipes_lines() {
    let snap = parse_terminal_output("old\nlines\n\x1b[2Jnew");
    let texts: Vec<String> = snap.lines.iter().map(|l| l.content.clone()).collect();
    assert_eq!(texts, vec!["new"]);
    assert_eq!(snap.cursor_row, 0);
    assert_eq!(snap.cursor_col, 3);
}

#[test]
fn clear_to_end_of_line_truncates_at_cursor() {
    assert_eq!(lines_of("abcdef\r\x1b[3C\x1b[K"), vec![""]);
    assert_eq!(lines_of("abcdef\rab\x1b[K"), vec!["ab"]);
}

#[test]
fn cursor_position_sequence_moves_cursor() {
    let snap = parse_terminal_output("\x1b[5;10H");
    assert_eq!(snap.cursor_row, 4);
    assert_eq!(snap.cursor_col, 9);
    let snap = parse_terminal_output("\x1b[;H");
    assert_eq!((snap.cursor_row, snap.cursor_col), (0, 0));
    let snap = parse_terminal_output("ab\x1b[7H");
    assert_eq!((snap.cursor_row, snap.cursor_col), (0, 2));
}

#[test]
fn unknown_sequences_are_skipped() {
    assert_eq!(lines_of("\x1b[31mred\x1b[0m"), vec!["red"]);
    assert_eq!(lines_of("a\x1bXb"), vec!["aXb"]);
}

#[test]
fn cursor_past_lines_adds_empty_line() {
    assert_eq!(lines_of("a\n"), vec!["a", ""]);
    assert!(lines_of("").len() == 1);
}

#[test]
fn history_is_capped() {
    let mut text = String::new();
    for i in 0..(MAX_LINES + 5) {
        text.push_str(&format!("line{}\n", i));
    }
    let snap = parse_terminal_output(&text);
    assert_eq!(snap.lines.len(), MAX_LINES);
    assert_eq!(snap.lines[0].content, "line6");
    assert_eq!(snap.viewport_top, MAX_LINES + 5 - 24);
    assert_eq!(snap.viewport_height, 24);
}

#[test]
fn equal_lines_hash_equal_and_different_lines_differ() {
    let snap = parse_terminal_output("same\nsame\nother");
    assert_eq!(snap.lines[0].hash, snap.lines[1].hash);
    assert_ne!(snap.lines[0].hash, snap.lines[2].hash);
    assert_eq!(snap.lines[0].hash, xxhash_rust::xxh3::xxh3_64(b"same"));
}

#[test]
fn render_delta_writes_escape_sequences() {
    let old = parse_terminal_output("a");
    let new = parse_terminal_output("a\nbc");
    let d = snapshot_delta(Some(&old), &new).expect("delta");
    assert_eq!(render_delta(&d), "\x1b[2;1H\x1b[2Kbc\x1b[2;3H");
    let first = snapshot_delta(None, &new).expect("delta");
    assert_eq!(render_delta(&first), "\x1b[2J\x1b[H\x1b[1;1H\x1b[2Ka\x1b[2;1H\x1b[2Kbc\x1b[2;3H");
}

#[test]
fn two_of_five_lines_is_fewer_than_half_and_clears() {
    let mut t = TerminalDeltaTracker::new();
    let old = t.parse_terminal_output("a\nb\nc\nd\ne");
    t.compute_delta("c", &old);
    let new = t.parse_terminal_output("a\nb");
    let d = t.compute_delta("c", &new).expect("delta");
    assert!(d.clear_screen);
    assert_eq!(d.changes.len(), 2);
}

#[test]
fn exactly_half_is_a_line_diff() {
    let mut t = TerminalDeltaTracker::new();
    let old = t.parse_terminal_output("a\nb\nc\nd");
    t.compute_delta("c", &old);
    let new = t.parse_terminal_output("a\nb");
    let d = t.compute_delta("c", &new).expect("delta");
    assert!(!d.clear_screen);
    let blanks: Vec<u32> = d.changes.iter().map(|c| c.line_number).collect();
    assert_eq!(blanks, vec![2, 3]);
}
