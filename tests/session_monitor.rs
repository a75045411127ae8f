use webmux::monitor::{count_panes, PaneCount, TmuxMonitor};
use webmux::types::{TmuxSession, TmuxWindow};

fn session(name: &str, windows: u32) -> TmuxSession {
    TmuxSession { name: name.to_string(), attached: false, created: 1, windows, dimensions: "80x24".to_string() }
}

fn window(index: u32, panes: u32) -> TmuxWindow {
    TmuxWindow { index, name: format!("w{}", index), active: index == 0, panes }
}

#[test]
fn pane_counts_add_up() {
    let c = count_panes("main", &vec![window(0, 2), window(1, 3)]);
    assert_eq!((c.session.as_str(), c.windows, c.panes), ("main", 2, 5));
    let none = count_panes("empty", &Vec::new());
    assert_eq!((none.windows, none.panes), (0, 0));
}

#[test]
fn only_changes_are_announced() {
    let mut m = TmuxMonitor::new();
    let counts = || vec![count_panes("a", &vec![window(0, 1)])];
    assert!(m.observe(vec![session("a", 1)], counts()));
    assert!(!m.observe(vec![session("a", 1)], counts()));
    assert!(m.observe(vec![session("a", 1), session("b", 1)], counts()));
    assert_eq!(m.sessions().len(), 2);
    let more_panes = vec![
        PaneCount { session: "a".to_string(), windows: 1, panes: 2 },
    ];
    assert!(m.observe(vec![session("a", 1), session("b", 1)], more_panes));
    assert!(m.observe(Vec::new(), Vec::new()));
    assert!(m.sessions().is_empty());
}
