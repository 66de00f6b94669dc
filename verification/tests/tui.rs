use h41::ports::PortEntry;
use h41::server::{check_kill_request, kill_result_status, listen_address, REQUESTED_WITH_HEADER};
use h41::tui::{
    address_cell, help_toggle_label, pid_cell, spinner_frame, url_for, AppState, Effect, Key,
    KeyPress,
};

fn entry(pid: i64, name: &str, cwd: Option<&str>, listen: &[&str]) -> PortEntry {
    PortEntry {
        pid,
        name: name.to_string(),
        args: None,
        listen: listen.iter().map(|s| s.to_string()).collect(),
        cwd: cwd.map(|s| s.to_string()),
    }
}

fn key(c: char) -> KeyPress {
    KeyPress { key: Key::Char(c), ctrl: false }
}

fn special(k: Key) -> KeyPress {
    KeyPress { key: k, ctrl: false }
}

fn loaded(entries: Vec<PortEntry>) -> AppState {
    let mut s = AppState::new(false);
    assert!(s.start_refresh(false));
    s.finish_refresh(Some(entries));
    s
}

fn sample() -> Vec<PortEntry> {
    vec![
        entry(10, "node", Some("/Users/me/app"), &["*:3000"]),
        entry(11, "postgres", Some("/usr/local/var"), &["localhost:5432"]),
        entry(12, "vite", Some("/Users/me/web"), &["[::1]:5173", "*:5174"]),
    ]
}

fn shown_pids(s: &AppState) -> Vec<i64> {
    s.filtered_entries().iter().map(|e| e.pid).collect()
}

#[test]
fn user_processes_only_by_default_and_all_after_a() {
    let mut s = loaded(sample());
    assert_eq!(vec![10, 12], shown_pids(&s));
    assert!(matches!(s.handle_key(key('a')), Effect::Continue));
    assert!(s.show_all);
    assert_eq!(Some("Showing all processes".to_string()), s.status_message);
    assert_eq!(vec![10, 11, 12], shown_pids(&s));
    s.handle_key(key('a'));
    assert_eq!(Some("Showing user processes only".to_string()), s.status_message);
    assert_eq!(vec![10, 12], shown_pids(&s));
}

#[test]
fn filter_matches_any_field_ignoring_case() {
    let mut s = loaded(sample());
    s.handle_key(key('a'));
    s.handle_key(key('/'));
    assert!(s.filtering);
    for c in "POST".chars() {
        s.handle_key(key(c));
    }
    assert_eq!("POST", s.filter);
    assert_eq!(vec![11], shown_pids(&s));
    s.handle_key(special(Key::Backspace));
    s.handle_key(special(Key::Backspace));
    s.handle_key(special(Key::Backspace));
    s.handle_key(special(Key::Backspace));
    assert_eq!("", s.filter);
    for c in "5173".chars() {
        s.handle_key(key(c));
    }
    assert_eq!(vec![12], shown_pids(&s));
    s.handle_key(special(Key::Enter));
    assert!(!s.filtering);
    assert_eq!(vec![12], shown_pids(&s));
}

#[test]
fn typing_then_erasing_restores_the_filter() {
    let mut s = loaded(sample());
    s.handle_key(key('/'));
    s.handle_key(key('n'));
    s.handle_key(special(Key::Backspace));
    assert_eq!("", s.filter);
    s.handle_key(special(Key::Backspace));
    assert_eq!("", s.filter);
    // While filtering, q and ctrl-c are text, not quit.
    assert!(matches!(s.handle_key(key('q')), Effect::Continue));
    assert!(matches!(s.handle_key(KeyPress { key: Key::Char('c'), ctrl: true }), Effect::Continue));
    assert_eq!("qc", s.filter);
    s.handle_key(special(Key::Esc));
    assert!(!s.filtering);
}

#[test]
fn quit_keys() {
    let mut s = loaded(sample());
    assert!(matches!(s.handle_key(key('q')), Effect::Quit));
    assert!(matches!(s.handle_key(special(Key::Esc)), Effect::Quit));
    assert!(matches!(s.handle_key(KeyPress { key: Key::Char('c'), ctrl: true }), Effect::Quit));
    assert!(matches!(s.handle_key(key('c')), Effect::Continue));
}

#[test]
fn moving_the_selection_stays_within_the_rows() {
    let mut s = loaded(sample());
    s.sync_selection();
    assert_eq!(Some(0), s.selected);
    s.handle_key(key('j'));
    assert_eq!(Some(1), s.selected);
    s.handle_key(special(Key::Down));
    assert_eq!(Some(1), s.selected);
    s.handle_key(key('k'));
    assert_eq!(Some(0), s.selected);
    s.handle_key(special(Key::Up));
    assert_eq!(Some(0), s.selected);
}

#[test]
fn selection_settles_on_what_is_shown() {
    let mut s = loaded(Vec::new());
    s.handle_key(key('k'));
    assert_eq!(Some(0), s.selected);
    s.sync_selection();
    assert_eq!(None, s.selected);
    s.handle_key(key('j'));
    assert_eq!(None, s.selected);
}

#[test]
fn kill_asks_first_and_cancels_on_other_keys() {
    let mut s = loaded(sample());
    s.sync_selection();
    s.handle_key(key('j'));
    assert!(matches!(s.handle_key(key('x')), Effect::Continue));
    assert_eq!(Some("Kill vite (PID 12)? y/N".to_string()), s.status_message);
    assert_eq!(Some(12), s.confirm_kill.as_ref().map(|e| e.pid));
    assert!(matches!(s.handle_key(key('n')), Effect::Continue));
    assert!(s.confirm_kill.is_none());
    assert_eq!(Some("Kill cancelled".to_string()), s.status_message);

    s.handle_key(key('x'));
    match s.handle_key(key('Y')) {
        Effect::Kill(pid) => assert_eq!(12, pid),
        other => panic!("expected a kill, got {:?}", other),
    }
    assert!(s.confirm_kill.is_none());
    assert!(s.finish_kill(12, true));
    assert_eq!(Some("Killed PID 12".to_string()), s.status_message);
    assert!(s.refreshing);
    assert!(!s.finish_kill(-5, false));
    assert_eq!(Some("Failed to kill PID -5".to_string()), s.status_message);
}

#[test]
fn open_builds_the_url_of_the_first_address() {
    let mut s = loaded(sample());
    s.sync_selection();
    match s.handle_key(special(Key::Enter)) {
        Effect::Open(url) => assert_eq!("http://localhost:3000", url),
        other => panic!("expected an open, got {:?}", other),
    }
    s.finish_open("http://localhost:3000", true);
    assert_eq!(Some("Opened http://localhost:3000".to_string()), s.status_message);
    s.finish_open("http://localhost:3000", false);
    assert_eq!(Some("Failed to open browser".to_string()), s.status_message);
    assert_eq!("http://localhost:80", url_for(&"*:80".to_string()));
}

#[test]
fn refresh_runs_one_at_a_time_and_reports() {
    let mut s = AppState::new(false);
    assert!(matches!(s.handle_key(key('r')), Effect::StartRefresh));
    assert!(matches!(s.handle_key(key('r')), Effect::Continue));
    assert!(s.shows_loader());
    s.finish_refresh(Some(sample()));
    assert!(!s.refreshing);
    assert_eq!(Some("Refreshed".to_string()), s.status_message);
    assert!(!s.shows_loader());
    assert!(s.start_refresh(false));
    assert!(s.shows_refresh_badge());
    s.finish_refresh(None);
    assert_eq!(Some("Refresh failed".to_string()), s.status_message);
    assert_eq!(3, s.entries.len());
}

#[test]
fn a_new_listing_pulls_the_selection_back() {
    let mut s = loaded(sample());
    s.selected = Some(5);
    assert!(s.start_refresh(false));
    s.finish_refresh(Some(sample()));
    assert_eq!(Some(1), s.selected);
}

#[test]
fn status_serial_counts_messages() {
    let mut s = AppState::new(false);
    let before = s.status_serial;
    s.set_status("a".to_string());
    s.set_status("a".to_string());
    assert_eq!(before + 2, s.status_serial);
    s.status_serial = u64::MAX;
    s.set_status("b".to_string());
    assert_eq!(0, s.status_serial);
}

#[test]
fn text_of_the_view() {
    let mut s = loaded(sample());
    assert_eq!(" h41 — Listening Ports", s.header_text());
    s.handle_key(key('/'));
    s.handle_key(key('x'));
    assert_eq!(" Filter: x▌", s.header_text());
    s.set_status("hello".to_string());
    assert_eq!(" hello", s.status_text(2_999_999_999));
    assert_eq!(" ", s.status_text(3_000_000_000));
    assert!(s.should_auto_refresh(30_000_000_001));
    assert!(!s.should_auto_refresh(30_000_000_000));
    assert_eq!("show-all", help_toggle_label(false));
    assert_eq!("user-only", help_toggle_label(true));
    let e = entry(-42, "x", None, &["*:1", "[::1]:2"]);
    assert_eq!("localhost:1, [::1]:2", address_cell(&e));
    assert_eq!("-42", pid_cell(&e));
    assert_eq!("⠋", spinner_frame(0));
    assert_eq!("⠙", spinner_frame(199));
    assert_eq!("⠏", spinner_frame(950));
    assert_eq!("⠋", spinner_frame(1000));
}

#[test]
fn kill_endpoint_refuses_without_header_or_with_bad_pid() {
    assert_eq!(Err(403), check_kill_request(false, 42));
    assert_eq!(Err(403), check_kill_request(false, -1));
    assert_eq!(Err(400), check_kill_request(true, 0));
    assert_eq!(Err(400), check_kill_request(true, -7));
    assert_eq!(Ok(42), check_kill_request(true, 42));
    assert_eq!(200, kill_result_status(Some(true)));
    assert_eq!(500, kill_result_status(Some(false)));
    assert_eq!(500, kill_result_status(None));
}

#[test]
fn web_interface_listens_on_loopback_only() {
    assert_eq!(([127, 0, 0, 1], 8941), listen_address(8941));
    assert_eq!(([127, 0, 0, 1], 80), listen_address(80));
    assert_eq!("x-requested-with", REQUESTED_WITH_HEADER);
}

#[test]
fn longer_filter_or_hiding_never_adds_rows() {
    let mut s = loaded(sample());
    s.handle_key(key('a'));
    assert_eq!(vec![10, 11, 12], shown_pids(&s));
    s.handle_key(key('/'));
    s.handle_key(key('O'));
    let with_o = shown_pids(&s);
    assert_eq!(vec![10, 11], with_o);
    s.handle_key(key('c'));
    let with_oc = shown_pids(&s);
    assert_eq!(vec![11], with_oc);
    assert!(with_oc.iter().all(|p| with_o.contains(p)));
    s.handle_key(special(Key::Backspace));
    s.handle_key(special(Key::Enter));
    assert_eq!(vec![10, 11], shown_pids(&s));
    s.handle_key(key('a'));
    assert!(!s.show_all);
    assert_eq!(vec![10], shown_pids(&s));
}
