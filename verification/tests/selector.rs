use net_use::key::{Key, KeyInput};
use net_use::selector::{row_line, row_segments, AppSelector, SelectorAction, Tone};
use net_use::types::{AppInfo, AppMonitorState};

fn test_app(state: AppMonitorState) -> AppInfo {
    AppInfo {
        display_name: "Chrome".to_string(),
        bundle_id: Some("com.google.Chrome".to_string()),
        executable_name: "Chrome".to_string(),
        app_path: Some("/Applications/Google Chrome.app".to_string()),
        pid: Some(1234),
        monitor_state: state,
    }
}

fn curl() -> AppInfo {
    AppInfo {
        display_name: "curl".to_string(),
        bundle_id: None,
        executable_name: "curl".to_string(),
        app_path: None,
        pid: Some(42),
        monitor_state: AppMonitorState::Unmonitored,
    }
}

fn key(code: Key) -> KeyInput {
    KeyInput { code, ctrl: false }
}

#[test]
fn test_row_displays_monitoring_state_label() {
    let monitoring = row_line(&test_app(AppMonitorState::Monitoring));
    let paused = row_line(&test_app(AppMonitorState::Paused));
    let idle = row_line(&test_app(AppMonitorState::Unmonitored));

    assert!(monitoring.contains("[MONITORING]"));
    assert!(paused.contains("[PAUSED]"));
    assert!(idle.contains("[IDLE]"));
}

#[test]
fn test_filter_behavior_unchanged_with_monitor_state() {
    let mut selector = AppSelector::new(vec![test_app(AppMonitorState::Monitoring), curl()]);

    selector.set_filter_text("cur".to_string());
    selector.apply_filter();

    assert_eq!(selector.filtered().len(), 1);
    assert_eq!(selector.filtered()[0], 1);
}

#[test]
fn row_text_and_tones() {
    let line = row_line(&test_app(AppMonitorState::Monitoring));
    assert_eq!(
        line,
        "\u{25cf} Chrome [GUI] [MONITORING]  com.google.Chrome  PID 1234"
    );
    let segs = row_segments(&curl());
    assert_eq!(segs[0].tone, Tone::Green);
    assert_eq!(segs[3].tone, Tone::DarkGray);
    assert_eq!(segs[4].text, "  --");
    let mut app = test_app(AppMonitorState::Paused);
    app.pid = None;
    assert_eq!(row_line(&app), "\u{25cb} Chrome [APP] [PAUSED]  com.google.Chrome");
}

#[test]
fn filter_matches_name_bundle_and_pid_ignoring_case() {
    let mut selector = AppSelector::new(vec![test_app(AppMonitorState::Unmonitored), curl()]);
    selector.set_filter_text("GOOGLE".to_string());
    selector.apply_filter();
    assert_eq!(selector.filtered(), &[0]);
    selector.set_filter_text("42".to_string());
    selector.apply_filter();
    assert_eq!(selector.filtered(), &[1]);
    selector.set_filter_text(String::new());
    selector.apply_filter();
    assert_eq!(selector.filtered(), &[0, 1]);
    selector.set_filter_text("zzz".to_string());
    selector.apply_filter();
    assert_eq!(selector.filtered().len(), 0);
    assert_eq!(selector.selected(), None);
}

#[test]
fn refiltering_highlights_the_first_match() {
    let mut selector = AppSelector::new(vec![test_app(AppMonitorState::Unmonitored), curl()]);
    assert!(selector.handle_key(key(Key::Down)).is_none());
    assert_eq!(selector.selected(), Some(1));
    assert!(selector.handle_key(key(Key::Char('4'))).is_none());
    assert_eq!(selector.filtered(), &[0, 1]);
    assert!(selector.handle_key(key(Key::Down)).is_none());
    assert_eq!(selector.selected(), Some(1));
    assert!(selector.handle_key(key(Key::Char('2'))).is_none());
    assert_eq!(selector.filtered(), &[1]);
    assert_eq!(selector.selected(), Some(0));
    assert!(selector.handle_key(key(Key::Char('x'))).is_none());
    assert_eq!(selector.filtered(), &[] as &[usize]);
    assert_eq!(selector.selected(), None);
    assert!(selector.handle_key(key(Key::Backspace)).is_none());
    assert_eq!(selector.filter_text(), "42");
    assert_eq!(selector.selected(), Some(0));
    assert!(selector.handle_key(key(Key::Backspace)).is_none());
    assert!(selector.handle_key(key(Key::Down)).is_none());
    assert_eq!(selector.selected(), Some(1));
    assert!(selector.handle_key(key(Key::Backspace)).is_none());
    assert_eq!(selector.filter_text(), "");
    assert_eq!(selector.filtered(), &[0, 1]);
    assert_eq!(selector.selected(), Some(0));
    assert!(selector.handle_key(key(Key::Char('C'))).is_none());
    assert!(selector.handle_key(key(Key::Down)).is_none());
    assert!(selector.handle_key(key(Key::Esc)).is_none());
    assert_eq!(selector.filtered(), &[0, 1]);
    assert_eq!(selector.selected(), Some(0));
}

#[test]
fn selector_keys() {
    let mut selector = AppSelector::new(vec![test_app(AppMonitorState::Unmonitored), curl()]);
    assert_eq!(selector.selected(), Some(0));
    assert!(selector.handle_key(key(Key::Down)).is_none());
    assert_eq!(selector.selected(), Some(1));
    assert!(selector.handle_key(key(Key::Down)).is_none());
    assert_eq!(selector.selected(), Some(1));
    match selector.handle_key(key(Key::Enter)) {
        Some(SelectorAction::Selected(app)) => assert_eq!(app.display_name, "curl"),
        _ => panic!("expected a selection"),
    }
    assert!(selector.handle_key(key(Key::Up)).is_none());
    assert_eq!(selector.selected(), Some(0));
    assert!(selector.handle_key(key(Key::Char('c'))).is_none());
    assert!(selector.handle_key(key(Key::Char('u'))).is_none());
    assert_eq!(selector.filter_text(), "cu");
    assert_eq!(selector.filtered(), &[1]);
    assert!(selector.handle_key(key(Key::Backspace)).is_none());
    assert_eq!(selector.filter_text(), "c");
    assert!(selector.handle_key(key(Key::Esc)).is_none());
    assert_eq!(selector.filter_text(), "");
    assert_eq!(selector.filtered(), &[0, 1]);
    assert!(matches!(selector.handle_key(key(Key::Char('q'))), Some(SelectorAction::Quit)));
    assert!(matches!(selector.handle_key(key(Key::Char('Q'))), Some(SelectorAction::Quit)));
    assert!(net_use::key::is_quit(&key(Key::Char('Q'))));
    assert!(!net_use::key::is_quit(&key(Key::Char('c'))));
    assert!(matches!(
        selector.handle_key(KeyInput { code: Key::Char('c'), ctrl: true }),
        Some(SelectorAction::Quit)
    ));
}

#[test]
fn filter_box_text() {
    let mut selector = AppSelector::new(vec![curl()]);
    let empty = selector.filter_display();
    assert_eq!(empty.text, "Type to filter...");
    assert_eq!(empty.tone, Tone::DarkGray);
    selector.handle_key(key(Key::Char('x')));
    let typed = selector.filter_display();
    assert_eq!(typed.text, "x");
    assert_eq!(typed.tone, Tone::Yellow);
    assert_eq!(selector.visible_rows().len(), 0);
}
