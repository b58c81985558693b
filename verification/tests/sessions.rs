use net_use::key::Key;
use net_use::monitor_view::{MonitorKeyResponse, MonitorView};
use net_use::session::PreservedData;
use net_use::sessions::{same_target, SessionRegistry, SessionStart};
use net_use::history::{decode_history, encode_history};
use net_use::types::{AppInfo, AppMonitorState, MonitorTarget};

fn app(name: &str, bundle: Option<&str>, pid: Option<i32>) -> AppInfo {
    AppInfo {
        display_name: name.to_string(),
        bundle_id: bundle.map(|b| b.to_string()),
        executable_name: name.to_string(),
        app_path: None,
        pid,
        monitor_state: AppMonitorState::Unmonitored,
    }
}

fn data(v4: &[&str], v4raw: &[&str], v6: &[&str], v6raw: &[&str]) -> PreservedData {
    let own = |l: &[&str]| l.iter().map(|s| s.to_string()).collect::<Vec<_>>();
    PreservedData {
        ipv4_masked: own(v4),
        ipv4_raw: own(v4raw),
        ipv6_masked: own(v6),
        ipv6_raw: own(v6raw),
    }
}

#[test]
fn selecting_starts_once_and_pausing_toggles() {
    let mut reg = SessionRegistry::new();
    let a = MonitorTarget::Bundle("com.a".to_string());
    let b = MonitorTarget::Pid(12);
    assert_eq!(reg.state(&a), AppMonitorState::Unmonitored);
    assert_eq!(reg.select(&a), SessionStart::Start);
    assert_eq!(reg.select(&a), SessionStart::Attach);
    assert_eq!(reg.state(&a), AppMonitorState::Monitoring);
    assert_eq!(reg.select(&b), SessionStart::Start);
    assert_eq!(reg.toggle_pause(&a), AppMonitorState::Paused);
    assert_eq!(reg.state(&a), AppMonitorState::Paused);
    assert_eq!(reg.state(&b), AppMonitorState::Monitoring);
    assert_eq!(reg.monitored_targets(), vec![b.clone()]);
    assert_eq!(reg.select(&a), SessionStart::Start);
    assert_eq!(reg.toggle_pause(&a), AppMonitorState::Paused);
    assert_eq!(reg.toggle_pause(&a), AppMonitorState::Monitoring);
    assert!(same_target(&a, &MonitorTarget::Bundle("com.a".to_string())));
    assert!(!same_target(&a, &MonitorTarget::Name("com.a".to_string())));
}

#[test]
fn selector_rows_show_session_states() {
    let mut reg = SessionRegistry::new();
    reg.select(&MonitorTarget::Bundle("com.a".to_string()));
    reg.select(&MonitorTarget::Pid(7));
    reg.toggle_pause(&MonitorTarget::Pid(7));
    let apps = vec![
        app("A", Some("com.a"), Some(1)),
        app("curl", None, Some(7)),
        app("B", Some("com.b"), None),
    ];
    let states: Vec<AppMonitorState> = reg.annotate(&apps).iter().map(|a| a.monitor_state).collect();
    assert_eq!(
        states,
        vec![
            AppMonitorState::Monitoring,
            AppMonitorState::Paused,
            AppMonitorState::Unmonitored
        ]
    );
}

#[test]
fn pause_key_asks_to_pause() {
    let mut view = MonitorView::new(app("A", Some("com.a"), None));
    assert_eq!(view.handle_key_code(Key::Char('p')), MonitorKeyResponse::PauseRequested);
    assert_eq!(view.handle_key_code(Key::Char('P')), MonitorKeyResponse::PauseRequested);
}

#[test]
fn history_text_round_trip() {
    let entries = vec![
        (
            MonitorTarget::Bundle("com.google.Chrome".to_string()),
            data(&["142.250.80.0/24"], &["142.250.80.37", "142.250.80.99"], &["2607:6bc0::/64"], &[]),
        ),
        (MonitorTarget::Pid(-42), data(&[], &[], &[], &["::1"])),
        (
            MonitorTarget::Name("we\"ird\\name\n\u{1}é".to_string()),
            data(&["a", "b", "c"], &[], &[], &[]),
        ),
    ];
    let text = encode_history(&entries);
    let back = decode_history(&text).expect("decodes");
    assert_eq!(back.len(), entries.len());
    for ((t1, d1), (t2, d2)) in back.iter().zip(entries.iter()) {
        assert_eq!(t1, t2);
        assert_eq!(d1.ipv4_masked, d2.ipv4_masked);
        assert_eq!(d1.ipv4_raw, d2.ipv4_raw);
        assert_eq!(d1.ipv6_masked, d2.ipv6_masked);
        assert_eq!(d1.ipv6_raw, d2.ipv6_raw);
    }
}

#[test]
fn history_text_format() {
    let entries = vec![(MonitorTarget::Pid(5), data(&["10.0.0.0/24"], &[], &[], &[]))];
    assert_eq!(
        encode_history(&entries),
        "{\"targets\":[{\"target\":{\"pid\":5},\"ipv4_masked\":[\"10.0.0.0/24\"],\"ipv4_raw\":[],\"ipv6_masked\":[],\"ipv6_raw\":[]}]}"
    );
    assert_eq!(encode_history(&Vec::new()), "{\"targets\":[]}");
    assert_eq!(
        encode_history(&vec![(MonitorTarget::Name("a\"b\u{1f}".to_string()), data(&[], &[], &[], &[]))]),
        "{\"targets\":[{\"target\":{\"name\":\"a\\\"b\\u001f\"},\"ipv4_masked\":[],\"ipv4_raw\":[],\"ipv6_masked\":[],\"ipv6_raw\":[]}]}"
    );
}

#[test]
fn invalid_history_text_is_rejected() {
    assert!(decode_history("").is_none());
    assert!(decode_history("{\"targets\":[]}").unwrap().is_empty());
    assert!(decode_history("{\"targets\":[]} ").is_none());
    assert!(decode_history("{\"targets\": []}").is_none());
    assert!(decode_history("not json").is_none());
    let good = "{\"targets\":[{\"target\":{\"pid\":5},\"ipv4_masked\":[],\"ipv4_raw\":[],\"ipv6_masked\":[],\"ipv6_raw\":[]}]}";
    assert_eq!(decode_history(good).unwrap().len(), 1);
    assert!(decode_history(&good.replace("\"pid\":5", "\"pid\":05")).is_none());
    assert!(decode_history(&good.replace("\"pid\":5", "\"pid\":-0")).is_none());
    assert!(decode_history(&good.replace("\"pid\":5", "\"pid\":2147483648")).is_none());
    assert_eq!(
        decode_history(&good.replace("\"pid\":5", "\"pid\":-2147483648")).unwrap()[0].0,
        MonitorTarget::Pid(i32::MIN)
    );
}
