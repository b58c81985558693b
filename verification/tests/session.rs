use std::collections::HashMap;

use net_use::monitor_view::MonitorView;
use net_use::session::{
    app_to_target, cli_to_target, history_file_path, target_to_app_info, validate_target,
    PreservedData,
};
use net_use::target_history::TargetHistory;
use net_use::types::{AppError, AppInfo, AppMonitorState, Cli, MonitorTarget};

fn info_for(target: &MonitorTarget) -> AppInfo {
    target_to_app_info(target, None, None)
}

fn seeded_view(target: &MonitorTarget, ipv4_octet: u8, ipv6_segment: u16) -> MonitorView {
    let mut view = MonitorView::new(info_for(target));
    let ipv4_masked = vec![format!("10.0.{ipv4_octet}.0/24")];
    let ipv4_raw = vec![
        format!("10.0.{ipv4_octet}.1"),
        format!("10.0.{ipv4_octet}.2"),
    ];
    let ipv6_masked = vec![format!("2001:db8:{ipv6_segment:x}::/64")];
    let ipv6_raw = vec![
        format!("2001:db8:{ipv6_segment:x}::1"),
        format!("2001:db8:{ipv6_segment:x}::2"),
    ];
    view.restore_data(&ipv4_masked, &ipv4_raw, &ipv6_masked, &ipv6_raw);
    view
}

#[test]
fn preserved_data_round_trip_restores_all_lists() {
    let target = MonitorTarget::Name("alpha".to_string());
    let view = seeded_view(&target, 0, 1);
    let snapshot = PreservedData::from_view(&view);

    let mut restored = MonitorView::new(info_for(&target));
    snapshot.restore_into(&mut restored);

    assert_eq!(restored.ipv4_masked_data(), &["10.0.0.0/24"]);
    assert_eq!(restored.ipv4_raw_data(), &["10.0.0.1", "10.0.0.2"]);
    assert_eq!(restored.ipv6_masked_data(), &["2001:db8:1::/64"]);
    assert_eq!(
        restored.ipv6_raw_data(),
        &["2001:db8:1::1", "2001:db8:1::2"]
    );
}

#[test]
fn cache_isolated_per_target_and_keyed_by_monitor_target() {
    let target_a = MonitorTarget::Name("alpha".to_string());
    let target_b = MonitorTarget::Name("beta".to_string());

    let mut cache: HashMap<MonitorTarget, PreservedData> = HashMap::new();
    cache.insert(
        target_a.clone(),
        PreservedData::from_view(&seeded_view(&target_a, 0, 1)),
    );
    cache.insert(
        target_b.clone(),
        PreservedData::from_view(&seeded_view(&target_b, 1, 2)),
    );

    let mut restored_a = MonitorView::new(info_for(&MonitorTarget::Name("alpha".to_string())));
    cache.get(&target_a).unwrap().restore_into(&mut restored_a);

    assert_eq!(restored_a.ipv4_masked_data(), &["10.0.0.0/24"]);
    assert!(!restored_a.ipv4_raw_data().contains(&"10.0.1.1".to_string()));

    let mut restored_b = MonitorView::new(info_for(&MonitorTarget::Name("beta".to_string())));
    cache.get(&target_b).unwrap().restore_into(&mut restored_b);

    assert_eq!(restored_b.ipv4_masked_data(), &["10.0.1.0/24"]);
    assert!(!restored_b.ipv4_raw_data().contains(&"10.0.0.1".to_string()));
}

#[test]
fn restoring_twice_adds_nothing_more() {
    let target = MonitorTarget::Pid(7);
    let view = seeded_view(&target, 3, 4);
    let snapshot = PreservedData::from_view(&view);
    let mut fresh = MonitorView::new(info_for(&target));
    snapshot.restore_into(&mut fresh);
    snapshot.restore_into(&mut fresh);
    assert_eq!(fresh.ipv4_masked_data(), &["10.0.3.0/24"]);
    assert_eq!(fresh.ipv4_raw_data(), &["10.0.3.1", "10.0.3.2"]);
    assert_eq!(fresh.ipv6_masked_data(), &["2001:db8:4::/64"]);
    assert_eq!(fresh.ipv6_raw_data(), &["2001:db8:4::1", "2001:db8:4::2"]);
}

#[test]
fn restoring_keeps_entries_already_there_first() {
    let target = MonitorTarget::Name("gamma".to_string());
    let mut view = MonitorView::new(info_for(&target));
    view.restore_data(&["10.1.1.0/24".to_string()], &[], &[], &[]);
    view.restore_data(
        &["10.2.2.0/24".to_string(), "10.1.1.0/24".to_string()],
        &[],
        &[],
        &[],
    );
    assert_eq!(view.ipv4_masked_data(), &["10.1.1.0/24", "10.2.2.0/24"]);
}

#[test]
fn cli_target_prefers_pid_then_name_then_bundle() {
    let cli = Cli {
        pid: Some(42),
        name: Some("curl".to_string()),
        bundle: Some("com.example.app".to_string()),
        no_tui: false,
        data_file: None,
    };
    assert_eq!(cli_to_target(&cli), Some(MonitorTarget::Pid(42)));
    let cli = Cli { pid: None, ..cli };
    assert_eq!(cli_to_target(&cli), Some(MonitorTarget::Name("curl".to_string())));
    let cli = Cli { name: None, ..cli };
    assert_eq!(
        cli_to_target(&cli),
        Some(MonitorTarget::Bundle("com.example.app".to_string()))
    );
    let cli = Cli { bundle: None, ..cli };
    assert_eq!(cli_to_target(&cli), None);
}

#[test]
fn validate_target_reports_missing_pid() {
    assert_eq!(
        validate_target(&MonitorTarget::Pid(99), false),
        Err(AppError::ProcessNotFound(99))
    );
    assert_eq!(validate_target(&MonitorTarget::Pid(99), true), Ok(()));
    assert_eq!(
        validate_target(&MonitorTarget::Name("x".to_string()), false),
        Ok(())
    );
}

#[test]
fn app_to_target_prefers_bundle_then_pid_then_name() {
    let mut app = AppInfo {
        display_name: "Chrome".to_string(),
        bundle_id: Some("com.google.Chrome".to_string()),
        executable_name: "Chrome".to_string(),
        app_path: None,
        pid: Some(5),
        monitor_state: AppMonitorState::Unmonitored,
    };
    assert_eq!(
        app_to_target(&app),
        MonitorTarget::Bundle("com.google.Chrome".to_string())
    );
    app.bundle_id = None;
    assert_eq!(app_to_target(&app), MonitorTarget::Pid(5));
    app.pid = None;
    assert_eq!(app_to_target(&app), MonitorTarget::Name("Chrome".to_string()));
}

#[test]
fn target_descriptions() {
    let by_pid = target_to_app_info(&MonitorTarget::Pid(-3), None, None);
    assert_eq!(by_pid.display_name, "PID -3");
    assert_eq!(by_pid.pid, Some(-3));
    let named = target_to_app_info(&MonitorTarget::Pid(12), Some("node".to_string()), None);
    assert_eq!(named.display_name, "node");
    let by_name = target_to_app_info(&MonitorTarget::Name("curl".to_string()), None, None);
    assert_eq!(by_name.display_name, "curl");
    assert_eq!(by_name.executable_name, "curl");
    let bundle = target_to_app_info(
        &MonitorTarget::Bundle("com.a.b".to_string()),
        None,
        Some("B".to_string()),
    );
    assert_eq!(bundle.display_name, "B");
    assert_eq!(bundle.bundle_id, Some("com.a.b".to_string()));
    let bundle = target_to_app_info(&MonitorTarget::Bundle("com.a.b".to_string()), None, None);
    assert_eq!(bundle.display_name, "com.a.b");
}

#[test]
fn history_file_defaults_to_tmp() {
    let mut cli = Cli { pid: None, name: None, bundle: None, no_tui: false, data_file: None };
    assert_eq!(history_file_path(&cli), "/tmp/.net-use-address-history.json");
    cli.data_file = Some("./my-history.json".to_string());
    assert_eq!(history_file_path(&cli), "./my-history.json");
}

#[test]
fn history_store_restores_the_last_visit_of_each_target() {
    let target_a = MonitorTarget::Name("alpha".to_string());
    let target_b = MonitorTarget::Bundle("com.example.beta".to_string());
    let mut history = TargetHistory::new();

    let fresh = history.open_view(&target_a, info_for(&target_a));
    assert!(fresh.ipv4_masked_data().is_empty());
    assert!(fresh.ipv6_raw_data().is_empty());

    history.remember(&target_a, &seeded_view(&target_a, 0, 1));
    history.remember(&target_b, &seeded_view(&target_b, 1, 2));
    history.remember(&target_a, &seeded_view(&target_a, 5, 6));
    assert_eq!(history.entries().len(), 2);

    let a = history.open_view(&MonitorTarget::Name("alpha".to_string()), info_for(&target_a));
    assert_eq!(a.ipv4_masked_data(), &["10.0.5.0/24"]);
    assert_eq!(a.ipv4_raw_data(), &["10.0.5.1", "10.0.5.2"]);
    assert_eq!(a.ipv6_masked_data(), &["2001:db8:6::/64"]);
    assert_eq!(a.ipv6_raw_data(), &["2001:db8:6::1", "2001:db8:6::2"]);

    let b = history.open_view(&target_b, info_for(&target_b));
    assert_eq!(b.ipv4_masked_data(), &["10.0.1.0/24"]);
    assert_eq!(b.ipv6_raw_data(), &["2001:db8:2::1", "2001:db8:2::2"]);

    let c = history.open_view(&MonitorTarget::Pid(7), info_for(&MonitorTarget::Pid(7)));
    assert!(c.ipv4_masked_data().is_empty());

    let reloaded = TargetHistory::from_entries(history.entries().clone());
    let again = reloaded.open_view(&target_a, info_for(&target_a));
    assert_eq!(again.ipv4_masked_data(), &["10.0.5.0/24"]);
}
