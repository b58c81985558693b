use net_use::addr::{DiscoveredAddress, Ipv4Address, Ipv6Address};
use net_use::key::Key;
use net_use::monitor_view::{
    AddressDisplayMode, AddressOrderMode, MonitorAction, MonitorKeyResponse, MonitorView,
};
use net_use::types::{AppInfo, AppMonitorState, MonitorEvent, ProcessInfo};

fn test_app_info() -> AppInfo {
    AppInfo {
        display_name: "Test App".to_string(),
        bundle_id: Some("com.example.test".to_string()),
        executable_name: "test".to_string(),
        app_path: None,
        pid: None,
        monitor_state: AppMonitorState::Unmonitored,
    }
}

fn v4(a: u8, b: u8, c: u8, d: u8) -> Ipv4Address {
    Ipv4Address::new(a, b, c, d)
}

fn v6(s: [u16; 8]) -> Ipv6Address {
    Ipv6Address::new(s[0], s[1], s[2], s[3], s[4], s[5], s[6], s[7])
}

#[test]
fn test_toggle_switches_ipv4_and_ipv6_together() {
    let mut view = MonitorView::new(test_app_info());

    view.handle_event(MonitorEvent::NewAddress(DiscoveredAddress::from_ipv4(v4(
        142, 250, 80, 37,
    ))));
    view.handle_event(MonitorEvent::NewAddress(DiscoveredAddress::from_ipv6(v6([
        0x2607, 0x6bc0, 0, 0, 0, 0, 0, 0x10,
    ]))));

    view.handle_event(MonitorEvent::NewIpv4Raw(v4(142, 250, 80, 37)));
    view.handle_event(MonitorEvent::NewIpv4Raw(v4(142, 250, 80, 99)));
    view.handle_event(MonitorEvent::NewIpv6Raw(v6([0x2607, 0x6bc0, 0, 0, 0, 0, 0, 0x10])));
    view.handle_event(MonitorEvent::NewIpv6Raw(v6([0x2607, 0x6bc0, 0, 0, 0, 0, 0, 0x11])));

    assert_eq!(view.address_display_mode(), AddressDisplayMode::Masked);
    assert_eq!(view.address_order_mode(), AddressOrderMode::Time);
    assert_eq!(view.current_ipv4_entries(), vec!["142.250.80.0/24"]);
    assert_eq!(view.current_ipv6_entries(), vec!["2607:6bc0::/64"]);

    view.toggle_address_display_mode();

    assert_eq!(view.address_display_mode(), AddressDisplayMode::Raw);
    assert_eq!(view.current_ipv4_entries().len(), 2);
    assert_eq!(view.current_ipv6_entries().len(), 2);
}

fn fill_masked_rows(view: &mut MonitorView, count: usize) {
    let ipv4_masked = (0..count)
        .map(|i| format!("10.0.{i}.0/24"))
        .collect::<Vec<_>>();
    let ipv6_masked = (0..count)
        .map(|i| format!("2001:db8:{i:x}::/64"))
        .collect::<Vec<_>>();
    view.restore_data(&ipv4_masked, &[], &ipv6_masked, &[]);
}

#[test]
fn test_scroll_offset_clamps_to_bounds() {
    let mut view = MonitorView::new(test_app_info());
    fill_masked_rows(&mut view, 8);

    view.set_address_visible_rows(4);
    view.set_address_scroll_offset(1_000);
    let total_rows = view.current_address_row_count();

    view.clamp_address_scroll_offset(total_rows);

    let expected_max = MonitorView::max_address_scroll_offset(total_rows, 4);
    assert_eq!(view.address_scroll_offset(), expected_max);
}

#[test]
fn test_scroll_keys_move_line_and_page_with_bounds() {
    let mut view = MonitorView::new(test_app_info());
    fill_masked_rows(&mut view, 8);
    view.set_address_visible_rows(3);

    assert_eq!(view.address_scroll_offset(), 0);

    view.handle_key_code(Key::Down);
    assert_eq!(view.address_scroll_offset(), 1);

    view.handle_key_code(Key::Char('j'));
    assert_eq!(view.address_scroll_offset(), 2);

    view.handle_key_code(Key::PageDown);
    assert_eq!(view.address_scroll_offset(), 5);

    view.handle_key_code(Key::Char(' '));
    assert_eq!(view.address_scroll_offset(), 8);

    let max = MonitorView::max_address_scroll_offset(view.current_address_row_count(), 3);
    for _ in 0..16 {
        view.handle_key_code(Key::PageDown);
    }
    assert_eq!(view.address_scroll_offset(), max);

    view.handle_key_code(Key::PageUp);
    assert_eq!(view.address_scroll_offset(), max.saturating_sub(3));

    view.handle_key_code(Key::Up);
    view.handle_key_code(Key::Char('k'));
    assert_eq!(view.address_scroll_offset(), max.saturating_sub(5));
}

#[test]
fn test_toggle_while_scrolled_keeps_mode_switch_and_clamps_offset() {
    let mut view = MonitorView::new(test_app_info());
    let ipv4_masked = vec!["142.250.80.0/24".to_string()];
    let ipv4_raw = (0..10)
        .map(|i| format!("142.250.80.{}", i + 1))
        .collect::<Vec<_>>();
    let ipv6_masked = vec!["2607:6bc0::/64".to_string()];
    let ipv6_raw = (0..10)
        .map(|i| format!("2607:6bc0::{:x}", i + 1))
        .collect::<Vec<_>>();
    view.restore_data(&ipv4_masked, &ipv4_raw, &ipv6_masked, &ipv6_raw);

    view.set_address_visible_rows(4);
    view.toggle_address_display_mode();
    view.handle_key_code(Key::PageDown);
    view.handle_key_code(Key::PageDown);
    assert_eq!(view.address_display_mode(), AddressDisplayMode::Raw);
    assert!(view.address_scroll_offset() > 0);

    view.toggle_address_display_mode();
    assert_eq!(view.address_display_mode(), AddressDisplayMode::Masked);
    let max_masked = MonitorView::max_address_scroll_offset(view.current_address_row_count(), 4);
    assert!(view.address_scroll_offset() <= max_masked);
    assert_eq!(view.current_ipv4_entries(), &["142.250.80.0/24"]);
    assert_eq!(view.current_ipv6_entries(), &["2607:6bc0::/64"]);
}

#[test]
fn test_toggle_order_switches_ipv4_and_ipv6_together() {
    let mut view = MonitorView::new(test_app_info());

    let ipv4_masked = vec![
        "10.0.2.0/24".to_string(),
        "10.0.10.0/24".to_string(),
        "10.0.1.0/24".to_string(),
    ];
    let ipv4_raw: Vec<String> = vec![];
    let ipv6_masked = vec![
        "2001:db8:c::/64".to_string(),
        "2001:db8:a::/64".to_string(),
        "2001:db8:b::/64".to_string(),
    ];
    let ipv6_raw: Vec<String> = vec![];

    view.restore_data(&ipv4_masked, &ipv4_raw, &ipv6_masked, &ipv6_raw);

    assert_eq!(view.address_order_mode(), AddressOrderMode::Time);
    assert_eq!(
        view.current_ipv4_entries(),
        vec!["10.0.2.0/24", "10.0.10.0/24", "10.0.1.0/24"]
    );
    assert_eq!(
        view.current_ipv6_entries(),
        vec!["2001:db8:c::/64", "2001:db8:a::/64", "2001:db8:b::/64"]
    );

    view.toggle_address_order_mode();

    assert_eq!(view.address_order_mode(), AddressOrderMode::Alphabetical);
    assert_eq!(
        view.current_ipv4_entries(),
        vec!["10.0.1.0/24", "10.0.10.0/24", "10.0.2.0/24"]
    );
    assert_eq!(
        view.current_ipv6_entries(),
        vec!["2001:db8:a::/64", "2001:db8:b::/64", "2001:db8:c::/64"]
    );
}

#[test]
fn toggling_order_twice_shows_the_same_entries() {
    let mut view = MonitorView::new(test_app_info());
    let ipv4_masked = vec![
        "10.0.2.0/24".to_string(),
        "10.0.10.0/24".to_string(),
        "10.0.1.0/24".to_string(),
    ];
    let ipv6_masked = vec!["2001:db8:c::/64".to_string(), "2001:db8:a::/64".to_string()];
    view.restore_data(&ipv4_masked, &Vec::new(), &ipv6_masked, &Vec::new());
    view.toggle_address_order_mode();
    let sorted4 = view.current_ipv4_entries();
    let sorted6 = view.current_ipv6_entries();
    let rows = view.current_address_rows();
    view.toggle_address_order_mode();
    assert_eq!(view.address_order_mode(), AddressOrderMode::Time);
    assert_eq!(view.current_ipv4_entries(), ipv4_masked);
    assert_eq!(view.current_ipv6_entries(), ipv6_masked);
    view.toggle_address_order_mode();
    assert_eq!(view.current_ipv4_entries(), sorted4);
    assert_eq!(view.current_ipv6_entries(), sorted6);
    assert_eq!(view.current_address_rows(), rows);
    assert_eq!(rows[1], "  10.0.1.0/24");
}

#[test]
fn test_alphabetical_order_applies_in_raw_view() {
    let mut view = MonitorView::new(test_app_info());

    let ipv4_masked: Vec<String> = vec![];
    let ipv4_raw = vec![
        "1.1.1.2".to_string(),
        "1.1.1.10".to_string(),
        "1.1.1.1".to_string(),
    ];
    let ipv6_masked: Vec<String> = vec![];
    let ipv6_raw = vec![
        "2001:db8:c::1".to_string(),
        "2001:db8:a::1".to_string(),
        "2001:db8:b::1".to_string(),
    ];

    view.restore_data(&ipv4_masked, &ipv4_raw, &ipv6_masked, &ipv6_raw);

    view.toggle_address_display_mode();
    view.toggle_address_order_mode();

    assert_eq!(view.address_display_mode(), AddressDisplayMode::Raw);
    assert_eq!(view.address_order_mode(), AddressOrderMode::Alphabetical);
    assert_eq!(
        view.current_ipv4_entries(),
        vec!["1.1.1.1", "1.1.1.10", "1.1.1.2"]
    );
    assert_eq!(
        view.current_ipv6_entries(),
        vec!["2001:db8:a::1", "2001:db8:b::1", "2001:db8:c::1"]
    );
}

#[test]
fn test_restore_data_keeps_masked_and_raw_sets() {
    let mut view = MonitorView::new(test_app_info());

    let ipv4_masked = vec!["142.250.80.0/24".to_string()];
    let ipv4_raw = vec!["142.250.80.37".to_string(), "142.250.80.99".to_string()];
    let ipv6_masked = vec!["2607:6bc0::/64".to_string()];
    let ipv6_raw = vec!["2607:6bc0::10".to_string(), "2607:6bc0::11".to_string()];

    view.restore_data(&ipv4_masked, &ipv4_raw, &ipv6_masked, &ipv6_raw);

    assert_eq!(view.ipv4_masked_data(), &["142.250.80.0/24"]);
    assert_eq!(view.ipv4_raw_data().len(), 2);
    assert_eq!(view.ipv6_masked_data(), &["2607:6bc0::/64"]);
    assert_eq!(view.ipv6_raw_data().len(), 2);
}

#[test]
fn repeated_events_are_listed_once() {
    let mut view = MonitorView::new(test_app_info());
    let subnet = DiscoveredAddress::from_ipv4(v4(8, 8, 8, 8));
    assert!(view.handle_event(MonitorEvent::NewAddress(subnet)));
    assert!(!view.handle_event(MonitorEvent::NewAddress(subnet)));
    view.handle_event(MonitorEvent::NewIpv4Raw(v4(8, 8, 8, 8)));
    view.handle_event(MonitorEvent::NewIpv4Raw(v4(8, 8, 8, 8)));
    assert_eq!(view.ipv4_masked_data(), &["8.8.8.0/24"]);
    assert_eq!(view.ipv4_raw_data(), &["8.8.8.8"]);
}

#[test]
fn process_and_target_events() {
    let mut view = MonitorView::new(test_app_info());
    assert!(!view.target_active());
    view.handle_event(MonitorEvent::TargetFound);
    assert!(view.target_active());
    view.handle_event(MonitorEvent::ProcessAdded(ProcessInfo {
        pid: 10,
        name: "a".to_string(),
        command: None,
    }));
    view.handle_event(MonitorEvent::ProcessAdded(ProcessInfo {
        pid: 11,
        name: "b".to_string(),
        command: None,
    }));
    view.handle_event(MonitorEvent::ProcessAdded(ProcessInfo {
        pid: 10,
        name: "a2".to_string(),
        command: None,
    }));
    assert_eq!(view.processes().len(), 2);
    view.handle_event(MonitorEvent::ProcessRemoved(10));
    assert_eq!(view.processes().len(), 1);
    assert_eq!(view.processes()[0].pid, 11);
    view.handle_event(MonitorEvent::TargetLost);
    assert!(!view.target_active());
}

#[test]
fn mode_toggles_return_to_start_and_report_status() {
    let mut view = MonitorView::new(test_app_info());
    assert_eq!(view.toggle_address_display_mode(), "Address view: Raw");
    assert_eq!(view.toggle_address_display_mode(), "Address view: Masked");
    assert_eq!(view.toggle_address_order_mode(), "Address order: A-Z");
    assert_eq!(view.toggle_address_order_mode(), "Address order: Time");
    assert_eq!(AddressDisplayMode::Masked.toggle().toggle(), AddressDisplayMode::Masked);
    assert_eq!(AddressOrderMode::Time.toggle().toggle(), AddressOrderMode::Time);
}

#[test]
fn keys_of_the_monitoring_screen() {
    let mut view = MonitorView::new(test_app_info());
    assert_eq!(
        view.handle_key_code(Key::Esc),
        MonitorKeyResponse::Leave(MonitorAction::Back)
    );
    assert_eq!(view.handle_key_code(Key::Char('e')), MonitorKeyResponse::ExportRequested);
    assert_eq!(view.handle_key_code(Key::Char('C')), MonitorKeyResponse::CopyRequested);
    assert_eq!(
        view.handle_key_code(Key::Char('S')),
        MonitorKeyResponse::Status("Address view: Raw".to_string())
    );
    assert_eq!(
        view.handle_key_code(Key::Char('o')),
        MonitorKeyResponse::Status("Address order: A-Z".to_string())
    );
    assert_eq!(view.handle_key_code(Key::Char('x')), MonitorKeyResponse::Handled);
}

#[test]
fn scroll_down_then_up_returns() {
    let mut view = MonitorView::new(test_app_info());
    fill_masked_rows(&mut view, 8);
    view.set_address_visible_rows(3);
    view.scroll_down(2, view.current_address_row_count());
    assert_eq!(view.address_scroll_offset(), 2);
    view.scroll_up(2);
    assert_eq!(view.address_scroll_offset(), 0);
    view.scroll_up(5);
    assert_eq!(view.address_scroll_offset(), 0);
}

#[test]
fn max_offset_formula() {
    assert_eq!(MonitorView::max_address_scroll_offset(10, 4), 6);
    assert_eq!(MonitorView::max_address_scroll_offset(3, 4), 0);
    assert_eq!(MonitorView::max_address_scroll_offset(10, 0), 9);
}

#[test]
fn export_and_clipboard_use_masked_lists_in_order() {
    let mut view = MonitorView::new(test_app_info());
    view.restore_data(
        &["10.0.2.0/24".to_string(), "10.0.1.0/24".to_string()],
        &["10.0.2.9".to_string()],
        &["2001:db8::/64".to_string()],
        &[],
    );
    view.toggle_address_order_mode();
    assert_eq!(
        view.export_lines(),
        vec!["10.0.2.0/24", "10.0.1.0/24", "2001:db8::/64"]
    );
    assert_eq!(
        view.clipboard_text(),
        "10.0.2.0/24\n10.0.1.0/24\n2001:db8::/64\n"
    );
}

#[test]
fn totals_and_rows() {
    let mut view = MonitorView::new(test_app_info());
    view.restore_data(
        &["10.0.2.0/24".to_string()],
        &["10.0.2.9".to_string(), "10.0.2.8".to_string()],
        &["2001:db8::/64".to_string()],
        &[],
    );
    assert_eq!(view.current_total(), 2);
    let rows = view.current_address_rows();
    assert_eq!(rows.len(), view.current_address_row_count());
    assert!(rows.iter().any(|r| r.contains("10.0.2.0/24")));
    assert!(rows.iter().any(|r| r.contains("2001:db8::/64")));
    view.toggle_address_display_mode();
    assert_eq!(view.current_total(), 2);
    assert_eq!(view.current_ipv6_entries().len(), 0);
}
