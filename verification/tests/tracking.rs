use net_use::addr::{IpAddress, Ipv4Address};
use net_use::engine::{next_target_found, MonitorEngine};
use net_use::process_tree::{
    collect_descendants, find_pids_by_executable_path_prefix, find_pids_by_name,
    get_process_info, ProcessEntry,
};
use net_use::types::{AppError, AppInfo, AppMonitorState, MonitorEvent, MonitorTarget};

fn process(pid: i32, name: Option<&str>, path: Option<&str>) -> ProcessEntry {
    ProcessEntry {
        pid,
        name: name.map(|s| s.to_string()),
        path: path.map(|s| s.to_string()),
        command: None,
    }
}

fn snapshot() -> Vec<ProcessEntry> {
    vec![
        process(1, Some("launchd"), Some("/sbin/launchd")),
        process(10, Some("Chrome"), Some("/Applications/Google Chrome.app/Contents/MacOS/Chrome")),
        process(11, Some("Helper"), Some("/Applications/Google Chrome.app/Contents/Helper")),
        process(20, Some("curl"), Some("/usr/bin/curl")),
        process(21, Some("curl"), None),
        process(30, None, Some("/usr/bin/secret")),
    ]
}

#[test]
fn find_pids() {
    let procs = snapshot();
    assert_eq!(find_pids_by_name(&procs, "curl"), vec![20, 21]);
    assert_eq!(find_pids_by_name(&procs, "nothing"), Vec::<i32>::new());
    assert_eq!(
        find_pids_by_executable_path_prefix(&procs, "/Applications/Google Chrome.app"),
        vec![10, 11]
    );
    assert_eq!(find_pids_by_executable_path_prefix(&procs, "/usr/bin/"), vec![20, 30]);
}

#[test]
fn process_info_needs_a_name() {
    let procs = snapshot();
    let info = get_process_info(&procs[3]).unwrap();
    assert_eq!(info.pid, 20);
    assert_eq!(info.name, "curl");
    assert!(get_process_info(&procs[5]).is_none());
}

#[test]
fn descendants_follow_the_tree() {
    let tree = vec![
        (1, vec![10, 20]),
        (10, vec![11, 12]),
        (12, vec![13]),
        (20, vec![]),
        (13, vec![10]),
    ];
    let mut d = collect_descendants(10, &tree);
    assert_eq!(d[0], 10);
    d.sort();
    assert_eq!(d, vec![10, 11, 12, 13]);
    let alone = collect_descendants(99, &tree);
    assert_eq!(alone, vec![99]);
    let mut all = collect_descendants(1, &tree);
    all.sort();
    assert_eq!(all, vec![1, 10, 11, 12, 13, 20]);
}

#[test]
fn target_found_and_lost_once() {
    assert_eq!(next_target_found(false, &Ok(true)).0, true);
    assert!(matches!(next_target_found(false, &Ok(true)).1, Some(MonitorEvent::TargetFound)));
    assert!(next_target_found(true, &Ok(true)).1.is_none());
    assert!(matches!(next_target_found(true, &Ok(false)).1, Some(MonitorEvent::TargetLost)));
    assert!(matches!(
        next_target_found(true, &Err(AppError::Internal("x".to_string()))).1,
        Some(MonitorEvent::TargetLost)
    ));
    assert!(next_target_found(false, &Ok(false)).1.is_none());
}

#[test]
fn collect_only_when_found_on_this_poll() {
    assert!(next_target_found(false, &Ok(true)).2);
    assert!(next_target_found(true, &Ok(true)).2);
    assert!(!next_target_found(true, &Ok(false)).2);
    assert!(!next_target_found(false, &Ok(false)).2);
    assert!(!next_target_found(true, &Err(AppError::ProcessNotFound(7))).2);
}

#[test]
fn found_and_lost_reports_alternate_over_a_run() {
    let outcomes: Vec<Result<bool, AppError>> = vec![
        Ok(false),
        Ok(true),
        Ok(true),
        Err(AppError::ProcessNotFound(3)),
        Ok(false),
        Ok(true),
        Ok(false),
        Ok(true),
    ];
    let mut found = false;
    let mut reports = Vec::new();
    for o in &outcomes {
        let (now, report, _) = next_target_found(found, o);
        found = now;
        if let Some(e) = report {
            reports.push(e);
        }
    }
    assert_eq!(reports.len(), 5);
    for (i, e) in reports.iter().enumerate() {
        if i % 2 == 0 {
            assert!(matches!(e, MonitorEvent::TargetFound));
        } else {
            assert!(matches!(e, MonitorEvent::TargetLost));
        }
    }
    assert!(found);
}

#[test]
fn engine_resolves_targets() {
    let procs = snapshot();
    let apps = vec![AppInfo {
        display_name: "Chrome".to_string(),
        bundle_id: Some("com.google.Chrome".to_string()),
        executable_name: "Chrome".to_string(),
        app_path: Some("/Applications/Google Chrome.app".to_string()),
        pid: None,
        monitor_state: AppMonitorState::Unmonitored,
    }];
    let mut by_pid = MonitorEngine::new(MonitorTarget::Pid(20));
    assert_eq!(by_pid.resolve_target(&procs, &apps), Ok(true));
    let mut gone = MonitorEngine::new(MonitorTarget::Pid(30));
    assert_eq!(gone.resolve_target(&procs, &apps), Ok(false));
    let mut by_name = MonitorEngine::new(MonitorTarget::Name("curl".to_string()));
    assert_eq!(by_name.resolve_target(&procs, &apps), Ok(true));
    assert_eq!(by_name.refresh_roots(&procs), vec![20, 21]);
    let mut by_bundle = MonitorEngine::new(MonitorTarget::Bundle("com.google.Chrome".to_string()));
    assert!(by_bundle.needs_installed_apps());
    assert_eq!(by_bundle.resolve_target(&procs, &apps), Ok(true));
    assert_eq!(by_bundle.refresh_roots(&procs), vec![10, 11]);
    let mut missing = MonitorEngine::new(MonitorTarget::Bundle("com.nope".to_string()));
    assert_eq!(
        missing.resolve_target(&procs, &apps),
        Err(AppError::BundleNotFound("com.nope".to_string()))
    );
}

#[test]
fn engine_tracks_tree_and_reports_changes() {
    let procs = snapshot();
    let mut engine = MonitorEngine::new(MonitorTarget::Name("Chrome".to_string()));
    assert_eq!(engine.resolve_target(&procs, &Vec::new()), Ok(true));
    let tree = vec![(10, vec![11]), (11, vec![])];
    let events = engine.refresh_process_tree(&procs, &tree);
    let mut added: Vec<i32> = events
        .iter()
        .filter_map(|e| match e {
            MonitorEvent::ProcessAdded(p) => Some(p.pid),
            _ => None,
        })
        .collect();
    assert_eq!(events.len(), 2);
    added.sort();
    assert_eq!(added, vec![10, 11]);
    let mut now_tracked = engine.tracked_pids().to_vec();
    now_tracked.sort();
    assert_eq!(now_tracked, vec![10, 11]);
    let events = engine.refresh_process_tree(&procs, &vec![(10, vec![])]);
    assert_eq!(events.len(), 1);
    assert!(matches!(events[0], MonitorEvent::ProcessRemoved(11)));
}

#[test]
fn engine_aggregates_addresses() {
    let mut engine = MonitorEngine::new(MonitorTarget::Pid(1));
    let addrs = vec![
        IpAddress::V4(Ipv4Address::new(1, 1, 1, 1)),
        IpAddress::V4(Ipv4Address::new(1, 1, 1, 2)),
        IpAddress::V4(Ipv4Address::new(127, 0, 0, 1)),
        IpAddress::V4(Ipv4Address::new(1, 1, 1, 1)),
    ];
    let events = engine.record_addresses(&addrs);
    assert_eq!(events.len(), 3);
    assert!(matches!(events[0], MonitorEvent::NewAddress(_)));
    assert!(matches!(events[1], MonitorEvent::NewIpv4Raw(_)));
    assert!(matches!(events[2], MonitorEvent::NewIpv4Raw(_)));
    assert!(engine.record_addresses(&addrs).is_empty());
}
