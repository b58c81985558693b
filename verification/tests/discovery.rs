use net_use::discovery::{
    discover_installed_apps, discover_running_apps, is_app_bundle_path, merge_app_lists,
    parse_app_bundle, resolve_bundle_executable, BundleCandidate,
};
use net_use::process_tree::ProcessEntry;
use net_use::types::{AppInfo, AppMonitorState};

fn plist(entries: &[(&str, &str)]) -> Vec<u8> {
    let mut s = String::from(
        "<?xml version=\"1.0\" encoding=\"UTF-8\"?>\n<plist version=\"1.0\">\n<dict>\n",
    );
    for (k, v) in entries {
        s.push_str(&format!("<key>{k}</key><string>{v}</string>\n"));
    }
    s.push_str("</dict>\n</plist>\n");
    s.into_bytes()
}

fn installed(name: &str, bundle: &str, path: &str) -> AppInfo {
    AppInfo {
        display_name: name.to_string(),
        bundle_id: Some(bundle.to_string()),
        executable_name: name.to_string(),
        app_path: Some(path.to_string()),
        pid: None,
        monitor_state: AppMonitorState::Unmonitored,
    }
}

fn process(pid: i32, name: Option<&str>, path: Option<&str>) -> ProcessEntry {
    ProcessEntry {
        pid,
        name: name.map(|s| s.to_string()),
        path: path.map(|s| s.to_string()),
        command: None,
    }
}

#[test]
fn parse_app_bundle_reads_the_plist() {
    let bytes = plist(&[
        ("CFBundleExecutable", "Foo"),
        ("CFBundleIdentifier", "com.example.foo"),
        ("CFBundleName", "Foo App"),
    ]);
    let info = parse_app_bundle("/Applications/Foo.app", &bytes).unwrap();
    assert_eq!(info.display_name, "Foo App");
    assert_eq!(info.bundle_id, Some("com.example.foo".to_string()));
    assert_eq!(info.executable_name, "Foo");
    assert_eq!(info.app_path, Some("/Applications/Foo.app".to_string()));
    assert_eq!(info.pid, None);
}

#[test]
fn parse_app_bundle_prefers_display_name_then_file_stem() {
    let bytes = plist(&[
        ("CFBundleExecutable", "Foo"),
        ("CFBundleDisplayName", "Shown"),
        ("CFBundleName", "Named"),
    ]);
    let info = parse_app_bundle("/Applications/Foo.app", &bytes).unwrap();
    assert_eq!(info.display_name, "Shown");
    assert_eq!(info.bundle_id, None);
    let bytes = plist(&[("CFBundleExecutable", "Bar")]);
    let info = parse_app_bundle("/Users/me/Applications/My Bar.app", &bytes).unwrap();
    assert_eq!(info.display_name, "My Bar");
}

#[test]
fn parse_app_bundle_needs_an_executable_and_a_plist() {
    let bytes = plist(&[("CFBundleName", "Foo")]);
    assert!(parse_app_bundle("/Applications/Foo.app", &bytes).is_none());
    assert!(parse_app_bundle("/Applications/Foo.app", b"not a plist").is_none());
}

#[test]
fn app_bundle_paths() {
    assert!(is_app_bundle_path("/Applications/Safari.app"));
    assert!(!is_app_bundle_path("/Applications/notes.txt"));
    assert!(!is_app_bundle_path("/Applications/.app"));
    assert!(!is_app_bundle_path("/Applications/Folder"));
}

#[test]
fn installed_apps_sorted_by_lowercase_name() {
    let candidates = vec![
        BundleCandidate {
            path: "/Applications/Zed.app".to_string(),
            info_plist: Some(plist(&[("CFBundleExecutable", "zed"), ("CFBundleName", "zed")])),
        },
        BundleCandidate {
            path: "/Applications/Alpha.app".to_string(),
            info_plist: Some(plist(&[("CFBundleExecutable", "a"), ("CFBundleName", "Alpha")])),
        },
        BundleCandidate {
            path: "/Applications/readme.txt".to_string(),
            info_plist: Some(plist(&[("CFBundleExecutable", "r")])),
        },
        BundleCandidate { path: "/Applications/Gone.app".to_string(), info_plist: None },
        BundleCandidate {
            path: "/Applications/beta.app".to_string(),
            info_plist: Some(plist(&[("CFBundleExecutable", "b"), ("CFBundleName", "beta")])),
        },
    ];
    let apps = discover_installed_apps(&candidates);
    let names: Vec<&str> = apps.iter().map(|a| a.display_name.as_str()).collect();
    assert_eq!(names, vec!["Alpha", "beta", "zed"]);
}

#[test]
fn processes_without_a_readable_name_or_path_are_skipped() {
    let procs = vec![
        process(5, Some("curl"), Some("/usr/bin/curl")),
        process(7, Some("curl"), None),
        process(8, None, Some("/usr/bin/wget")),
        process(9, Some("curl"), Some("/usr/bin/curl")),
    ];
    let running = discover_running_apps(&Vec::new(), &procs);
    let pids: Vec<Option<i32>> = running.iter().map(|a| a.pid).collect();
    assert_eq!(pids, vec![Some(5), Some(9)]);
    assert!(running.iter().all(|a| a.display_name == "curl" && a.bundle_id.is_none()));
}

#[test]
fn running_apps_then_command_line_processes() {
    let apps = vec![
        installed("Zoom", "us.zoom", "/Applications/zoom.us.app"),
        installed("Chrome", "com.google.Chrome", "/Applications/Google Chrome.app"),
    ];
    let procs = vec![
        process(10, Some("zoom.us"), Some("/Applications/zoom.us.app/Contents/MacOS/zoom.us")),
        process(11, Some("Chrome"), Some("/Applications/Google Chrome.app/Contents/MacOS/Chrome")),
        process(12, Some("helper"), Some("/Applications/Google Chrome.app/Contents/Helper")),
        process(13, Some("curl"), Some("/usr/bin/curl")),
        process(14, None, Some("/usr/bin/unknown")),
    ];
    let running = discover_running_apps(&apps, &procs);
    let rows: Vec<(String, Option<i32>)> = running
        .iter()
        .map(|a| (a.display_name.clone(), a.pid))
        .collect();
    assert_eq!(
        rows,
        vec![
            ("Chrome".to_string(), Some(11)),
            ("Zoom".to_string(), Some(10)),
            ("curl".to_string(), Some(13)),
        ]
    );
    assert_eq!(running[2].bundle_id, None);
    assert_eq!(running[2].executable_name, "curl");
}

#[test]
fn merge_lists_running_first() {
    let apps = vec![
        installed("Zoom", "us.zoom", "/Applications/zoom.us.app"),
        installed("Chrome", "com.google.Chrome", "/Applications/Google Chrome.app"),
    ];
    let mut running_chrome = apps[1].clone();
    running_chrome.pid = Some(11);
    let merged = merge_app_lists(apps.clone(), vec![running_chrome]);
    let rows: Vec<(String, Option<i32>)> = merged
        .iter()
        .map(|a| (a.display_name.clone(), a.pid))
        .collect();
    assert_eq!(
        rows,
        vec![("Chrome".to_string(), Some(11)), ("Zoom".to_string(), None)]
    );
}

#[test]
fn bundle_executable_lookup() {
    let apps = vec![
        installed("Zoom", "us.zoom", "/Applications/zoom.us.app"),
        installed("Chrome", "com.google.Chrome", "/Applications/Google Chrome.app"),
    ];
    assert_eq!(
        resolve_bundle_executable(&apps, "com.google.Chrome"),
        Some(("Chrome".to_string(), "/Applications/Google Chrome.app".to_string()))
    );
    assert_eq!(resolve_bundle_executable(&apps, "com.nope"), None);
}

#[test]
fn merge_keeps_installed_apps_without_bundle_id() {
    let running = vec![AppInfo {
        display_name: "curl".to_string(),
        bundle_id: None,
        executable_name: "curl".to_string(),
        app_path: None,
        pid: Some(42),
        monitor_state: AppMonitorState::Unmonitored,
    }];
    let installed = vec![AppInfo {
        display_name: "Tool".to_string(),
        bundle_id: None,
        executable_name: "Tool".to_string(),
        app_path: Some("/Applications/Tool.app".to_string()),
        pid: None,
        monitor_state: AppMonitorState::Unmonitored,
    }];
    let merged = merge_app_lists(installed, running);
    let names: Vec<&str> = merged.iter().map(|a| a.display_name.as_str()).collect();
    assert_eq!(names, vec!["curl", "Tool"]);
}
