use net_use::monitor_view::{AddressDisplayMode, AddressOrderMode};
use net_use::process_summary::{
    format_process_summary, normalize_command, summarize_command, MAX_COMMAND_SUMMARY_CHARS,
};
use net_use::selector::Tone;
use net_use::status::{
    chrono_timestamp, clock_time_text, export_file_name, header_segments, pause_message, stability_text,
    status_segments, uptime_text,
};
use net_use::types::{AppInfo, AppMonitorState, ProcessInfo};

#[test]
fn test_format_process_summary_with_command() {
    let process = ProcessInfo {
        pid: 123,
        name: "python".to_string(),
        command: Some("python worker.py --queue high-priority".to_string()),
    };

    let summary = format_process_summary(&process);

    assert!(summary.contains("PID 123"));
    assert!(summary.contains("python"));
    assert!(summary.contains("worker.py"));
}

#[test]
fn test_format_process_summary_without_command() {
    let process = ProcessInfo {
        pid: 456,
        name: "curl".to_string(),
        command: None,
    };

    let summary = format_process_summary(&process);

    assert_eq!(summary, "PID 456    curl");
}

#[test]
fn summary_pads_pid_and_shortens_command() {
    let process = ProcessInfo {
        pid: 7,
        name: "sh".to_string(),
        command: Some("  sh   -c \t 'x'  ".to_string()),
    };
    assert_eq!(format_process_summary(&process), "PID 7      sh  sh -c 'x'");
    let empty = ProcessInfo { pid: 1234567, name: "a".to_string(), command: Some(String::new()) };
    assert_eq!(format_process_summary(&empty), "PID 1234567 a");
    assert_eq!(normalize_command(" a \n b "), "a b");
    assert_eq!(summarize_command("abcdef", 3), "abc...");
    assert_eq!(summarize_command("abc", 3), "abc");
    let long = "x".repeat(60);
    let short = summarize_command(&long, MAX_COMMAND_SUMMARY_CHARS);
    assert_eq!(short.chars().count(), MAX_COMMAND_SUMMARY_CHARS + 3);
}

#[test]
fn status_texts() {
    assert_eq!(uptime_text(0), "00:00");
    assert_eq!(uptime_text(65), "01:05");
    assert_eq!(uptime_text(6000), "100:00");
    assert_eq!(stability_text(None), "No IPs discovered yet");
    assert_eq!(
        stability_text(Some((59, 1700000000))),
        "Last new: 59s ago"
    );
    assert_eq!(
        stability_text(Some((125, 1700000000))),
        "No new IPs for 2 min (last at 22:13:20 UTC)"
    );
    assert_eq!(
        stability_text(Some((630, 3661))),
        "No new IPs for 10 min (last at 01:01:01 UTC)"
    );
    assert_eq!(clock_time_text(0), "00:00:00 UTC");
    assert_eq!(clock_time_text(86399), "23:59:59 UTC");
    assert_eq!(chrono_timestamp(1700000000), "1700000000");
    assert_eq!(export_file_name(42), "net-use-export-42.txt");
}

#[test]
fn header_and_status_bar() {
    let app = AppInfo {
        display_name: "curl".to_string(),
        bundle_id: None,
        executable_name: "curl".to_string(),
        app_path: None,
        pid: None,
        monitor_state: AppMonitorState::Unmonitored,
    };
    let h = header_segments(&app, true, false, 3, 61);
    let text: String = h.iter().map(|s| s.text.as_str()).collect();
    assert_eq!(text, "Target: curl  (--)    \u{25cf} Monitoring    Procs: 3    Uptime: 01:01");
    assert_eq!(h[4].tone, Tone::Green);
    let h = header_segments(&app, false, false, 0, 0);
    assert_eq!(h[4].text, "\u{25cb} Waiting");
    assert_eq!(h[4].tone, Tone::Yellow);
    let h = header_segments(&app, true, true, 0, 0);
    assert_eq!(h[4].text, "\u{25a0} Paused");
    assert_eq!(h[4].tone, Tone::DarkGray);

    let s = status_segments(
        5,
        Some((3, 1700000000)),
        AddressDisplayMode::Raw,
        AddressOrderMode::Alphabetical,
        &Some(("Copied".to_string(), 2)),
    );
    assert_eq!(s[0].text, " Total: 5 ");
    assert_eq!(
        s[1].text,
        "\u{2502} Last new: 3s ago \u{2502} Address view: Raw \u{2502} Order: A-Z"
    );
    assert_eq!(s[2].text, "  Copied");
    let s = status_segments(
        0,
        None,
        AddressDisplayMode::Masked,
        AddressOrderMode::Time,
        &Some(("Old".to_string(), 5)),
    );
    assert_eq!(s[2].text, "");
}

#[test]
fn pause_messages() {
    assert_eq!(pause_message(AppMonitorState::Paused), "Monitoring paused");
    assert_eq!(pause_message(AppMonitorState::Monitoring), "Monitoring resumed");
}
