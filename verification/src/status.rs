//! Texts of the monitoring screen's header and status bar, and the name
//! of the export file.

use vstd::prelude::*;

use crate::monitor_view::{AddressDisplayMode, AddressOrderMode};
use crate::selector::{Segment, Tone};
use crate::text::{decimal, push_char, push_decimal, push_str};
use crate::types::{AppInfo, AppMonitorState};

verus! {

/// A number in decimal with at least two digits.
pub open spec fn two_digits(n: nat) -> Seq<char> {
    if n < 10 { seq!['0'] + decimal(n) } else { decimal(n) }
}

/// The time since monitoring started, as minutes and seconds, `mm:ss`.
pub open spec fn uptime(secs: nat) -> Seq<char> {
    two_digits(secs / 60) + seq![':'] + two_digits(secs % 60)
}

/// The time of day, in UTC, of a moment given in seconds since the Unix
/// epoch, as `hh:mm:ss UTC`.
pub open spec fn clock_time(unix_secs: nat) -> Seq<char> {
    let day = unix_secs % 86400;
    two_digits(day / 3600) + seq![':'] + two_digits((day % 3600) / 60) + seq![':'] + two_digits(day % 60)
        + " UTC"@
}

/// How long ago the last new address was found, given the seconds since
/// that discovery and its time in seconds since the Unix epoch: under a
/// minute in seconds; from a minute on in whole minutes, with the time of
/// that discovery.
pub open spec fn stability(last_new: Option<(u64, u64)>) -> Seq<char> {
    match last_new {
        Some((ago, at)) => if ago >= 60 {
            "No new IPs for "@ + decimal((ago / 60) as nat) + " min (last at "@ + clock_time(at as nat) + ")"@
        } else {
            "Last new: "@ + decimal(ago as nat) + "s ago"@
        },
        None => "No IPs discovered yet"@,
    }
}

fn push_two_digits(s: &mut String, n: u64)
    ensures
        final(s)@ == old(s)@ + two_digits(n as nat),
{
    let ghost start = s@;
    if n < 10 {
        push_char(s, '0');
    }
    push_decimal(s, n);
    assert(s@ =~= start + two_digits(n as nat));
}

/// The uptime text for `elapsed_secs` seconds.
pub fn uptime_text(elapsed_secs: u64) -> (r: String)
    ensures
        r@ == uptime(elapsed_secs as nat),
{
    let mut r = String::new();
    push_two_digits(&mut r, elapsed_secs / 60);
    push_char(&mut r, ':');
    push_two_digits(&mut r, elapsed_secs % 60);
    assert(r@ =~= uptime(elapsed_secs as nat));
    r
}

/// The time of day, in UTC, of a moment in seconds since the Unix epoch.
pub fn clock_time_text(unix_secs: u64) -> (r: String)
    ensures
        r@ == clock_time(unix_secs as nat),
{
    let day = unix_secs % 86400;
    let mut r = String::new();
    push_two_digits(&mut r, day / 3600);
    push_char(&mut r, ':');
    push_two_digits(&mut r, (day % 3600) / 60);
    push_char(&mut r, ':');
    push_two_digits(&mut r, day % 60);
    push_str(&mut r, " UTC");
    assert(r@ =~= clock_time(unix_secs as nat));
    r
}

/// The stability text: how long no new address was found and when the
/// last one was, given the seconds since it and its Unix time, if any.
pub fn stability_text(last_new: Option<(u64, u64)>) -> (r: String)
    ensures
        r@ == stability(last_new),
{
    let mut r = String::new();
    match last_new {
        Some((ago, at)) => {
            if ago >= 60 {
                let clock = clock_time_text(at);
                push_str(&mut r, "No new IPs for ");
                push_decimal(&mut r, ago / 60);
                push_str(&mut r, " min (last at ");
                push_str(&mut r, clock.as_str());
                push_str(&mut r, ")");
            } else {
                push_str(&mut r, "Last new: ");
                push_decimal(&mut r, ago);
                push_str(&mut r, "s ago");
            }
        },
        None => {
            push_str(&mut r, "No IPs discovered yet");
        },
    }
    assert(r@ =~= stability(last_new));
    r
}

/// The seconds since the Unix epoch, in decimal.
pub fn chrono_timestamp(now_secs: u64) -> (r: String)
    ensures
        r@ == decimal(now_secs as nat),
{
    let mut r = String::new();
    push_decimal(&mut r, now_secs);
    assert(r@ =~= decimal(now_secs as nat));
    r
}

/// The name of the file the masked entries are exported to.
pub open spec fn export_name(now_secs: nat) -> Seq<char> {
    "net-use-export-"@ + decimal(now_secs) + ".txt"@
}

/// The name of the export file at `now_secs` seconds since the Unix epoch.
pub fn export_file_name(now_secs: u64) -> (r: String)
    ensures
        r@ == export_name(now_secs as nat),
{
    let mut r = String::new();
    push_str(&mut r, "net-use-export-");
    let stamp = chrono_timestamp(now_secs);
    push_str(&mut r, stamp.as_str());
    push_str(&mut r, ".txt");
    assert(r@ =~= export_name(now_secs as nat));
    r
}

/// The pieces of the header: the target's name and bundle identifier,
/// whether its monitoring is paused, else whether it is running, how many
/// of its processes are tracked, and for how long monitoring has run.
pub open spec fn header_texts(app: AppInfo, active: bool, paused: bool, procs: nat, elapsed: nat) -> Seq<(Seq<char>, Tone)> {
    seq![
        ("Target: "@, Tone::DarkGray),
        (app.display_name@, Tone::White),
        ("  ("@ + (match app.bundle_id {
            Some(b) => b@,
            None => "--"@,
        }) + ")"@, Tone::DarkGray),
        ("    "@, Tone::Plain),
        if paused {
            ("\u{25a0} Paused"@, Tone::DarkGray)
        } else if active {
            ("\u{25cf} Monitoring"@, Tone::Green)
        } else {
            ("\u{25cb} Waiting"@, Tone::Yellow)
        },
        ("    Procs: "@ + decimal(procs) + "    Uptime: "@ + uptime(elapsed), Tone::DarkGray),
    ]
}

fn text_segment(text: String, tone: Tone) -> (r: Segment)
    ensures
        r.text == text,
        r.tone == tone,
{
    Segment { text, tone }
}

/// The pieces of the monitoring screen's header.
pub fn header_segments(
    app: &AppInfo,
    target_active: bool,
    paused: bool,
    process_count: usize,
    elapsed_secs: u64,
) -> (r: Vec<Segment>)
    ensures
        r.len() == 6,
        forall|i: int|
            0 <= i < 6 ==> (#[trigger] r@[i]).text@ == header_texts(
                *app,
                target_active,
                paused,
                process_count as nat,
                elapsed_secs as nat,
            )[i].0 && r@[i].tone == header_texts(
                *app,
                target_active,
                paused,
                process_count as nat,
                elapsed_secs as nat,
            )[i].1,
{
    let ghost t = header_texts(*app, target_active, paused, process_count as nat, elapsed_secs as nat);
    let mut r: Vec<Segment> = Vec::new();
    let mut s0 = String::new();
    push_str(&mut s0, "Target: ");
    r.push(text_segment(s0, Tone::DarkGray));
    r.push(text_segment(app.display_name.clone(), Tone::White));
    let mut s2 = String::new();
    push_str(&mut s2, "  (");
    match &app.bundle_id {
        Some(b) => push_str(&mut s2, b.as_str()),
        None => push_str(&mut s2, "--"),
    }
    push_str(&mut s2, ")");
    r.push(text_segment(s2, Tone::DarkGray));
    let mut s3 = String::new();
    push_str(&mut s3, "    ");
    r.push(text_segment(s3, Tone::Plain));
    let mut s4 = String::new();
    if paused {
        push_str(&mut s4, "\u{25a0} Paused");
        r.push(text_segment(s4, Tone::DarkGray));
    } else if target_active {
        push_str(&mut s4, "\u{25cf} Monitoring");
        r.push(text_segment(s4, Tone::Green));
    } else {
        push_str(&mut s4, "\u{25cb} Waiting");
        r.push(text_segment(s4, Tone::Yellow));
    }
    let mut s5 = String::new();
    push_str(&mut s5, "    Procs: ");
    push_decimal(&mut s5, process_count as u64);
    push_str(&mut s5, "    Uptime: ");
    let up = uptime_text(elapsed_secs);
    push_str(&mut s5, up.as_str());
    r.push(text_segment(s5, Tone::DarkGray));
    assert(r@[0].text@ =~= t[0].0);
    assert(r@[1].text@ =~= t[1].0);
    assert(r@[2].text@ =~= t[2].0);
    assert(r@[3].text@ =~= t[3].0);
    assert(r@[4].text@ =~= t[4].0);
    assert(r@[5].text@ =~= t[5].0);
    r
}

/// A status message is shown for five seconds.
pub open spec fn message_text(message: Option<(String, u64)>) -> Seq<char> {
    match message {
        Some((m, age)) => if age < 5 { "  "@ + m@ } else { Seq::empty() },
        None => Seq::empty(),
    }
}

/// The pieces of the first status line: the number of entries shown, how
/// long no new address was found and when the last one was (see
/// `stability`), the two modes, and the status message with its age in
/// seconds, if there is one.
pub open spec fn status_texts(
    total: nat,
    last_new: Option<(u64, u64)>,
    display: AddressDisplayMode,
    order: AddressOrderMode,
    message: Option<(String, u64)>,
) -> Seq<(Seq<char>, Tone)> {
    seq![
        (" Total: "@ + decimal(total) + " "@, Tone::White),
        ("\u{2502} "@ + stability(last_new) + " \u{2502} Address view: "@ + display.spec_label()
            + " \u{2502} Order: "@ + order.spec_label(), Tone::DarkGray),
        (message_text(message), Tone::Green),
    ]
}

/// The pieces of the first status line.
pub fn status_segments(
    total: usize,
    last_new: Option<(u64, u64)>,
    display: AddressDisplayMode,
    order: AddressOrderMode,
    message: &Option<(String, u64)>,
) -> (r: Vec<Segment>)
    ensures
        r.len() == 3,
        forall|i: int|
            0 <= i < 3 ==> (#[trigger] r@[i]).text@ == status_texts(
                total as nat,
                last_new,
                display,
                order,
                *message,
            )[i].0 && r@[i].tone == status_texts(total as nat, last_new, display, order, *message)[i].1,
{
    let ghost t = status_texts(total as nat, last_new, display, order, *message);
    let mut r: Vec<Segment> = Vec::new();
    let mut s0 = String::new();
    push_str(&mut s0, " Total: ");
    push_decimal(&mut s0, total as u64);
    push_str(&mut s0, " ");
    r.push(text_segment(s0, Tone::White));
    let mut s1 = String::new();
    push_str(&mut s1, "\u{2502} ");
    let st = stability_text(last_new);
    push_str(&mut s1, st.as_str());
    push_str(&mut s1, " \u{2502} Address view: ");
    push_str(&mut s1, display.label());
    push_str(&mut s1, " \u{2502} Order: ");
    push_str(&mut s1, order.label());
    r.push(text_segment(s1, Tone::DarkGray));
    let mut s2 = String::new();
    match message {
        Some((m, age)) => {
            if *age < 5 {
                push_str(&mut s2, "  ");
                push_str(&mut s2, m.as_str());
            }
        },
        None => {},
    }
    r.push(text_segment(s2, Tone::Green));
    assert(r@[0].text@ =~= t[0].0);
    assert(r@[1].text@ =~= t[1].0);
    assert(r@[2].text@ =~= t[2].0);
    r
}

/// The status message after pausing or resuming a target.
pub open spec fn pause_message_text(state: AppMonitorState) -> Seq<char> {
    match state {
        AppMonitorState::Monitoring => "Monitoring resumed"@,
        AppMonitorState::Paused => "Monitoring paused"@,
        AppMonitorState::Unmonitored => "Monitoring stopped"@,
    }
}

/// The status message after pausing or resuming a target.
pub fn pause_message(state: AppMonitorState) -> (r: &'static str)
    ensures
        r@ == pause_message_text(state),
{
    match state {
        AppMonitorState::Monitoring => "Monitoring resumed",
        AppMonitorState::Paused => "Monitoring paused",
        AppMonitorState::Unmonitored => "Monitoring stopped",
    }
}

} // verus!
