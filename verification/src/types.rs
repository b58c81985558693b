//! The data that flows between discovery, monitoring and the screens.

use vstd::prelude::*;

use crate::addr::{DiscoveredAddress, Ipv4Address, Ipv6Address};

verus! {

/// Where a target stands in the current session.
#[derive(Clone, Copy, Debug, PartialEq, Eq, Structural)]
pub enum AppMonitorState {
    Monitoring,
    Paused,
    Unmonitored,
}

/// An installed app, a running app, or a running command-line process.
#[derive(Clone, Debug)]
pub struct AppInfo {
    pub display_name: String,
    pub bundle_id: Option<String>,
    pub executable_name: String,
    pub app_path: Option<String>,
    pub pid: Option<i32>,
    pub monitor_state: AppMonitorState,
}

/// A tracked process.
#[derive(Clone, Debug)]
pub struct ProcessInfo {
    pub pid: i32,
    pub name: String,
    pub command: Option<String>,
}

/// What to monitor: one process, every process of a name, or an app bundle.
#[derive(Clone, Debug, PartialEq, Eq, Hash)]
pub enum MonitorTarget {
    Pid(i32),
    Name(String),
    Bundle(String),
}

/// What the monitor reports to the screens.
#[derive(Clone, Debug)]
pub enum MonitorEvent {
    NewAddress(DiscoveredAddress),
    NewIpv4Raw(Ipv4Address),
    NewIpv6Raw(Ipv6Address),
    ProcessAdded(ProcessInfo),
    ProcessRemoved(i32),
    TargetLost,
    TargetFound,
}

/// Why a target cannot be monitored.
#[derive(Clone, Debug, PartialEq, Eq)]
pub enum AppError {
    /// No process has the given PID.
    ProcessNotFound(i32),
    /// No installed app has the given bundle identifier.
    BundleNotFound(String),
    /// Another failure, by its message.
    Internal(String),
}

/// The command-line options.
#[derive(Clone, Debug)]
pub struct Cli {
    pub pid: Option<i32>,
    pub name: Option<String>,
    pub bundle: Option<String>,
    pub no_tui: bool,
    pub data_file: Option<String>,
}

/// A copy of an optional string.
pub fn copy_opt_string(s: &Option<String>) -> (r: Option<String>)
    ensures
        r == *s,
{
    match s {
        Some(v) => Some(v.clone()),
        None => None,
    }
}

/// A copy of an app entry.
pub fn copy_app_info(a: &AppInfo) -> (r: AppInfo)
    ensures
        r == *a,
{
    AppInfo {
        display_name: a.display_name.clone(),
        bundle_id: copy_opt_string(&a.bundle_id),
        executable_name: a.executable_name.clone(),
        app_path: copy_opt_string(&a.app_path),
        pid: a.pid,
        monitor_state: a.monitor_state,
    }
}

/// A copy of a process entry.
pub fn copy_process_info(p: &ProcessInfo) -> (r: ProcessInfo)
    ensures
        r == *p,
{
    ProcessInfo { pid: p.pid, name: p.name.clone(), command: copy_opt_string(&p.command) }
}

/// A copy of a target.
pub fn copy_target(t: &MonitorTarget) -> (r: MonitorTarget)
    ensures
        r == *t,
{
    match t {
        MonitorTarget::Pid(p) => MonitorTarget::Pid(*p),
        MonitorTarget::Name(n) => MonitorTarget::Name(n.clone()),
        MonitorTarget::Bundle(b) => MonitorTarget::Bundle(b.clone()),
    }
}

/// Whether two optional strings hold the same text (or are both absent).
pub fn same_opt_string(a: &Option<String>, b: &Option<String>) -> (r: bool)
    ensures
        r == (opt_text(*a) == opt_text(*b)),
{
    match (a, b) {
        (Some(x), Some(y)) => x.eq(y),
        (None, None) => true,
        _ => false,
    }
}

/// The text of an optional string.
pub open spec fn opt_text(s: Option<String>) -> Option<Seq<char>> {
    match s {
        Some(v) => Some(v@),
        None => None,
    }
}

} // verus!
