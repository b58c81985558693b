//! Choosing the target: from the command line or a selected app, checking
//! it, describing it, and saving its address lists between visits.

use vstd::prelude::*;

use crate::address_lists::{empty_lists, law_restore_into_empty_round_trip, restored, Lists};
use crate::monitor_view::MonitorView;
use crate::text::{push_signed_decimal, push_str, signed_decimal, strs};
use crate::types::{opt_text, AppError, AppInfo, AppMonitorState, Cli, MonitorTarget};

verus! {

/// The target the command line names: `--pid`, else `--name`, else
/// `--bundle`; none when it names none.
pub open spec fn spec_cli_to_target(cli: Cli) -> Option<MonitorTarget> {
    match cli.pid {
        Some(pid) => Some(MonitorTarget::Pid(pid)),
        None => match cli.name {
            Some(n) => Some(MonitorTarget::Name(n)),
            None => match cli.bundle {
                Some(b) => Some(MonitorTarget::Bundle(b)),
                None => None,
            },
        },
    }
}

/// The target the command line names.
pub fn cli_to_target(cli: &Cli) -> (r: Option<MonitorTarget>)
    ensures
        r == spec_cli_to_target(*cli),
{
    match cli.pid {
        Some(pid) => Some(MonitorTarget::Pid(pid)),
        None => match &cli.name {
            Some(n) => Some(MonitorTarget::Name(n.clone())),
            None => match &cli.bundle {
                Some(b) => Some(MonitorTarget::Bundle(b.clone())),
                None => None,
            },
        },
    }
}

/// Where the address history is kept when `--data-file` names no file.
pub open spec fn default_history_file() -> Seq<char> {
    "/tmp/.net-use-address-history.json"@
}

/// The file the address history is read from and written to: the one
/// `--data-file` names, else the default.
pub fn history_file_path(cli: &Cli) -> (r: String)
    ensures
        r@ == match cli.data_file {
            Some(f) => f@,
            None => default_history_file(),
        },
{
    match &cli.data_file {
        Some(f) => f.clone(),
        None => {
            let mut s = String::new();
            push_str(&mut s, "/tmp/.net-use-address-history.json");
            s
        },
    }
}

/// Checks a target before monitoring: a PID target needs a running process
/// of that PID (`pid_found` tells whether one runs); other targets may
/// appear later.
pub fn validate_target(target: &MonitorTarget, pid_found: bool) -> (r: Result<(), AppError>)
    ensures
        match *target {
            MonitorTarget::Pid(pid) => if pid_found {
                r is Ok
            } else {
                r == Err::<(), AppError>(AppError::ProcessNotFound(pid))
            },
            _ => r is Ok,
        },
{
    match target {
        MonitorTarget::Pid(pid) => {
            if !pid_found {
                return Err(AppError::ProcessNotFound(*pid));
            }
            Ok(())
        },
        _ => Ok(()),
    }
}

/// The target for a selected app: its bundle identifier, else its PID,
/// else its executable name.
pub open spec fn spec_app_to_target(app: AppInfo) -> MonitorTarget {
    match app.bundle_id {
        Some(b) => MonitorTarget::Bundle(b),
        None => match app.pid {
            Some(pid) => MonitorTarget::Pid(pid),
            None => MonitorTarget::Name(app.executable_name),
        },
    }
}

/// The target for a selected app.
pub fn app_to_target(app: &AppInfo) -> (r: MonitorTarget)
    ensures
        r == spec_app_to_target(*app),
{
    match &app.bundle_id {
        Some(b) => MonitorTarget::Bundle(b.clone()),
        None => match app.pid {
            Some(pid) => MonitorTarget::Pid(pid),
            None => MonitorTarget::Name(app.executable_name.clone()),
        },
    }
}

/// How the monitoring screen describes a target: a PID by its process name
/// (`pid_name`), or "PID n" when it has none; a name by itself; a bundle by
/// the executable name its app resolves to (`bundle_executable`), or by
/// the identifier when it resolves to none.
pub open spec fn is_target_app_info(
    info: AppInfo,
    target: MonitorTarget,
    pid_name: Option<Seq<char>>,
    bundle_executable: Option<Seq<char>>,
) -> bool {
    &&& info.monitor_state == AppMonitorState::Unmonitored
    &&& match target {
        MonitorTarget::Pid(pid) => {
            &&& info.display_name@ == match pid_name {
                Some(n) => n,
                None => "PID "@ + signed_decimal(pid as int),
            }
            &&& info.bundle_id is None
            &&& info.executable_name@ == Seq::<char>::empty()
            &&& info.app_path is None
            &&& info.pid == Some(pid)
        },
        MonitorTarget::Name(name) => {
            &&& info.display_name@ == name@
            &&& info.bundle_id is None
            &&& info.executable_name@ == name@
            &&& info.app_path is None
            &&& info.pid is None
        },
        MonitorTarget::Bundle(b) => {
            &&& info.display_name@ == match bundle_executable {
                Some(e) => e,
                None => b@,
            }
            &&& opt_text(info.bundle_id) == Some(b@)
            &&& info.executable_name@ == Seq::<char>::empty()
            &&& info.app_path is None
            &&& info.pid is None
        },
    }
}

/// The description of a target for the monitoring screen.
pub fn target_to_app_info(
    target: &MonitorTarget,
    pid_name: Option<String>,
    bundle_executable: Option<String>,
) -> (r: AppInfo)
    ensures
        is_target_app_info(r, *target, opt_text(pid_name), opt_text(bundle_executable)),
{
    match target {
        MonitorTarget::Pid(pid) => {
            let display_name = match pid_name {
                Some(n) => n,
                None => {
                    let mut s = String::new();
                    push_str(&mut s, "PID ");
                    push_signed_decimal(&mut s, *pid);
                    s
                },
            };
            AppInfo {
                display_name,
                bundle_id: None,
                executable_name: String::new(),
                app_path: None,
                pid: Some(*pid),
                monitor_state: AppMonitorState::Unmonitored,
            }
        },
        MonitorTarget::Name(name) => AppInfo {
            display_name: name.clone(),
            bundle_id: None,
            executable_name: name.clone(),
            app_path: None,
            pid: None,
            monitor_state: AppMonitorState::Unmonitored,
        },
        MonitorTarget::Bundle(bundle_id) => {
            let display_name = match bundle_executable {
                Some(e) => e,
                None => bundle_id.clone(),
            };
            AppInfo {
                display_name,
                bundle_id: Some(bundle_id.clone()),
                executable_name: String::new(),
                app_path: None,
                pid: None,
                monitor_state: AppMonitorState::Unmonitored,
            }
        },
    }
}

/// The address lists of a target, saved when its monitoring screen is left.
#[derive(Clone, Debug, Default)]
pub struct PreservedData {
    pub ipv4_masked: Vec<String>,
    pub ipv4_raw: Vec<String>,
    pub ipv6_masked: Vec<String>,
    pub ipv6_raw: Vec<String>,
}

fn copy_strings(v: &[String]) -> (r: Vec<String>)
    ensures
        r@ == v@,
{
    let mut r: Vec<String> = Vec::new();
    for i in 0..v.len()
        invariant
            r@ == v@.subrange(0, i as int),
    {
        r.push(v[i].clone());
        assert(r@ =~= v@.subrange(0, i + 1));
    }
    assert(r@ =~= v@);
    r
}

impl PreservedData {
    /// The saved lists, in the order (IPv4 masked, IPv4 raw, IPv6 masked,
    /// IPv6 raw).
    pub open spec fn lists(&self) -> Lists {
        (strs(self.ipv4_masked@), strs(self.ipv4_raw@), strs(self.ipv6_masked@), strs(self.ipv6_raw@))
    }

    /// Saves the address lists of a monitoring screen.
    pub fn from_view(view: &MonitorView) -> (r: Self)
        ensures
            r.lists() == view.lists(),
    {
        PreservedData {
            ipv4_masked: copy_strings(view.ipv4_masked_data()),
            ipv4_raw: copy_strings(view.ipv4_raw_data()),
            ipv6_masked: copy_strings(view.ipv6_masked_data()),
            ipv6_raw: copy_strings(view.ipv6_raw_data()),
        }
    }

    /// Merges the saved lists into a monitoring screen.
    pub fn restore_into(&self, view: &mut MonitorView)
        ensures
            old(view).wf() ==> final(view).wf(),
            final(view).lists() == restored(old(view).lists(), self.lists()),
            final(view).spec_processes() == old(view).spec_processes(),
            final(view).spec_app_info() == old(view).spec_app_info(),
            final(view).spec_target_active() == old(view).spec_target_active(),
            final(view).display_mode() == old(view).display_mode(),
            final(view).order_mode() == old(view).order_mode(),
            final(view).scroll_offset() == old(view).scroll_offset(),
            final(view).visible_rows() == old(view).visible_rows(),
    {
        view.restore_data(
            self.ipv4_masked.as_slice(),
            self.ipv4_raw.as_slice(),
            self.ipv6_masked.as_slice(),
            self.ipv6_raw.as_slice(),
        );
    }
}

/// What is saved from a monitoring screen and restored into a new screen
/// for the same target gives back exactly the lists it had: revisiting a
/// target shows its history.
pub proof fn law_preserved_data_round_trip(view: MonitorView, saved: PreservedData, fresh: MonitorView)
    requires
        view.wf(),
        saved.lists() == view.lists(),
        fresh.lists() == empty_lists(),
    ensures
        restored(fresh.lists(), saved.lists()) == view.lists(),
{
    view.lemma_wf_lists();
    law_restore_into_empty_round_trip(view.lists());
}

} // verus!
