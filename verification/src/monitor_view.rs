//! The monitoring screen's state: the addresses found for the target, the
//! tracked processes, the display and ordering modes, and the scroll window
//! over the address rows.

use vstd::prelude::*;

use crate::address_lists::{append_unseen_strings, contains_string, lists_wf, restored, Lists};
use crate::addr::DiscoveredAddress;
use crate::key::Key;
use crate::process_summary::{format_process_summary, process_summary, MAX_PROCESS_ROWS};
use crate::sort::{is_stable_sort, key_views, lemma_stable_sort_unique, permuted, stable_sort_by_keys};
use crate::text::{chars_of, decimal, push_char, push_decimal, push_str, strs};
use crate::types::{copy_process_info, AppInfo, MonitorEvent, ProcessInfo};

verus! {

/// Whether the address lists show subnets or full addresses.
#[derive(Clone, Copy, Debug, PartialEq, Eq, Structural)]
pub enum AddressDisplayMode {
    Masked,
    Raw,
}

/// Whether the address lists show discovery order or alphabetical order.
#[derive(Clone, Copy, Debug, PartialEq, Eq, Structural)]
pub enum AddressOrderMode {
    Time,
    Alphabetical,
}

/// How the monitoring screen is left.
#[derive(Clone, Copy, Debug, PartialEq, Eq, Structural)]
pub enum MonitorAction {
    Quit,
    Back,
}

/// What a key on the monitoring screen asks for beyond the state change it
/// made itself.
#[derive(Clone, Debug, PartialEq, Eq)]
pub enum MonitorKeyResponse {
    /// Leave the screen.
    Leave(MonitorAction),
    /// Write the masked lists to a file.
    ExportRequested,
    /// Put the masked lists on the clipboard.
    CopyRequested,
    /// Pause the target's monitoring, or resume it.
    PauseRequested,
    /// Show this message in the status bar.
    Status(String),
    /// Nothing more to do.
    Handled,
}

impl AddressDisplayMode {
    pub open spec fn spec_label(self) -> Seq<char> {
        match self {
            AddressDisplayMode::Masked => "Masked"@,
            AddressDisplayMode::Raw => "Raw"@,
        }
    }

    pub fn label(self) -> (r: &'static str)
        ensures
            r@ == self.spec_label(),
    {
        match self {
            AddressDisplayMode::Masked => "Masked",
            AddressDisplayMode::Raw => "Raw",
        }
    }

    pub open spec fn spec_toggle(self) -> Self {
        match self {
            AddressDisplayMode::Masked => AddressDisplayMode::Raw,
            AddressDisplayMode::Raw => AddressDisplayMode::Masked,
        }
    }

    pub fn toggle(self) -> (r: Self)
        ensures
            r == self.spec_toggle(),
    {
        match self {
            AddressDisplayMode::Masked => AddressDisplayMode::Raw,
            AddressDisplayMode::Raw => AddressDisplayMode::Masked,
        }
    }
}

impl AddressOrderMode {
    pub open spec fn spec_label(self) -> Seq<char> {
        match self {
            AddressOrderMode::Time => "Time"@,
            AddressOrderMode::Alphabetical => "A-Z"@,
        }
    }

    pub fn label(self) -> (r: &'static str)
        ensures
            r@ == self.spec_label(),
    {
        match self {
            AddressOrderMode::Time => "Time",
            AddressOrderMode::Alphabetical => "A-Z",
        }
    }

    pub open spec fn spec_toggle(self) -> Self {
        match self {
            AddressOrderMode::Time => AddressOrderMode::Alphabetical,
            AddressOrderMode::Alphabetical => AddressOrderMode::Time,
        }
    }

    pub fn toggle(self) -> (r: Self)
        ensures
            r == self.spec_toggle(),
    {
        match self {
            AddressOrderMode::Time => AddressOrderMode::Alphabetical,
            AddressOrderMode::Alphabetical => AddressOrderMode::Time,
        }
    }
}

/// Toggling a mode twice gives the mode back.
pub proof fn law_mode_toggles_are_involutions(d: AddressDisplayMode, o: AddressOrderMode)
    ensures
        d.spec_toggle().spec_toggle() == d,
        o.spec_toggle().spec_toggle() == o,
        d.spec_toggle() != d,
        o.spec_toggle() != o,
{
}

/// `shown` is `entries` as the order mode shows them: as discovered, or
/// sorted alphabetically.
pub open spec fn shown_order(mode: AddressOrderMode, entries: Seq<Seq<char>>, shown: Seq<Seq<char>>) -> bool {
    match mode {
        AddressOrderMode::Time => shown == entries,
        AddressOrderMode::Alphabetical => is_stable_sort(entries, entries, shown),
    }
}

/// A section of address rows: its title with the number of entries, then
/// each entry indented by two spaces, or "  (none)".
pub open spec fn titled_section(title: Seq<char>, entries: Seq<Seq<char>>) -> Seq<Seq<char>> {
    seq![title + " ("@ + decimal(entries.len()) + seq![')']] + if entries.len() == 0 {
        seq!["  (none)"@]
    } else {
        entries.map_values(|e: Seq<char>| "  "@ + e)
    }
}

pub open spec fn ipv4_title(mode: AddressDisplayMode) -> Seq<char> {
    match mode {
        AddressDisplayMode::Masked => "IPv4 Subnets"@,
        AddressDisplayMode::Raw => "IPv4 Addresses"@,
    }
}

pub open spec fn ipv6_title(mode: AddressDisplayMode) -> Seq<char> {
    match mode {
        AddressDisplayMode::Masked => "IPv6 Subnets"@,
        AddressDisplayMode::Raw => "IPv6 Addresses"@,
    }
}

/// The address rows: the IPv4 section, an empty row, the IPv6 section.
pub open spec fn address_rows(
    mode: AddressDisplayMode,
    v4: Seq<Seq<char>>,
    v6: Seq<Seq<char>>,
) -> Seq<Seq<char>> {
    titled_section(ipv4_title(mode), v4) + seq![Seq::<char>::empty()] + titled_section(
        ipv6_title(mode),
        v6,
    )
}

/// The number of address rows for `n4` IPv4 and `n6` IPv6 entries.
pub open spec fn row_count(n4: nat, n6: nat) -> nat {
    3 + (if n4 == 0 { 1 } else { n4 }) + (if n6 == 0 { 1 } else { n6 })
}

/// The largest scroll offset: the rows that do not fit in the window
/// (a window has at least one row).
pub open spec fn max_offset(total: int, visible: int) -> int {
    let v = if visible < 1 { 1 } else { visible };
    if total > v { total - v } else { 0 }
}

/// The processes without the one of the given PID.
pub open spec fn without_pid(procs: Seq<ProcessInfo>, pid: i32) -> Seq<ProcessInfo>
    decreases procs.len(),
{
    if procs.len() == 0 {
        procs
    } else {
        let rest = without_pid(procs.drop_last(), pid);
        if procs.last().pid == pid { rest } else { rest.push(procs.last()) }
    }
}

/// Whether some process has the given PID.
pub open spec fn has_pid(procs: Seq<ProcessInfo>, pid: i32) -> bool {
    exists|i: int| 0 <= i < procs.len() && procs[i].pid == pid
}

/// The monitoring screen's state.
pub struct MonitorView {
    app_info: AppInfo,
    processes: Vec<ProcessInfo>,
    ipv4_masked_subnets: Vec<String>,
    ipv4_raw_addresses: Vec<String>,
    ipv6_masked_addresses: Vec<String>,
    ipv6_raw_addresses: Vec<String>,
    target_active: bool,
    address_display_mode: AddressDisplayMode,
    address_order_mode: AddressOrderMode,
    address_scroll_offset: usize,
    address_visible_rows: usize,
}

impl MonitorView {
    /// The four address lists (IPv4 masked, IPv4 raw, IPv6 masked, IPv6 raw),
    /// in discovery order.
    pub closed spec fn lists(&self) -> Lists {
        (
            strs(self.ipv4_masked_subnets@),
            strs(self.ipv4_raw_addresses@),
            strs(self.ipv6_masked_addresses@),
            strs(self.ipv6_raw_addresses@),
        )
    }

    pub closed spec fn spec_processes(&self) -> Seq<ProcessInfo> {
        self.processes@
    }

    pub closed spec fn spec_app_info(&self) -> AppInfo {
        self.app_info
    }

    pub closed spec fn spec_target_active(&self) -> bool {
        self.target_active
    }

    pub closed spec fn display_mode(&self) -> AddressDisplayMode {
        self.address_display_mode
    }

    pub closed spec fn order_mode(&self) -> AddressOrderMode {
        self.address_order_mode
    }

    pub closed spec fn scroll_offset(&self) -> usize {
        self.address_scroll_offset
    }

    pub closed spec fn visible_rows(&self) -> usize {
        self.address_visible_rows
    }

    /// No list repeats an entry, no entry is in both masked lists, and no
    /// two tracked processes share a PID.
    pub closed spec fn wf(&self) -> bool {
        &&& lists_wf(self.lists())
        &&& forall|i: int, j: int|
            0 <= i < j < self.processes@.len() ==> self.processes@[i].pid
                != self.processes@[j].pid
    }

    /// A well-formed screen has well-formed address lists.
    pub proof fn lemma_wf_lists(&self)
        requires
            self.wf(),
        ensures
            lists_wf(self.lists()),
    {
    }

    /// The IPv4 entries of the current display mode, in discovery order.
    pub open spec fn ipv4_source(&self) -> Seq<Seq<char>> {
        match self.display_mode() {
            AddressDisplayMode::Masked => self.lists().0,
            AddressDisplayMode::Raw => self.lists().1,
        }
    }

    /// The IPv6 entries of the current display mode, in discovery order.
    pub open spec fn ipv6_source(&self) -> Seq<Seq<char>> {
        match self.display_mode() {
            AddressDisplayMode::Masked => self.lists().2,
            AddressDisplayMode::Raw => self.lists().3,
        }
    }

    /// The number of address rows in the current display mode.
    pub open spec fn spec_row_count(&self) -> nat {
        row_count(self.ipv4_source().len(), self.ipv6_source().len())
    }

    /// This screen is `before` with the order mode switched and all else kept.
    pub open spec fn order_toggled_from(&self, before: &MonitorView) -> bool {
        &&& self.order_mode() == before.order_mode().spec_toggle()
        &&& self.lists() == before.lists()
        &&& self.spec_processes() == before.spec_processes()
        &&& self.spec_app_info() == before.spec_app_info()
        &&& self.spec_target_active() == before.spec_target_active()
        &&& self.display_mode() == before.display_mode()
        &&& self.scroll_offset() == before.scroll_offset()
        &&& self.visible_rows() == before.visible_rows()
    }

    /// Everything but the scroll position is as in `other`.
    pub open spec fn same_but_scroll(&self, other: &MonitorView) -> bool {
        &&& self.lists() == other.lists()
        &&& self.spec_processes() == other.spec_processes()
        &&& self.spec_app_info() == other.spec_app_info()
        &&& self.spec_target_active() == other.spec_target_active()
        &&& self.display_mode() == other.display_mode()
        &&& self.order_mode() == other.order_mode()
        &&& self.visible_rows() == other.visible_rows()
    }

    /// A new screen for a target: no addresses, no processes, target not
    /// yet found, masked display in discovery order, scrolled to the top.
    pub fn new(app_info: AppInfo) -> (r: Self)
        ensures
            r.wf(),
            r.lists() == crate::address_lists::empty_lists(),
            r.spec_processes() == Seq::<ProcessInfo>::empty(),
            r.spec_app_info() == app_info,
            !r.spec_target_active(),
            r.display_mode() == AddressDisplayMode::Masked,
            r.order_mode() == AddressOrderMode::Time,
            r.scroll_offset() == 0,
            r.visible_rows() == 1,
    {
        let r = MonitorView {
            app_info,
            processes: Vec::new(),
            ipv4_masked_subnets: Vec::new(),
            ipv4_raw_addresses: Vec::new(),
            ipv6_masked_addresses: Vec::new(),
            ipv6_raw_addresses: Vec::new(),
            target_active: false,
            address_display_mode: AddressDisplayMode::Masked,
            address_order_mode: AddressOrderMode::Time,
            address_scroll_offset: 0,
            address_visible_rows: 1,
        };
        assert(r.lists() =~= crate::address_lists::empty_lists());
        r
    }

    /// Merges saved address lists into this screen (see `restored`): each
    /// saved entry is appended unless already present.
    pub fn restore_data(
        &mut self,
        ipv4_masked: &[String],
        ipv4_raw: &[String],
        ipv6_masked: &[String],
        ipv6_raw: &[String],
    )
        ensures
            old(self).wf() ==> final(self).wf(),
            final(self).lists() == restored(
                old(self).lists(),
                (strs(ipv4_masked@), strs(ipv4_raw@), strs(ipv6_masked@), strs(ipv6_raw@)),
            ),
            final(self).spec_processes() == old(self).spec_processes(),
            final(self).spec_app_info() == old(self).spec_app_info(),
            final(self).spec_target_active() == old(self).spec_target_active(),
            final(self).display_mode() == old(self).display_mode(),
            final(self).order_mode() == old(self).order_mode(),
            final(self).scroll_offset() == old(self).scroll_offset(),
            final(self).visible_rows() == old(self).visible_rows(),
    {
        let empty: Vec<String> = Vec::new();
        append_unseen_strings(&mut self.ipv4_masked_subnets, &self.ipv6_masked_addresses, ipv4_masked);
        append_unseen_strings(&mut self.ipv4_raw_addresses, &empty, ipv4_raw);
        append_unseen_strings(&mut self.ipv6_masked_addresses, &self.ipv4_masked_subnets, ipv6_masked);
        append_unseen_strings(&mut self.ipv6_raw_addresses, &empty, ipv6_raw);
        proof {
            assert(strs(empty@) =~= Seq::<Seq<char>>::empty());
            if old(self).wf() {
                crate::address_lists::law_restore_keeps_lists_well_formed(
                    old(self).lists(),
                    (strs(ipv4_masked@), strs(ipv4_raw@), strs(ipv6_masked@), strs(ipv6_raw@)),
                );
            }
        }
    }

    /// The IPv4 subnets, in discovery order.
    pub fn ipv4_masked_data(&self) -> (r: &[String])
        ensures
            strs(r@) == self.lists().0,
    {
        self.ipv4_masked_subnets.as_slice()
    }

    /// The full IPv4 addresses, in discovery order.
    pub fn ipv4_raw_data(&self) -> (r: &[String])
        ensures
            strs(r@) == self.lists().1,
    {
        self.ipv4_raw_addresses.as_slice()
    }

    /// The IPv6 subnets, in discovery order.
    pub fn ipv6_masked_data(&self) -> (r: &[String])
        ensures
            strs(r@) == self.lists().2,
    {
        self.ipv6_masked_addresses.as_slice()
    }

    /// The full IPv6 addresses, in discovery order.
    pub fn ipv6_raw_data(&self) -> (r: &[String])
        ensures
            strs(r@) == self.lists().3,
    {
        self.ipv6_raw_addresses.as_slice()
    }

    /// The target this screen monitors.
    pub fn app_info(&self) -> (r: &AppInfo)
        ensures
            *r == self.spec_app_info(),
    {
        &self.app_info
    }

    /// The tracked processes, in the order they were reported.
    pub fn processes(&self) -> (r: &[ProcessInfo])
        ensures
            r@ == self.spec_processes(),
    {
        self.processes.as_slice()
    }

    /// Whether the target is running.
    pub fn target_active(&self) -> (r: bool)
        ensures
            r == self.spec_target_active(),
    {
        self.target_active
    }

    pub fn address_display_mode(&self) -> (r: AddressDisplayMode)
        ensures
            r == self.display_mode(),
    {
        self.address_display_mode
    }

    pub fn address_order_mode(&self) -> (r: AddressOrderMode)
        ensures
            r == self.order_mode(),
    {
        self.address_order_mode
    }

    pub fn address_scroll_offset(&self) -> (r: usize)
        ensures
            r == self.scroll_offset(),
    {
        self.address_scroll_offset
    }

    pub fn address_visible_rows(&self) -> (r: usize)
        ensures
            r == self.visible_rows(),
    {
        self.address_visible_rows
    }

    /// Sets how many address rows the window shows.
    pub fn set_address_visible_rows(&mut self, rows: usize)
        ensures
            final(self).visible_rows() == rows,
            final(self).scroll_offset() == old(self).scroll_offset(),
            final(self).lists() == old(self).lists(),
            final(self).spec_processes() == old(self).spec_processes(),
            final(self).spec_app_info() == old(self).spec_app_info(),
            final(self).spec_target_active() == old(self).spec_target_active(),
            final(self).display_mode() == old(self).display_mode(),
            final(self).order_mode() == old(self).order_mode(),
            old(self).wf() ==> final(self).wf(),
    {
        self.address_visible_rows = rows;
    }

    /// Sets the scroll position, unchecked (the next clamp bounds it).
    pub fn set_address_scroll_offset(&mut self, offset: usize)
        ensures
            final(self).scroll_offset() == offset,
            final(self).same_but_scroll(old(self)),
            old(self).wf() ==> final(self).wf(),
    {
        self.address_scroll_offset = offset;
    }
}


/// Every process left after removing a PID was there before, and none has
/// that PID.
proof fn lemma_without_pid(procs: Seq<ProcessInfo>, pid: i32)
    ensures
        forall|x: ProcessInfo| #[trigger]
            without_pid(procs, pid).contains(x) ==> procs.contains(x) && x.pid != pid,
        (forall|i: int, j: int| 0 <= i < j < procs.len() ==> procs[i].pid != procs[j].pid) ==> (
        forall|i: int, j: int|
            0 <= i < j < without_pid(procs, pid).len() ==> without_pid(procs, pid)[i].pid
                != without_pid(procs, pid)[j].pid),
    decreases procs.len(),
{
    if procs.len() > 0 {
        let init = procs.drop_last();
        lemma_without_pid(init, pid);
        let rest = without_pid(init, pid);
        let last = procs.last();
        assert forall|x: ProcessInfo| #[trigger]
            without_pid(procs, pid).contains(x) implies procs.contains(x) && x.pid != pid by {
            if x != last || last.pid == pid {
                assert(rest.contains(x)) by {
                    let k = choose|k: int| 0 <= k < without_pid(procs, pid).len() && without_pid(procs, pid)[k] == x;
                    if last.pid != pid {
                        assert(without_pid(procs, pid) == rest.push(last));
                        assert(k < rest.len());
                        assert(rest[k] == x);
                    }
                }
                let k = choose|k: int| 0 <= k < init.len() && init[k] == x;
                assert(procs[k] == x);
            } else {
                assert(procs[procs.len() - 1] == x);
            }
        }
        if forall|i: int, j: int| 0 <= i < j < procs.len() ==> procs[i].pid != procs[j].pid {
            assert forall|i: int, j: int| 0 <= i < j < init.len() implies init[i].pid != init[j].pid by {
                assert(procs[i] == init[i] && procs[j] == init[j]);
            }
            if last.pid != pid {
                let w = rest.push(last);
                assert forall|i: int, j: int| 0 <= i < j < w.len() implies w[i].pid != w[j].pid by {
                    if j == w.len() - 1 {
                        assert(rest.contains(w[i]));
                        assert(init.contains(w[i]));
                        let k = choose|k: int| 0 <= k < init.len() && init[k] == w[i];
                        assert(procs[k] == w[i]);
                    }
                }
            }
        }
    }
}

impl MonitorView {
    /// Applies one report of the monitor. A subnet is added to its masked
    /// list unless either masked list has it already; a full address is
    /// added to its raw list unless present; a process is tracked unless its
    /// PID is tracked already; a removed process is dropped; losing the
    /// target clears the processes. Returns whether a new subnet was added.
    pub fn handle_event(&mut self, event: MonitorEvent) -> (new_address: bool)
        ensures
            old(self).wf() ==> final(self).wf(),
            final(self).spec_app_info() == old(self).spec_app_info(),
            final(self).display_mode() == old(self).display_mode(),
            final(self).order_mode() == old(self).order_mode(),
            final(self).scroll_offset() == old(self).scroll_offset(),
            final(self).visible_rows() == old(self).visible_rows(),
            ({
                let l = old(self).lists();
                let procs = old(self).spec_processes();
                let active = old(self).spec_target_active();
                match event {
                    MonitorEvent::NewAddress(a) => {
                        let t = a.text();
                        let seen = l.0.contains(t) || l.2.contains(t);
                        &&& new_address == !seen
                        &&& final(self).lists() == if seen {
                            l
                        } else {
                            match a {
                                DiscoveredAddress::Ipv4Subnet(_) => (l.0.push(t), l.1, l.2, l.3),
                                DiscoveredAddress::Ipv6Subnet64(_) => (l.0, l.1, l.2.push(t), l.3),
                            }
                        }
                        &&& final(self).spec_processes() == procs
                        &&& final(self).spec_target_active() == active
                    },
                    MonitorEvent::NewIpv4Raw(a) => {
                        let t = a.text();
                        &&& !new_address
                        &&& final(self).lists() == (
                            l.0,
                            if l.1.contains(t) { l.1 } else { l.1.push(t) },
                            l.2,
                            l.3,
                        )
                        &&& final(self).spec_processes() == procs
                        &&& final(self).spec_target_active() == active
                    },
                    MonitorEvent::NewIpv6Raw(a) => {
                        let t = a.text();
                        &&& !new_address
                        &&& final(self).lists() == (
                            l.0,
                            l.1,
                            l.2,
                            if l.3.contains(t) { l.3 } else { l.3.push(t) },
                        )
                        &&& final(self).spec_processes() == procs
                        &&& final(self).spec_target_active() == active
                    },
                    MonitorEvent::ProcessAdded(info) => {
                        &&& !new_address
                        &&& final(self).lists() == l
                        &&& final(self).spec_processes() == if has_pid(procs, info.pid) {
                            procs
                        } else {
                            procs.push(info)
                        }
                        &&& final(self).spec_target_active() == active
                    },
                    MonitorEvent::ProcessRemoved(pid) => {
                        &&& !new_address
                        &&& final(self).lists() == l
                        &&& final(self).spec_processes() == without_pid(procs, pid)
                        &&& final(self).spec_target_active() == active
                    },
                    MonitorEvent::TargetFound => {
                        &&& !new_address
                        &&& final(self).lists() == l
                        &&& final(self).spec_processes() == procs
                        &&& final(self).spec_target_active()
                    },
                    MonitorEvent::TargetLost => {
                        &&& !new_address
                        &&& final(self).lists() == l
                        &&& final(self).spec_processes() == Seq::<ProcessInfo>::empty()
                        &&& !final(self).spec_target_active()
                    },
                }
            }),
    {
        let ghost l = self.lists();
        match event {
            MonitorEvent::NewAddress(addr) => {
                let addr_str = addr.to_string();
                if contains_string(&self.ipv4_masked_subnets, &addr_str) || contains_string(
                    &self.ipv6_masked_addresses,
                    &addr_str,
                ) {
                    return false;
                }
                match addr {
                    DiscoveredAddress::Ipv4Subnet(_) => {
                        self.ipv4_masked_subnets.push(addr_str);
                        assert(self.lists().0 =~= l.0.push(addr.text()));
                    },
                    DiscoveredAddress::Ipv6Subnet64(_) => {
                        self.ipv6_masked_addresses.push(addr_str);
                        assert(self.lists().2 =~= l.2.push(addr.text()));
                    },
                }
                proof {
                    let t = addr.text();
                    let n = self.lists();
                    assert forall|x: Seq<char>| lists_wf(l) && n.0.contains(x) implies !n.2.contains(x) by {
                        if x != t {
                            if n.0.contains(x) {
                                let k = choose|k: int| 0 <= k < n.0.len() && n.0[k] == x;
                                if k < l.0.len() {
                                    assert(l.0[k] == x);
                                }
                            }
                            if n.2.contains(x) {
                                let k = choose|k: int| 0 <= k < n.2.len() && n.2[k] == x;
                                if k < l.2.len() {
                                    assert(l.2[k] == x);
                                }
                            }
                        }
                    }
                }
                true
            },
            MonitorEvent::NewIpv4Raw(raw_addr) => {
                let raw_str = raw_addr.to_string();
                if !contains_string(&self.ipv4_raw_addresses, &raw_str) {
                    self.ipv4_raw_addresses.push(raw_str);
                    assert(self.lists().1 =~= l.1.push(raw_addr.text()));
                }
                false
            },
            MonitorEvent::NewIpv6Raw(raw_addr) => {
                let raw_str = raw_addr.to_string();
                if !contains_string(&self.ipv6_raw_addresses, &raw_str) {
                    self.ipv6_raw_addresses.push(raw_str);
                    assert(self.lists().3 =~= l.3.push(raw_addr.text()));
                }
                false
            },
            MonitorEvent::ProcessAdded(info) => {
                let mut found = false;
                for i in 0..self.processes.len()
                    invariant
                        found == (exists|j: int| 0 <= j < i && self.processes@[j].pid == info.pid),
                {
                    if self.processes[i].pid == info.pid {
                        found = true;
                    }
                }
                if !found {
                    self.processes.push(info);
                }
                false
            },
            MonitorEvent::ProcessRemoved(pid) => {
                let ghost old_procs = self.processes@;
                let mut kept: Vec<ProcessInfo> = Vec::new();
                for i in 0..self.processes.len()
                    invariant
                        self.processes@ == old_procs,
                        kept@ == without_pid(old_procs.subrange(0, i as int), pid),
                {
                    let ghost pre = old_procs.subrange(0, i + 1);
                    assert(pre.drop_last() =~= old_procs.subrange(0, i as int));
                    if self.processes[i].pid != pid {
                        kept.push(copy_process_info(&self.processes[i]));
                    }
                }
                assert(old_procs.subrange(0, old_procs.len() as int) =~= old_procs);
                proof {
                    lemma_without_pid(old_procs, pid);
                }
                self.processes = kept;
                false
            },
            MonitorEvent::TargetFound => {
                self.target_active = true;
                false
            },
            MonitorEvent::TargetLost => {
                self.target_active = false;
                self.processes = Vec::new();
                false
            },
        }
    }
}


/// The address rows have one title row, the entries or "(none)", for each
/// family, and one empty row between them.
pub proof fn lemma_address_rows_len(mode: AddressDisplayMode, v4: Seq<Seq<char>>, v6: Seq<Seq<char>>)
    ensures
        address_rows(mode, v4, v6).len() == row_count(v4.len(), v6.len()),
{
}

/// Showing entries in either order keeps their number.
pub proof fn lemma_shown_order_len(mode: AddressOrderMode, entries: Seq<Seq<char>>, shown: Seq<Seq<char>>)
    requires
        shown_order(mode, entries, shown),
    ensures
        shown.len() == entries.len(),
{
    if mode == AddressOrderMode::Alphabetical {
        let p = choose|p: Seq<int>| crate::sort::stably_sorts(entries, p) && shown == permuted(entries, p);
    }
}

/// Each order mode shows a list of entries in one way only: two showings of
/// the same entries in the same mode are equal.
pub proof fn law_shown_order_unique(
    mode: AddressOrderMode,
    entries: Seq<Seq<char>>,
    shown1: Seq<Seq<char>>,
    shown2: Seq<Seq<char>>,
)
    requires
        shown_order(mode, entries, shown1),
        shown_order(mode, entries, shown2),
    ensures
        shown1 == shown2,
{
    if mode == AddressOrderMode::Alphabetical {
        lemma_stable_sort_unique(entries, entries, shown1, shown2);
    }
}

/// Toggling the address order twice gives the screen back as it was: the
/// order mode, the display mode, the stored lists and the scroll position
/// come back, and each section shows the same entries in the same order as
/// before (no address is lost or moved).
pub proof fn law_order_toggle_twice(
    v0: MonitorView,
    v1: MonitorView,
    v2: MonitorView,
    shown4_before: Seq<Seq<char>>,
    shown6_before: Seq<Seq<char>>,
    shown4_after: Seq<Seq<char>>,
    shown6_after: Seq<Seq<char>>,
)
    requires
        v1.order_toggled_from(&v0),
        v2.order_toggled_from(&v1),
        shown_order(v0.order_mode(), v0.ipv4_source(), shown4_before),
        shown_order(v0.order_mode(), v0.ipv6_source(), shown6_before),
        shown_order(v2.order_mode(), v2.ipv4_source(), shown4_after),
        shown_order(v2.order_mode(), v2.ipv6_source(), shown6_after),
    ensures
        v2.order_mode() == v0.order_mode(),
        v2.display_mode() == v0.display_mode(),
        v2.lists() == v0.lists(),
        v2.scroll_offset() == v0.scroll_offset(),
        shown4_after == shown4_before,
        shown6_after == shown6_before,
{
    law_shown_order_unique(v0.order_mode(), v0.ipv4_source(), shown4_before, shown4_after);
    law_shown_order_unique(v0.order_mode(), v0.ipv6_source(), shown6_before, shown6_after);
}

/// The scroll position after a scroll key: one row up for Up, `k` and `K`;
/// one row down for Down, `j` and `J`; a window up for PageUp; a window
/// down for PageDown and Space; never below zero nor past the last offset.
pub open spec fn scrolled_offset(key: Key, offset: int, total: int, visible: int) -> int {
    let page = if visible < 1 { 1 } else { visible };
    let down = |n: int| if offset + n < max_offset(total, visible) {
        offset + n
    } else {
        max_offset(total, visible)
    };
    let up = |n: int| if offset >= n { offset - n } else { 0 };
    match key {
        Key::Up => up(1),
        Key::Char('k') => up(1),
        Key::Char('K') => up(1),
        Key::Down => down(1),
        Key::Char('j') => down(1),
        Key::Char('J') => down(1),
        Key::PageUp => up(page),
        Key::PageDown => down(page),
        Key::Char(' ') => down(page),
        _ => offset,
    }
}

/// The letter keys scroll like the arrows: Up, `k` and `K` move one row
/// up and stop at the top; Down, `j` and `J` move one row down and stop at
/// the last offset (the rows past one window, none when all fit); all of
/// them are scroll keys.
pub proof fn law_letter_keys_scroll_like_arrows(offset: int, total: int, visible: int)
    requires
        offset >= 0,
    ensures
        is_scroll_key(Key::Up) && is_scroll_key(Key::Char('k')) && is_scroll_key(Key::Char('K')),
        is_scroll_key(Key::Down) && is_scroll_key(Key::Char('j')) && is_scroll_key(Key::Char('J')),
        scrolled_offset(Key::Up, offset, total, visible) == (if offset >= 1 { offset - 1 } else { 0 }),
        scrolled_offset(Key::Char('k'), offset, total, visible) == scrolled_offset(Key::Up, offset, total, visible),
        scrolled_offset(Key::Char('K'), offset, total, visible) == scrolled_offset(Key::Up, offset, total, visible),
        scrolled_offset(Key::Down, offset, total, visible) == ({
            let window = if visible < 1 { 1 } else { visible };
            let last = if total > window { total - window } else { 0 };
            if offset + 1 < last { offset + 1 } else { last }
        }),
        scrolled_offset(Key::Char('j'), offset, total, visible) == scrolled_offset(Key::Down, offset, total, visible),
        scrolled_offset(Key::Char('J'), offset, total, visible) == scrolled_offset(Key::Down, offset, total, visible),
{
}

/// Whether a key scrolls the address rows.
pub open spec fn is_scroll_key(key: Key) -> bool {
    key == Key::Up || key == Key::Char('k') || key == Key::Char('K') || key == Key::Down || key
        == Key::Char('j') || key == Key::Char('J') || key == Key::PageUp || key == Key::PageDown
        || key == Key::Char(' ')
}

/// The lowest of an offset and the last offset.
pub open spec fn clamped(offset: int, total: int, visible: int) -> int {
    if offset < max_offset(total, visible) {
        offset
    } else {
        max_offset(total, visible)
    }
}

/// Each text followed by a line break, all joined.
pub open spec fn lines_text(lines: Seq<Seq<char>>) -> Seq<char>
    decreases lines.len(),
{
    if lines.len() == 0 {
        Seq::empty()
    } else {
        lines_text(lines.drop_last()) + lines.last() + seq!['\n']
    }
}

/// The title of the address panel: the display mode and, when the rows
/// overflow the window, the visible range with arrows for hidden rows above
/// and below; otherwise the number of rows.
pub open spec fn address_panel_title(
    label: Seq<char>,
    start: nat,
    end: nat,
    total: nat,
    visible: nat,
) -> Seq<char> {
    if total > visible {
        " Addresses ["@ + label + "]  Lines "@ + decimal(start + 1) + seq!['-'] + decimal(
            if end > start + 1 { end } else { (start + 1) as nat },
        ) + " / "@ + decimal(total) + seq![' '] + seq![if start > 0 { '\u{2191}' } else { ' ' }]
            + seq![if end < total { '\u{2193}' } else { ' ' }] + seq![' ']
    } else {
        " Addresses ["@ + label + "] ("@ + decimal(total) + ") "@
    }
}

/// A row of a section title: the title and the number of entries.
fn section_title(title: &str, n: usize) -> (s: String)
    ensures
        s@ == title@ + " ("@ + decimal(n as nat) + seq![')'],
{
    let mut s = String::new();
    push_str(&mut s, title);
    push_str(&mut s, " (");
    push_decimal(&mut s, n as u64);
    push_char(&mut s, ')');
    assert(s@ =~= title@ + " ("@ + decimal(n as nat) + seq![')']);
    s
}

/// Appends a titled section of rows.
fn push_section(rows: &mut Vec<String>, title: &str, entries: &Vec<String>)
    ensures
        strs(final(rows)@) == strs(old(rows)@) + titled_section(title@, strs(entries@)),
{
    let ghost start = strs(rows@);
    rows.push(section_title(title, entries.len()));
    if entries.len() == 0 {
        let mut none = String::new();
        push_str(&mut none, "  (none)");
        rows.push(none);
        assert(strs(rows@) =~= start + titled_section(title@, strs(entries@)));
    } else {
        let ghost head = strs(rows@);
        for i in 0..entries.len()
            invariant
                strs(rows@) == head + strs(entries@).subrange(0, i as int).map_values(
                    |e: Seq<char>| "  "@ + e,
                ),
        {
            let mut row = String::new();
            push_str(&mut row, "  ");
            push_str(&mut row, entries[i].as_str());
            let ghost before = strs(rows@);
            rows.push(row);
            assert(strs(rows@) =~= before.push("  "@ + entries@[i as int]@));
            assert(strs(entries@).subrange(0, i + 1).map_values(|e: Seq<char>| "  "@ + e)
                =~= strs(entries@).subrange(0, i as int).map_values(|e: Seq<char>| "  "@ + e).push(
                "  "@ + entries@[i as int]@,
            ));
        }
        assert(strs(entries@).subrange(0, entries.len() as int) =~= strs(entries@));
        assert(strs(rows@) =~= start + titled_section(title@, strs(entries@)));
    }
}

/// The address rows for the given entries.
fn build_rows(mode: AddressDisplayMode, v4: &Vec<String>, v6: &Vec<String>) -> (rows: Vec<String>)
    ensures
        strs(rows@) == address_rows(mode, strs(v4@), strs(v6@)),
{
    let mut rows: Vec<String> = Vec::new();
    let (t4, t6) = match mode {
        AddressDisplayMode::Masked => ("IPv4 Subnets", "IPv6 Subnets"),
        AddressDisplayMode::Raw => ("IPv4 Addresses", "IPv6 Addresses"),
    };
    assert(t4@ == ipv4_title(mode) && t6@ == ipv6_title(mode));
    assert(strs(rows@) =~= Seq::<Seq<char>>::empty());
    push_section(&mut rows, t4, v4);
    let ghost mid = strs(rows@);
    rows.push(String::new());
    assert(strs(rows@) =~= mid.push(Seq::<char>::empty()));
    push_section(&mut rows, t6, v6);
    assert(strs(rows@) =~= address_rows(mode, strs(v4@), strs(v6@)));
    rows
}

/// A copy of a list of strings.
fn copy_strings(v: &Vec<String>) -> (r: Vec<String>)
    ensures
        r@ == v@,
{
    let mut r: Vec<String> = Vec::new();
    for i in 0..v.len()
        invariant
            r@ == v@.subrange(0, i as int),
    {
        r.push(v[i].clone());
        assert(r@ =~= v@.subrange(0, i + 1));
    }
    assert(r@ =~= v@);
    r
}

/// The string texts sorted alphabetically (as `str` orders them).
fn sorted_strings(v: &Vec<String>) -> (r: Vec<String>)
    ensures
        is_stable_sort(strs(v@), strs(v@), strs(r@)),
{
    let items = copy_strings(v);
    let mut keys: Vec<Vec<char>> = Vec::new();
    for i in 0..v.len()
        invariant
            keys.len() == i,
            forall|k: int| 0 <= k < i ==> #[trigger] keys@[k]@ == v@[k]@,
    {
        keys.push(chars_of(v[i].as_str()));
    }
    let out = stable_sort_by_keys(items, &keys);
    proof {
        let kv = key_views(keys@);
        assert(kv =~= strs(v@));
        let p = choose|p: Seq<int>| crate::sort::stably_sorts(kv, p) && out@ == permuted(v@, p);
        assert(strs(out@) =~= permuted(strs(v@), p));
    }
    out
}

/// The title of the address panel.
fn panel_title(label: &str, start: usize, end: usize, len: usize, visible: usize) -> (title: String)
    requires
        start <= end <= len,
        len > visible ==> start < len,
    ensures
        title@ == address_panel_title(label@, start as nat, end as nat, len as nat, visible as nat),
{
    let mut title = String::new();
    if len > visible {
        push_str(&mut title, " Addresses [");
        push_str(&mut title, label);
        push_str(&mut title, "]  Lines ");
        push_decimal(&mut title, (start + 1) as u64);
        push_char(&mut title, '-');
        push_decimal(&mut title, (if end > start + 1 { end } else { start + 1 }) as u64);
        push_str(&mut title, " / ");
        push_decimal(&mut title, len as u64);
        push_char(&mut title, ' ');
        push_char(&mut title, if start > 0 { '\u{2191}' } else { ' ' });
        push_char(&mut title, if end < len { '\u{2193}' } else { ' ' });
        push_char(&mut title, ' ');
    } else {
        push_str(&mut title, " Addresses [");
        push_str(&mut title, label);
        push_str(&mut title, "] (");
        push_decimal(&mut title, len as u64);
        push_str(&mut title, ") ");
    }
    assert(title@ =~= address_panel_title(label@, start as nat, end as nat, len as nat, visible as nat));
    title
}

impl MonitorView {
    /// The entries as the order mode shows them.
    fn ordered_entries(&self, entries: &Vec<String>) -> (r: Vec<String>)
        ensures
            shown_order(self.order_mode(), strs(entries@), strs(r@)),
    {
        match self.address_order_mode {
            AddressOrderMode::Alphabetical => sorted_strings(entries),
            AddressOrderMode::Time => copy_strings(entries),
        }
    }

    /// The IPv4 entries shown: those of the display mode, in the order of the
    /// order mode.
    pub fn current_ipv4_entries(&self) -> (r: Vec<String>)
        ensures
            shown_order(self.order_mode(), self.ipv4_source(), strs(r@)),
    {
        match self.address_display_mode {
            AddressDisplayMode::Masked => self.ordered_entries(&self.ipv4_masked_subnets),
            AddressDisplayMode::Raw => self.ordered_entries(&self.ipv4_raw_addresses),
        }
    }

    /// The IPv6 entries shown: those of the display mode, in the order of the
    /// order mode.
    pub fn current_ipv6_entries(&self) -> (r: Vec<String>)
        ensures
            shown_order(self.order_mode(), self.ipv6_source(), strs(r@)),
    {
        match self.address_display_mode {
            AddressDisplayMode::Masked => self.ordered_entries(&self.ipv6_masked_addresses),
            AddressDisplayMode::Raw => self.ordered_entries(&self.ipv6_raw_addresses),
        }
    }

    /// The address rows as shown: the IPv4 section, an empty row, the IPv6
    /// section, each with the shown entries.
    pub fn current_address_rows(&self) -> (rows: Vec<String>)
        ensures
            exists|e4: Seq<Seq<char>>, e6: Seq<Seq<char>>|
                shown_order(self.order_mode(), self.ipv4_source(), e4) && shown_order(
                    self.order_mode(),
                    self.ipv6_source(),
                    e6,
                ) && strs(rows@) == address_rows(self.display_mode(), e4, e6),
            rows.len() == self.spec_row_count(),
    {
        let v4 = self.current_ipv4_entries();
        let v6 = self.current_ipv6_entries();
        let rows = build_rows(self.address_display_mode, &v4, &v6);
        proof {
            lemma_shown_order_len(self.order_mode(), self.ipv4_source(), strs(v4@));
            lemma_shown_order_len(self.order_mode(), self.ipv6_source(), strs(v6@));
            lemma_address_rows_len(self.display_mode(), strs(v4@), strs(v6@));
        }
        rows
    }

    /// The number of address rows.
    pub fn current_address_row_count(&self) -> (n: usize)
        ensures
            n == self.spec_row_count(),
    {
        let rows = match self.address_display_mode {
            AddressDisplayMode::Masked => build_rows(
                self.address_display_mode,
                &self.ipv4_masked_subnets,
                &self.ipv6_masked_addresses,
            ),
            AddressDisplayMode::Raw => build_rows(
                self.address_display_mode,
                &self.ipv4_raw_addresses,
                &self.ipv6_raw_addresses,
            ),
        };
        proof {
            lemma_address_rows_len(self.display_mode(), self.ipv4_source(), self.ipv6_source());
        }
        rows.len()
    }

    /// The number of entries shown.
    pub fn current_total(&self) -> (n: usize)
        requires
            self.ipv4_source().len() + self.ipv6_source().len() <= usize::MAX,
        ensures
            n == self.ipv4_source().len() + self.ipv6_source().len(),
    {
        match self.address_display_mode {
            AddressDisplayMode::Masked => self.ipv4_masked_subnets.len()
                + self.ipv6_masked_addresses.len(),
            AddressDisplayMode::Raw => self.ipv4_raw_addresses.len()
                + self.ipv6_raw_addresses.len(),
        }
    }

    /// The largest scroll offset for `total_rows` rows in a window of
    /// `visible_rows` rows (at least one).
    pub fn max_address_scroll_offset(total_rows: usize, visible_rows: usize) -> (r: usize)
        ensures
            r == max_offset(total_rows as int, visible_rows as int),
    {
        let v = if visible_rows < 1 { 1 } else { visible_rows };
        total_rows.saturating_sub(v)
    }

    /// Brings the scroll position within the last offset for `total_rows`.
    pub fn clamp_address_scroll_offset(&mut self, total_rows: usize)
        ensures
            final(self).scroll_offset() == clamped(
                old(self).scroll_offset() as int,
                total_rows as int,
                old(self).visible_rows() as int,
            ),
            final(self).same_but_scroll(old(self)),
            old(self).wf() ==> final(self).wf(),
    {
        let max = Self::max_address_scroll_offset(total_rows, self.address_visible_rows);
        if self.address_scroll_offset > max {
            self.address_scroll_offset = max;
        }
    }

    /// Scrolls up by `lines`, stopping at the top.
    pub fn scroll_up(&mut self, lines: usize)
        ensures
            final(self).scroll_offset() == if old(self).scroll_offset() >= lines {
                old(self).scroll_offset() - lines
            } else {
                0
            },
            final(self).same_but_scroll(old(self)),
            old(self).wf() ==> final(self).wf(),
    {
        self.address_scroll_offset = self.address_scroll_offset.saturating_sub(lines);
    }

    /// Scrolls down by `lines`, stopping at the last offset for `total_rows`.
    pub fn scroll_down(&mut self, lines: usize, total_rows: usize)
        ensures
            final(self).scroll_offset() == clamped(
                old(self).scroll_offset() + lines,
                total_rows as int,
                old(self).visible_rows() as int,
            ),
            final(self).same_but_scroll(old(self)),
            old(self).wf() ==> final(self).wf(),
    {
        let max = Self::max_address_scroll_offset(total_rows, self.address_visible_rows);
        let down = self.address_scroll_offset.saturating_add(lines);
        self.address_scroll_offset = if down < max { down } else { max };
    }

    /// The rows a page scroll moves: the window height, at least one.
    pub fn page_scroll_step(&self) -> (r: usize)
        ensures
            r == if self.visible_rows() < 1 { 1 } else { self.visible_rows() as int },
    {
        if self.address_visible_rows < 1 { 1 } else { self.address_visible_rows }
    }

    /// Applies a scroll key; returns whether the key is one.
    pub fn handle_scroll_key(&mut self, key: Key) -> (r: bool)
        ensures
            r == is_scroll_key(key),
            final(self).scroll_offset() == scrolled_offset(
                key,
                old(self).scroll_offset() as int,
                old(self).spec_row_count() as int,
                old(self).visible_rows() as int,
            ),
            final(self).same_but_scroll(old(self)),
            old(self).wf() ==> final(self).wf(),
    {
        let total_rows = self.current_address_row_count();
        match key {
            Key::Up | Key::Char('k') | Key::Char('K') => {
                self.scroll_up(1);
                true
            },
            Key::Down | Key::Char('j') | Key::Char('J') => {
                self.scroll_down(1, total_rows);
                true
            },
            Key::PageUp => {
                let step = self.page_scroll_step();
                self.scroll_up(step);
                true
            },
            Key::PageDown | Key::Char(' ') => {
                let step = self.page_scroll_step();
                self.scroll_down(step, total_rows);
                true
            },
            _ => false,
        }
    }

    /// Switches between masked and raw display and brings the scroll
    /// position within the new rows; returns the status message.
    pub fn toggle_address_display_mode(&mut self) -> (msg: String)
        ensures
            final(self).display_mode() == old(self).display_mode().spec_toggle(),
            final(self).scroll_offset() == clamped(
                old(self).scroll_offset() as int,
                final(self).spec_row_count() as int,
                old(self).visible_rows() as int,
            ),
            final(self).lists() == old(self).lists(),
            final(self).spec_processes() == old(self).spec_processes(),
            final(self).spec_app_info() == old(self).spec_app_info(),
            final(self).spec_target_active() == old(self).spec_target_active(),
            final(self).order_mode() == old(self).order_mode(),
            final(self).visible_rows() == old(self).visible_rows(),
            old(self).wf() ==> final(self).wf(),
            msg@ == "Address view: "@ + final(self).display_mode().spec_label(),
    {
        self.address_display_mode = self.address_display_mode.toggle();
        let total = self.current_address_row_count();
        self.clamp_address_scroll_offset(total);
        let mut msg = String::new();
        push_str(&mut msg, "Address view: ");
        push_str(&mut msg, self.address_display_mode.label());
        assert(msg@ =~= "Address view: "@ + self.display_mode().spec_label());
        msg
    }

    /// Switches between discovery order and alphabetical order; returns the
    /// status message.
    pub fn toggle_address_order_mode(&mut self) -> (msg: String)
        ensures
            final(self).order_toggled_from(&*old(self)),
            old(self).wf() ==> final(self).wf(),
            msg@ == "Address order: "@ + final(self).order_mode().spec_label(),
    {
        self.address_order_mode = self.address_order_mode.toggle();
        let mut msg = String::new();
        push_str(&mut msg, "Address order: ");
        push_str(&mut msg, self.address_order_mode.label());
        assert(msg@ =~= "Address order: "@ + self.order_mode().spec_label());
        msg
    }

    /// Handles a key of the monitoring screen (quitting is handled before):
    /// Esc goes back, `s`/`S` toggles the display mode, `o`/`O` the order
    /// mode, `e`/`E` asks for an export, `c`/`C` for a copy, `p`/`P` to
    /// pause or resume the target, and the scroll keys scroll.
    pub fn handle_key_code(&mut self, key: Key) -> (r: MonitorKeyResponse)
        ensures
            old(self).wf() ==> final(self).wf(),
            final(self).lists() == old(self).lists(),
            final(self).spec_processes() == old(self).spec_processes(),
            final(self).spec_app_info() == old(self).spec_app_info(),
            final(self).spec_target_active() == old(self).spec_target_active(),
            final(self).visible_rows() == old(self).visible_rows(),
            key == Key::Esc ==> r == MonitorKeyResponse::Leave(MonitorAction::Back)
                && final(self).same_but_scroll(old(self))
                && final(self).scroll_offset() == old(self).scroll_offset(),
            (key == Key::Char('s') || key == Key::Char('S')) ==> {
                &&& final(self).display_mode() == old(self).display_mode().spec_toggle()
                &&& final(self).order_mode() == old(self).order_mode()
                &&& final(self).scroll_offset() == clamped(
                    old(self).scroll_offset() as int,
                    final(self).spec_row_count() as int,
                    old(self).visible_rows() as int,
                )
                &&& r matches MonitorKeyResponse::Status(m) && m@ == "Address view: "@
                    + final(self).display_mode().spec_label()
            },
            (key == Key::Char('o') || key == Key::Char('O')) ==> {
                &&& final(self).order_mode() == old(self).order_mode().spec_toggle()
                &&& final(self).display_mode() == old(self).display_mode()
                &&& final(self).scroll_offset() == clamped(
                    old(self).scroll_offset() as int,
                    old(self).spec_row_count() as int,
                    old(self).visible_rows() as int,
                )
                &&& r matches MonitorKeyResponse::Status(m) && m@ == "Address order: "@
                    + final(self).order_mode().spec_label()
            },
            (key == Key::Char('e') || key == Key::Char('E')) ==> r
                == MonitorKeyResponse::ExportRequested && final(self).same_but_scroll(old(self))
                && final(self).scroll_offset() == old(self).scroll_offset(),
            (key == Key::Char('c') || key == Key::Char('C')) ==> r
                == MonitorKeyResponse::CopyRequested && final(self).same_but_scroll(old(self))
                && final(self).scroll_offset() == old(self).scroll_offset(),
            (key == Key::Char('p') || key == Key::Char('P')) ==> r
                == MonitorKeyResponse::PauseRequested && final(self).same_but_scroll(old(self))
                && final(self).scroll_offset() == old(self).scroll_offset(),
            !(key == Key::Esc || key == Key::Char('s') || key == Key::Char('S') || key == Key::Char(
                'o',
            ) || key == Key::Char('O') || key == Key::Char('e') || key == Key::Char('E') || key
                == Key::Char('c') || key == Key::Char('C') || key == Key::Char('p') || key == Key::Char(
                'P',
            )) ==> {
                &&& r == MonitorKeyResponse::Handled
                &&& final(self).same_but_scroll(old(self))
                &&& final(self).scroll_offset() == scrolled_offset(
                    key,
                    old(self).scroll_offset() as int,
                    old(self).spec_row_count() as int,
                    old(self).visible_rows() as int,
                )
            },
    {
        match key {
            Key::Esc => MonitorKeyResponse::Leave(MonitorAction::Back),
            Key::Char('s') | Key::Char('S') => {
                let msg = self.toggle_address_display_mode();
                MonitorKeyResponse::Status(msg)
            },
            Key::Char('o') | Key::Char('O') => {
                let msg = self.toggle_address_order_mode();
                let total = self.current_address_row_count();
                self.clamp_address_scroll_offset(total);
                MonitorKeyResponse::Status(msg)
            },
            Key::Char('e') | Key::Char('E') => MonitorKeyResponse::ExportRequested,
            Key::Char('c') | Key::Char('C') => MonitorKeyResponse::CopyRequested,
            Key::Char('p') | Key::Char('P') => MonitorKeyResponse::PauseRequested,
            _ => {
                self.handle_scroll_key(key);
                MonitorKeyResponse::Handled
            },
        }
    }

    /// The masked entries, IPv4 then IPv6, in discovery order: what export
    /// and copy write, one per line.
    pub fn export_lines(&self) -> (r: Vec<String>)
        ensures
            strs(r@) == self.lists().0 + self.lists().2,
    {
        let mut r = copy_strings(&self.ipv4_masked_subnets);
        for i in 0..self.ipv6_masked_addresses.len()
            invariant
                r@ == self.ipv4_masked_subnets@ + self.ipv6_masked_addresses@.subrange(0, i as int),
        {
            r.push(self.ipv6_masked_addresses[i].clone());
            assert(r@ =~= self.ipv4_masked_subnets@ + self.ipv6_masked_addresses@.subrange(0, i + 1));
        }
        assert(self.ipv6_masked_addresses@.subrange(0, self.ipv6_masked_addresses@.len() as int)
            =~= self.ipv6_masked_addresses@);
        assert(strs(r@) =~= self.lists().0 + self.lists().2);
        r
    }

    /// The clipboard text: each masked entry followed by a line break.
    pub fn clipboard_text(&self) -> (s: String)
        ensures
            s@ == lines_text(self.lists().0 + self.lists().2),
    {
        let lines = self.export_lines();
        let mut s = String::new();
        for i in 0..lines.len()
            invariant
                s@ == lines_text(strs(lines@).subrange(0, i as int)),
        {
            push_str(&mut s, lines[i].as_str());
            push_char(&mut s, '\n');
            assert(strs(lines@).subrange(0, i + 1).drop_last() =~= strs(lines@).subrange(
                0,
                i as int,
            ));
        }
        assert(strs(lines@).subrange(0, lines@.len() as int) =~= strs(lines@));
        s
    }

    /// Fits the address window to a panel of `panel_height` lines (two are
    /// the border) and returns the rows in the window with the panel title.
    pub fn address_window(&mut self, panel_height: u16) -> (r: (Vec<String>, String))
        ensures
            final(self).visible_rows() == if panel_height >= 3 {
                (panel_height - 2) as usize
            } else {
                1usize
            },
            final(self).lists() == old(self).lists(),
            final(self).spec_processes() == old(self).spec_processes(),
            final(self).spec_app_info() == old(self).spec_app_info(),
            final(self).spec_target_active() == old(self).spec_target_active(),
            final(self).display_mode() == old(self).display_mode(),
            final(self).order_mode() == old(self).order_mode(),
            final(self).scroll_offset() == clamped(
                old(self).scroll_offset() as int,
                old(self).spec_row_count() as int,
                final(self).visible_rows() as int,
            ),
            old(self).wf() ==> final(self).wf(),
            exists|rows: Seq<Seq<char>>|
                {
                    &&& rows.len() == old(self).spec_row_count()
                    &&& (exists|e4: Seq<Seq<char>>, e6: Seq<Seq<char>>|
                        shown_order(old(self).order_mode(), old(self).ipv4_source(), e4)
                            && shown_order(old(self).order_mode(), old(self).ipv6_source(), e6)
                            && rows == address_rows(old(self).display_mode(), e4, e6))
                    &&& ({
                        let start = final(self).scroll_offset() as int;
                        let end = if start + final(self).visible_rows() < rows.len() {
                            start + final(self).visible_rows()
                        } else {
                            rows.len() as int
                        };
                        &&& strs(r.0@) == rows.subrange(start, end)
                        &&& r.1@ == address_panel_title(
                            old(self).display_mode().spec_label(),
                            start as nat,
                            end as nat,
                            rows.len(),
                            final(self).visible_rows() as nat,
                        )
                    })
                },
    {
        let rows = self.current_address_rows();
        let inner = panel_height.saturating_sub(2);
        self.address_visible_rows = if inner < 1 { 1 } else { inner as usize };
        self.clamp_address_scroll_offset(rows.len());
        let len = rows.len();
        let visible = self.address_visible_rows;
        let start = self.address_scroll_offset;
        proof {
            if len > visible {
                assert(start <= len - visible);
            } else {
                assert(start == 0);
            }
        }
        let end = if start + visible < len { start + visible } else { len };
        let mut window: Vec<String> = Vec::new();
        for i in start..end
            invariant
                start <= end <= len == rows.len(),
                window@ == rows@.subrange(start as int, i as int),
        {
            window.push(rows[i].clone());
            assert(window@ =~= rows@.subrange(start as int, i + 1));
        }
        proof {
            assert(strs(window@) =~= strs(rows@).subrange(start as int, end as int));
        }
        let title = panel_title(self.address_display_mode.label(), start, end, len, visible);
        proof {
            let rv = strs(rows@);
            assert(rv.len() == old(self).spec_row_count());
            assert({
                let start = self.scroll_offset() as int;
                let end = if start + self.visible_rows() < rv.len() {
                    start + self.visible_rows()
                } else {
                    rv.len() as int
                };
                &&& strs(window@) == rv.subrange(start, end)
                &&& title@ == address_panel_title(
                    old(self).display_mode().spec_label(),
                    start as nat,
                    end as nat,
                    rv.len(),
                    self.visible_rows() as nat,
                )
            });
        }
        (window, title)
    }
}

/// Scrolling never leaves the valid range: from an offset within bounds,
/// every key gives an offset within bounds, and clamping always does.
pub proof fn law_scroll_stays_in_bounds(key: Key, offset: int, total: int, visible: int)
    requires
        0 <= offset <= max_offset(total, visible),
    ensures
        0 <= scrolled_offset(key, offset, total, visible) <= max_offset(total, visible),
        clamped(offset, total, visible) <= max_offset(total, visible),
{
}

/// Scrolling down by a line or a page and back up returns to where it
/// started, when the way down was not cut short by the last offset.
pub proof fn law_scroll_down_then_up(offset: int, total: int, visible: int)
    requires
        0 <= offset,
    ensures
        offset + 1 <= max_offset(total, visible) ==> scrolled_offset(
            Key::Up,
            scrolled_offset(Key::Down, offset, total, visible),
            total,
            visible,
        ) == offset,
        offset + (if visible < 1 { 1 } else { visible }) <= max_offset(total, visible)
            ==> scrolled_offset(
            Key::PageUp,
            scrolled_offset(Key::PageDown, offset, total, visible),
            total,
            visible,
        ) == offset,
{
}


/// The title of the process panel: the number of processes not listed,
/// when some are not.
pub open spec fn processes_title(n: nat) -> Seq<char> {
    if n > MAX_PROCESS_ROWS {
        " Tracked Processes (+"@ + decimal((n - MAX_PROCESS_ROWS) as nat) + " more) "@
    } else {
        " Tracked Processes "@
    }
}

impl MonitorView {
    /// The process panel: the summaries of the first processes (at most
    /// `MAX_PROCESS_ROWS`) and the panel title.
    pub fn processes_panel(&self) -> (r: (Vec<String>, String))
        ensures
            r.0.len() == if self.spec_processes().len() < MAX_PROCESS_ROWS {
                self.spec_processes().len()
            } else {
                MAX_PROCESS_ROWS as nat
            },
            forall|i: int|
                0 <= i < r.0.len() ==> #[trigger] r.0@[i]@ == process_summary(
                    self.spec_processes()[i],
                ),
            r.1@ == processes_title(self.spec_processes().len()),
    {
        let n = self.processes.len();
        let shown = if n < MAX_PROCESS_ROWS { n } else { MAX_PROCESS_ROWS };
        let mut rows: Vec<String> = Vec::new();
        for i in 0..shown
            invariant
                shown <= n == self.processes.len(),
                rows.len() == i,
                forall|k: int|
                    0 <= k < i ==> #[trigger] rows@[k]@ == process_summary(self.processes@[k]),
        {
            rows.push(format_process_summary(&self.processes[i]));
        }
        let mut title = String::new();
        if n > MAX_PROCESS_ROWS {
            push_str(&mut title, " Tracked Processes (+");
            push_decimal(&mut title, (n - MAX_PROCESS_ROWS) as u64);
            push_str(&mut title, " more) ");
        } else {
            push_str(&mut title, " Tracked Processes ");
        }
        assert(title@ =~= processes_title(n as nat));
        (rows, title)
    }
}
} // verus!
