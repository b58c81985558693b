//! The monitoring engine's decisions: finding the target's root processes,
//! tracking its process tree, and turning socket addresses into reports.
//! The caller reads the process table and the sockets and hands the
//! results in.

use std::collections::HashSet;

use vstd::prelude::*;

use crate::addr::IpAddress;
use crate::aggregator::{add_step, AddResult, Aggregator};
use crate::discovery::{first_with_bundle, resolve_bundle_executable};
use crate::process_tree::{
    collect_descendants, descendants, find_pids_by_executable_path_prefix, find_pids_by_name,
    get_process_info, pids_named, pids_under, spec_process_info, ProcessEntry,
};
use crate::types::{opt_text, AppError, AppInfo, MonitorEvent, MonitorTarget};

verus! {

broadcast use vstd::std_specs::hash::group_hash_axioms;

/// The PIDs of a set, each once, in the order the set hands them out.
fn pids_of(set: &HashSet<i32>) -> (r: Vec<i32>)
    ensures
        r@.no_duplicates(),
        r@.to_set() == set@,
{
    let ghost keys = vstd::std_specs::iter::IteratorSpec::remaining(&set.iter()).unref();
    let mut r: Vec<i32> = Vec::new();
    for x in it: set.iter()
        invariant
            keys == vstd::std_specs::iter::IteratorSpec::remaining(&set.iter()).unref(),
            r@ == keys.take(it.index() as int),
    {
        r.push(*x);
        assert(r@ =~= keys.take(it.index() + 1));
    }
    assert(r@ =~= keys);
    r
}

/// Whether a snapshot has a named process of the given PID.
pub open spec fn has_named_pid(procs: Seq<ProcessEntry>, pid: i32) -> bool {
    exists|i: int| 0 <= i < procs.len() && procs[i].pid == pid && procs[i].name is Some
}

/// The first entry of a snapshot with the given PID.
pub open spec fn entry_of(procs: Seq<ProcessEntry>, pid: i32) -> Option<ProcessEntry>
    decreases procs.len(),
{
    if procs.len() == 0 {
        None
    } else {
        match entry_of(procs.drop_last(), pid) {
            Some(e) => Some(e),
            None => if procs.last().pid == pid { Some(procs.last()) } else { None },
        }
    }
}


/// The processes of the trees rooted at the given PIDs.
pub open spec fn tree_of_roots(tree: Seq<(i32, Vec<i32>)>, roots: Seq<i32>) -> Set<i32> {
    Set::new(|p: i32| exists|i: int| 0 <= i < roots.len() && #[trigger] descendants(tree, roots[i]).contains(p))
}

/// The reports for processes that joined the tracked set: each new PID
/// whose snapshot entry has a name, in order.
pub open spec fn added_events(new: Seq<i32>, old: Set<i32>, procs: Seq<ProcessEntry>) -> Seq<MonitorEvent>
    decreases new.len(),
{
    if new.len() == 0 {
        Seq::empty()
    } else {
        let r = added_events(new.drop_last(), old, procs);
        let pid = new.last();
        if old.contains(pid) {
            r
        } else {
            match entry_of(procs, pid) {
                Some(e) => match spec_process_info(e) {
                    Some(info) => r.push(MonitorEvent::ProcessAdded(info)),
                    None => r,
                },
                None => r,
            }
        }
    }
}

/// The reports for processes that left the tracked set, in order.
pub open spec fn removed_events(old: Seq<i32>, new: Set<i32>) -> Seq<MonitorEvent>
    decreases old.len(),
{
    if old.len() == 0 {
        Seq::empty()
    } else {
        let r = removed_events(old.drop_last(), new);
        if new.contains(old.last()) {
            r
        } else {
            r.push(MonitorEvent::ProcessRemoved(old.last()))
        }
    }
}

/// `order` lists the PIDs of `set`, each once.
pub open spec fn lists_pids(order: Seq<i32>, set: Set<i32>) -> bool {
    order.no_duplicates() && order.to_set() == set
}

/// `reports` are the reports of going from tracking `old` to tracking
/// `new`: each process of `new` not in `old` that the snapshot names, as
/// joined, then each process of `old` not in `new`, as left; each part in
/// the order its set hands its PIDs out.
pub open spec fn tracking_reports(
    old: Set<i32>,
    new: Set<i32>,
    procs: Seq<ProcessEntry>,
    reports: Seq<MonitorEvent>,
) -> bool {
    exists|joined: Seq<i32>, left: Seq<i32>|
        lists_pids(joined, new) && lists_pids(left, old) && reports == added_events(joined, old, procs)
            + removed_events(left, new)
}

/// The reports one aggregation step gives: the new subnet, then the new
/// IPv4 or IPv6 address.
pub open spec fn result_events(r: AddResult) -> Seq<MonitorEvent> {
    (match r.discovered {
        Some(d) => seq![MonitorEvent::NewAddress(d)],
        None => Seq::empty(),
    }) + (match r.raw_ipv4 {
        Some(a) => seq![MonitorEvent::NewIpv4Raw(a)],
        None => Seq::empty(),
    }) + (match r.raw_ipv6 {
        Some(a) => seq![MonitorEvent::NewIpv6Raw(a)],
        None => Seq::empty(),
    })
}

/// Aggregating addresses in order: the reports and what is seen afterwards.
pub open spec fn aggregate_all(
    subnets: Set<crate::addr::DiscoveredAddress>,
    addrs: Set<IpAddress>,
    list: Seq<IpAddress>,
) -> (Seq<MonitorEvent>, Set<crate::addr::DiscoveredAddress>, Set<IpAddress>)
    decreases list.len(),
{
    if list.len() == 0 {
        (Seq::empty(), subnets, addrs)
    } else {
        let prev = aggregate_all(subnets, addrs, list.drop_last());
        let step = add_step(prev.1, prev.2, list.last());
        (prev.0 + result_events(step.0), step.1, step.2)
    }
}

/// One poll's decision, after one attempt to find the target: whether it is
/// found now, what to report (a found target is reported found once, a lost
/// one lost once), and whether to collect its processes and addresses on
/// this poll (only when it was found on this attempt).
pub open spec fn spec_next_target_found(found: bool, resolved: Result<bool, AppError>) -> (bool, Option<MonitorEvent>, bool) {
    match resolved {
        Ok(true) => if found { (true, None, true) } else { (true, Some(MonitorEvent::TargetFound), true) },
        _ => if found { (false, Some(MonitorEvent::TargetLost), false) } else { (false, None, false) },
    }
}

/// One poll's decision: whether the target is found now, what to report,
/// and whether to collect its processes and addresses.
pub fn next_target_found(found: bool, resolved: &Result<bool, AppError>) -> (r: (bool, Option<MonitorEvent>, bool))
    ensures
        r == spec_next_target_found(found, *resolved),
        r.2 <==> (*resolved matches Ok(true)),
{
    match resolved {
        Ok(true) => if found { (true, None, true) } else { (true, Some(MonitorEvent::TargetFound), true) },
        _ => if found { (false, Some(MonitorEvent::TargetLost), false) } else { (false, None, false) },
    }
}

/// Whether the target is found, and what was reported, after a run of polls
/// with the given outcomes, starting from a target not yet found.
pub open spec fn poll_run(outcomes: Seq<Result<bool, AppError>>) -> (bool, Seq<MonitorEvent>)
    decreases outcomes.len(),
{
    if outcomes.len() == 0 {
        (false, Seq::empty())
    } else {
        let prev = poll_run(outcomes.drop_last());
        let step = spec_next_target_found(prev.0, outcomes.last());
        (step.0, prev.1 + match step.1 {
            Some(e) => seq![e],
            None => Seq::empty(),
        })
    }
}

/// Over any run of polls, the reports are "target found" and "target lost"
/// in strict turn, starting with "target found"; the target counts as found
/// exactly when the last report was "target found", and that is exactly when
/// the last attempt found it.
pub proof fn law_found_and_lost_alternate(outcomes: Seq<Result<bool, AppError>>)
    ensures
        forall|i: int|
            0 <= i < poll_run(outcomes).1.len() ==> #[trigger] poll_run(outcomes).1[i] == (if i % 2 == 0 {
                MonitorEvent::TargetFound
            } else {
                MonitorEvent::TargetLost
            }),
        poll_run(outcomes).0 <==> poll_run(outcomes).1.len() % 2 == 1,
        outcomes.len() > 0 ==> (poll_run(outcomes).0 <==> (outcomes.last() matches Ok(true))),
    decreases outcomes.len(),
{
    if outcomes.len() > 0 {
        law_found_and_lost_alternate(outcomes.drop_last());
        let prev = poll_run(outcomes.drop_last());
        let now = poll_run(outcomes);
        assert forall|i: int| 0 <= i < now.1.len() implies #[trigger] now.1[i] == (if i % 2 == 0 {
            MonitorEvent::TargetFound
        } else {
            MonitorEvent::TargetLost
        }) by {
            if i < prev.1.len() {
                assert(now.1[i] == prev.1[i]);
            }
        }
    }
}

/// The monitoring engine of one target.
pub struct MonitorEngine {
    target: MonitorTarget,
    tracked_pids: HashSet<i32>,
    aggregator: Aggregator,
    root_pids: Vec<i32>,
    app_path_prefix: Option<String>,
    executable_name: Option<String>,
}

impl MonitorEngine {
    pub closed spec fn spec_target(&self) -> MonitorTarget {
        self.target
    }

    /// The processes tracked now.
    pub closed spec fn spec_tracked(&self) -> Set<i32> {
        self.tracked_pids@
    }

    /// The processes the target's tree is rooted at.
    pub closed spec fn spec_roots(&self) -> Seq<i32> {
        self.root_pids@
    }

    /// The app bundle path that a bundle target resolved to.
    pub closed spec fn spec_app_path_prefix(&self) -> Option<Seq<char>> {
        opt_text(self.app_path_prefix)
    }

    /// The process name the target is looked up by.
    pub closed spec fn spec_executable_name(&self) -> Option<Seq<char>> {
        opt_text(self.executable_name)
    }

    pub closed spec fn spec_seen_subnets(&self) -> Set<crate::addr::DiscoveredAddress> {
        self.aggregator.seen_subnets()
    }

    pub closed spec fn spec_seen_addresses(&self) -> Set<IpAddress> {
        self.aggregator.seen_addresses()
    }

    /// A new engine: nothing tracked, nothing seen.
    pub fn new(target: MonitorTarget) -> (r: Self)
        ensures
            r.spec_target() == target,
            r.spec_tracked() == Set::<i32>::empty(),
            r.spec_roots() == Seq::<i32>::empty(),
            r.spec_app_path_prefix() is None,
            r.spec_executable_name() is None,
            r.spec_seen_subnets() == Set::<crate::addr::DiscoveredAddress>::empty(),
            r.spec_seen_addresses() == Set::<IpAddress>::empty(),
    {
        MonitorEngine {
            target,
            tracked_pids: HashSet::new(),
            aggregator: Aggregator::new(),
            root_pids: Vec::new(),
            app_path_prefix: None,
            executable_name: None,
        }
    }

    /// The target.
    pub fn target(&self) -> (r: &MonitorTarget)
        ensures
            *r == self.spec_target(),
    {
        &self.target
    }

    /// The processes tracked now, each once.
    pub fn tracked_pids(&self) -> (r: Vec<i32>)
        ensures
            lists_pids(r@, self.spec_tracked()),
    {
        pids_of(&self.tracked_pids)
    }

    /// Whether finding the target needs the installed apps (a bundle
    /// target does).
    pub fn needs_installed_apps(&self) -> (r: bool)
        ensures
            r == (self.spec_target() is Bundle),
    {
        match &self.target {
            MonitorTarget::Bundle(_) => true,
            _ => false,
        }
    }

    /// Looks for the target in a snapshot of the process table: a PID
    /// target is found when the PID runs with a name; a name target when
    /// processes of that name run (else the name is kept to look for);
    /// a bundle target must name an installed app, whose executable and
    /// path are kept, and is found when processes run from that path.
    pub fn resolve_target(&mut self, processes: &Vec<ProcessEntry>, installed: &Vec<AppInfo>) -> (r: Result<bool, AppError>)
        ensures
            final(self).spec_target() == old(self).spec_target(),
            final(self).spec_tracked() == old(self).spec_tracked(),
            final(self).spec_seen_subnets() == old(self).spec_seen_subnets(),
            final(self).spec_seen_addresses() == old(self).spec_seen_addresses(),
            match old(self).spec_target() {
                MonitorTarget::Pid(pid) => {
                    &&& r == Ok::<bool, AppError>(has_named_pid(processes@, pid))
                    &&& final(self).spec_roots() == if has_named_pid(processes@, pid) {
                        seq![pid]
                    } else {
                        old(self).spec_roots()
                    }
                    &&& final(self).spec_app_path_prefix() == old(self).spec_app_path_prefix()
                    &&& final(self).spec_executable_name() == old(self).spec_executable_name()
                },
                MonitorTarget::Name(name) => {
                    let pids = pids_named(processes@, name@);
                    &&& r == Ok::<bool, AppError>(pids.len() > 0)
                    &&& final(self).spec_roots() == if pids.len() > 0 {
                        pids
                    } else {
                        old(self).spec_roots()
                    }
                    &&& final(self).spec_app_path_prefix() == old(self).spec_app_path_prefix()
                    &&& final(self).spec_executable_name() == if pids.len() > 0 {
                        old(self).spec_executable_name()
                    } else {
                        Some(name@)
                    }
                },
                MonitorTarget::Bundle(id) => match first_with_bundle(installed@, id@) {
                    Some(i) => {
                        let app = installed@[i];
                        let path = match app.app_path {
                            Some(p) => p@,
                            None => Seq::empty(),
                        };
                        let pids = pids_under(processes@, path);
                        &&& r == Ok::<bool, AppError>(pids.len() > 0)
                        &&& final(self).spec_app_path_prefix() == Some(path)
                        &&& final(self).spec_executable_name() == Some(app.executable_name@)
                        &&& final(self).spec_roots() == if pids.len() > 0 {
                            pids
                        } else {
                            old(self).spec_roots()
                        }
                    },
                    None => {
                        &&& r == Err::<bool, AppError>(AppError::BundleNotFound(id))
                        &&& final(self).spec_roots() == old(self).spec_roots()
                        &&& final(self).spec_app_path_prefix() == old(self).spec_app_path_prefix()
                        &&& final(self).spec_executable_name() == old(self).spec_executable_name()
                    },
                },
            },
    {
        match &self.target {
            MonitorTarget::Pid(pid) => {
                let pid = *pid;
                let mut found = false;
                for i in 0..processes.len()
                    invariant
                        found == (exists|j: int|
                            0 <= j < i && processes@[j].pid == pid && processes@[j].name is Some),
                {
                    if processes[i].pid == pid && processes[i].name.is_some() {
                        found = true;
                    }
                }
                if found {
                    self.root_pids = vec![pid];
                    assert(self.root_pids@ =~= seq![pid]);
                }
                Ok(found)
            },
            MonitorTarget::Name(name) => {
                let pids = find_pids_by_name(processes, name.as_str());
                if pids.len() == 0 {
                    self.executable_name = Some(name.clone());
                    Ok(false)
                } else {
                    self.root_pids = pids;
                    Ok(true)
                }
            },
            MonitorTarget::Bundle(bundle_id) => {
                let resolved = resolve_bundle_executable(installed, bundle_id.as_str());
                match resolved {
                    None => Err(AppError::BundleNotFound(bundle_id.clone())),
                    Some((exec_name, app_path)) => {
                        let pids = find_pids_by_executable_path_prefix(processes, app_path.as_str());
                        self.app_path_prefix = Some(app_path);
                        self.executable_name = Some(exec_name);
                        if pids.len() == 0 {
                            Ok(false)
                        } else {
                            self.root_pids = pids;
                            Ok(true)
                        }
                    },
                }
            },
        }
    }

    /// Looks for the root processes again: by the kept app path if there is
    /// one, else by the kept name if there is one; returns the roots.
    pub fn refresh_roots(&mut self, processes: &Vec<ProcessEntry>) -> (r: Vec<i32>)
        ensures
            final(self).spec_target() == old(self).spec_target(),
            final(self).spec_tracked() == old(self).spec_tracked(),
            final(self).spec_app_path_prefix() == old(self).spec_app_path_prefix(),
            final(self).spec_executable_name() == old(self).spec_executable_name(),
            final(self).spec_seen_subnets() == old(self).spec_seen_subnets(),
            final(self).spec_seen_addresses() == old(self).spec_seen_addresses(),
            final(self).spec_roots() == match old(self).spec_app_path_prefix() {
                Some(prefix) => pids_under(processes@, prefix),
                None => match old(self).spec_executable_name() {
                    Some(name) => pids_named(processes@, name),
                    None => old(self).spec_roots(),
                },
            },
            r@ == final(self).spec_roots(),
    {
        match &self.app_path_prefix {
            Some(prefix) => {
                self.root_pids = find_pids_by_executable_path_prefix(processes, prefix.as_str());
            },
            None => match &self.executable_name {
                Some(name) => {
                    self.root_pids = find_pids_by_name(processes, name.as_str());
                },
                None => {},
            },
        }
        let mut r: Vec<i32> = Vec::new();
        for i in 0..self.root_pids.len()
            invariant
                r@ == self.root_pids@.subrange(0, i as int),
        {
            r.push(self.root_pids[i]);
            assert(r@ =~= self.root_pids@.subrange(0, i + 1));
        }
        assert(r@ =~= self.root_pids@);
        r
    }

    /// Replaces the tracked processes with the processes of the target's
    /// trees now (`now`, repeats dropped) and returns the reports: the
    /// processes that joined, then those that left.
    pub fn apply_tracked(&mut self, now: &Vec<i32>, processes: &Vec<ProcessEntry>) -> (r: Vec<MonitorEvent>)
        ensures
            final(self).spec_target() == old(self).spec_target(),
            final(self).spec_roots() == old(self).spec_roots(),
            final(self).spec_app_path_prefix() == old(self).spec_app_path_prefix(),
            final(self).spec_executable_name() == old(self).spec_executable_name(),
            final(self).spec_seen_subnets() == old(self).spec_seen_subnets(),
            final(self).spec_seen_addresses() == old(self).spec_seen_addresses(),
            final(self).spec_tracked() == now@.to_set(),
            tracking_reports(old(self).spec_tracked(), now@.to_set(), processes@, r@),
    {
        let mut new_tracked: HashSet<i32> = HashSet::new();
        for i in 0..now.len()
            invariant
                new_tracked@ == now@.subrange(0, i as int).to_set(),
        {
            assert(now@.subrange(0, i + 1) =~= now@.subrange(0, i as int).push(now@[i as int]));
            new_tracked.insert(now[i]);
            proof {
                now@.subrange(0, i as int).lemma_push_to_set_commute(now@[i as int]);
            }
        }
        assert(now@.subrange(0, now@.len() as int) =~= now@);
        let joined = pids_of(&new_tracked);
        let mut events: Vec<MonitorEvent> = Vec::new();
        for i in 0..joined.len()
            invariant
                events@ == added_events(joined@.subrange(0, i as int), self.tracked_pids@, processes@),
        {
            assert(joined@.subrange(0, i + 1).drop_last() =~= joined@.subrange(0, i as int));
            let pid = joined[i];
            if !self.tracked_pids.contains(&pid) {
                match find_entry(processes, pid) {
                    Some(k) => match get_process_info(&processes[k]) {
                        Some(info) => events.push(MonitorEvent::ProcessAdded(info)),
                        None => {},
                    },
                    None => {},
                }
            }
        }
        assert(joined@.subrange(0, joined@.len() as int) =~= joined@);
        let ghost added = events@;
        let left = pids_of(&self.tracked_pids);
        for i in 0..left.len()
            invariant
                events@ == added + removed_events(left@.subrange(0, i as int), new_tracked@),
        {
            assert(left@.subrange(0, i + 1).drop_last() =~= left@.subrange(0, i as int));
            let pid = left[i];
            if !new_tracked.contains(&pid) {
                events.push(MonitorEvent::ProcessRemoved(pid));
            }
        }
        assert(left@.subrange(0, left@.len() as int) =~= left@);
        self.tracked_pids = new_tracked;
        events
    }

    /// Looks for the root processes again (see `refresh_roots`) and tracks
    /// the processes of their trees, as a snapshot of the process tree
    /// lists them; returns the reports: the processes that joined, then
    /// those that left.
    pub fn refresh_process_tree(
        &mut self,
        processes: &Vec<ProcessEntry>,
        tree: &Vec<(i32, Vec<i32>)>,
    ) -> (r: Vec<MonitorEvent>)
        ensures
            final(self).spec_target() == old(self).spec_target(),
            final(self).spec_app_path_prefix() == old(self).spec_app_path_prefix(),
            final(self).spec_executable_name() == old(self).spec_executable_name(),
            final(self).spec_seen_subnets() == old(self).spec_seen_subnets(),
            final(self).spec_seen_addresses() == old(self).spec_seen_addresses(),
            final(self).spec_roots() == match old(self).spec_app_path_prefix() {
                Some(prefix) => pids_under(processes@, prefix),
                None => match old(self).spec_executable_name() {
                    Some(name) => pids_named(processes@, name),
                    None => old(self).spec_roots(),
                },
            },
            final(self).spec_tracked() == tree_of_roots(tree@, final(self).spec_roots()),
            tracking_reports(old(self).spec_tracked(), final(self).spec_tracked(), processes@, r@),
    {
        let roots = self.refresh_roots(processes);
        let mut now: Vec<i32> = Vec::new();
        for i in 0..roots.len()
            invariant
                now@.to_set() == tree_of_roots(tree@, roots@.subrange(0, i as int)),
        {
            let d = collect_descendants(roots[i], tree);
            let ghost before = now@;
            for j in 0..d.len()
                invariant
                    now@ == before + d@.subrange(0, j as int),
            {
                now.push(d[j]);
                assert(now@ =~= before + d@.subrange(0, j + 1));
            }
            proof {
                assert(d@.subrange(0, d@.len() as int) =~= d@);
                let sub = roots@.subrange(0, i + 1);
                assert forall|x: i32| now@.to_set().contains(x) <==> tree_of_roots(tree@, sub).contains(x) by {
                    if now@.contains(x) {
                        let k = choose|k: int| 0 <= k < now@.len() && now@[k] == x;
                        if k < before.len() {
                            assert(before[k] == x);
                            assert(before.to_set().contains(x));
                            let t = choose|t: int| 0 <= t < i && #[trigger] descendants(tree@, roots@.subrange(0, i as int)[t]).contains(x);
                            assert(sub[t] == roots@.subrange(0, i as int)[t]);
                        } else {
                            assert(d@[k - before.len()] == x);
                            assert(d@.to_set().contains(x));
                            assert(sub[i as int] == roots@[i as int]);
                        }
                    }
                    if tree_of_roots(tree@, sub).contains(x) {
                        let t = choose|t: int| 0 <= t < i + 1 && #[trigger] descendants(tree@, sub[t]).contains(x);
                        if t < i {
                            assert(roots@.subrange(0, i as int)[t] == sub[t]);
                            assert(tree_of_roots(tree@, roots@.subrange(0, i as int)).contains(x));
                            assert(before.to_set().contains(x));
                            let k = choose|k: int| 0 <= k < before.len() && before[k] == x;
                            assert(now@[k] == x);
                        } else {
                            assert(sub[t] == roots@[i as int]);
                            assert(d@.to_set().contains(x));
                            let k = choose|k: int| 0 <= k < d@.len() && d@[k] == x;
                            assert(now@[before.len() + k] == x);
                        }
                    }
                }
                assert(now@.to_set() =~= tree_of_roots(tree@, sub));
            }
        }
        proof {
            assert(roots@.subrange(0, roots@.len() as int) =~= roots@);
        }
        self.apply_tracked(&now, processes)
    }

    /// Aggregates the remote addresses found on the tracked processes'
    /// sockets, in order, and returns the reports.
    pub fn record_addresses(&mut self, addrs: &Vec<IpAddress>) -> (r: Vec<MonitorEvent>)
        ensures
            final(self).spec_target() == old(self).spec_target(),
            final(self).spec_tracked() == old(self).spec_tracked(),
            final(self).spec_roots() == old(self).spec_roots(),
            final(self).spec_app_path_prefix() == old(self).spec_app_path_prefix(),
            final(self).spec_executable_name() == old(self).spec_executable_name(),
            (r@, final(self).spec_seen_subnets(), final(self).spec_seen_addresses()) == aggregate_all(
                old(self).spec_seen_subnets(),
                old(self).spec_seen_addresses(),
                addrs@,
            ),
    {
        let mut events: Vec<MonitorEvent> = Vec::new();
        for i in 0..addrs.len()
            invariant
                self.target == old(self).target,
                self.tracked_pids == old(self).tracked_pids,
                self.root_pids == old(self).root_pids,
                self.app_path_prefix == old(self).app_path_prefix,
                self.executable_name == old(self).executable_name,
                (events@, self.aggregator.seen_subnets(), self.aggregator.seen_addresses()) == aggregate_all(
                    old(self).aggregator.seen_subnets(),
                    old(self).aggregator.seen_addresses(),
                    addrs@.subrange(0, i as int),
                ),
        {
            assert(addrs@.subrange(0, i + 1).drop_last() =~= addrs@.subrange(0, i as int));
            let ghost before = events@;
            let result = self.aggregator.add(addrs[i]);
            match result.discovered {
                Some(d) => events.push(MonitorEvent::NewAddress(d)),
                None => {},
            }
            match result.raw_ipv4 {
                Some(a) => events.push(MonitorEvent::NewIpv4Raw(a)),
                None => {},
            }
            match result.raw_ipv6 {
                Some(a) => events.push(MonitorEvent::NewIpv6Raw(a)),
                None => {},
            }
            assert(events@ =~= before + result_events(result));
        }
        assert(addrs@.subrange(0, addrs@.len() as int) =~= addrs@);
        events
    }
}

/// The index of the first snapshot entry with the PID.
fn find_entry(procs: &Vec<ProcessEntry>, pid: i32) -> (r: Option<usize>)
    ensures
        match r {
            Some(k) => k < procs.len() && entry_of(procs@, pid) == Some(procs@[k as int]),
            None => entry_of(procs@, pid) is None,
        },
{
    let mut i: usize = 0;
    while i < procs.len()
        invariant
            i <= procs.len(),
            entry_of(procs@.subrange(0, i as int), pid) is None,
        decreases procs.len() - i,
    {
        assert(procs@.subrange(0, i + 1).drop_last() =~= procs@.subrange(0, i as int));
        if procs[i].pid == pid {
            proof {
                lemma_entry_of_extend(procs@, pid, i as int + 1);
            }
            return Some(i);
        }
        i = i + 1;
    }
    assert(procs@.subrange(0, procs@.len() as int) =~= procs@);
    None
}

proof fn lemma_entry_of_extend(procs: Seq<ProcessEntry>, pid: i32, n: int)
    requires
        0 <= n <= procs.len(),
        entry_of(procs.subrange(0, n), pid) is Some,
    ensures
        entry_of(procs, pid) == entry_of(procs.subrange(0, n), pid),
    decreases procs.len() - n,
{
    if n < procs.len() {
        assert(procs.subrange(0, n + 1).drop_last() =~= procs.subrange(0, n));
        lemma_entry_of_extend(procs, pid, n + 1);
    } else {
        assert(procs.subrange(0, n) =~= procs);
    }
}

} // verus!
