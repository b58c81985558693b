//! Monitoring sessions of one run of the program: each target selected
//! keeps being monitored after its screen is left, until it is paused.

use vstd::prelude::*;

use crate::session::{app_to_target, spec_app_to_target};
use crate::types::{copy_app_info, copy_target, AppInfo, AppMonitorState, MonitorTarget};

verus! {

/// A target by its contents: its kind (0 for a PID, 1 for a name, 2 for a
/// bundle), its PID, and its text.
pub open spec fn target_key(t: MonitorTarget) -> (int, i32, Seq<char>) {
    match t {
        MonitorTarget::Pid(p) => (0, p, Seq::empty()),
        MonitorTarget::Name(n) => (1, 0, n@),
        MonitorTarget::Bundle(b) => (2, 0, b@),
    }
}

/// Whether two targets are the same target.
pub fn same_target(a: &MonitorTarget, b: &MonitorTarget) -> (r: bool)
    ensures
        r == (target_key(*a) == target_key(*b)),
{
    match (a, b) {
        (MonitorTarget::Pid(x), MonitorTarget::Pid(y)) => *x == *y,
        (MonitorTarget::Name(x), MonitorTarget::Name(y)) => x.eq(y),
        (MonitorTarget::Bundle(x), MonitorTarget::Bundle(y)) => x.eq(y),
        _ => false,
    }
}

/// Whether a list holds a target with the given contents.
pub open spec fn has_key(targets: Seq<MonitorTarget>, k: (int, i32, Seq<char>)) -> bool {
    exists|j: int| 0 <= j < targets.len() && target_key(targets[j]) == k
}

/// Whether one of the first `n` entries is the target `k`, monitored.
spec fn monitored_within(entries: Seq<(MonitorTarget, AppMonitorState)>, n: int, k: (int, i32, Seq<char>)) -> bool {
    exists|j: int| 0 <= j < n && target_key(entries[j].0) == k && entries[j].1 == AppMonitorState::Monitoring
}

/// What selecting a target asks of the caller: start its monitor (it was
/// not monitored, or paused), or only show it (it is being monitored).
#[derive(Clone, Copy, Debug, PartialEq, Eq, Structural)]
pub enum SessionStart {
    Start,
    Attach,
}

/// No target is listed twice, and a listed target is monitored or paused.
spec fn entries_wf(entries: Seq<(MonitorTarget, AppMonitorState)>) -> bool {
    &&& forall|i: int, j: int|
        0 <= i < j < entries.len() ==> target_key(#[trigger] entries[i].0) != target_key(#[trigger] entries[j].0)
    &&& forall|i: int| 0 <= i < entries.len() ==> (#[trigger] entries[i]).1 != AppMonitorState::Unmonitored
}

/// The state of target `key` among the recorded states: unmonitored when
/// none is recorded.
pub open spec fn state_in(states: Map<(int, i32, Seq<char>), AppMonitorState>, key: (int, i32, Seq<char>)) -> AppMonitorState {
    if states.contains_key(key) {
        states[key]
    } else {
        AppMonitorState::Unmonitored
    }
}

/// The targets of this run and whether each is monitored or paused.
pub struct SessionRegistry {
    entries: Vec<(MonitorTarget, AppMonitorState)>,
}

impl SessionRegistry {
    /// The state of each target of this run, by its contents.
    pub closed spec fn states(&self) -> Map<(int, i32, Seq<char>), AppMonitorState> {
        Map::new(
            |k: (int, i32, Seq<char>)|
                exists|i: int| 0 <= i < self.entries@.len() && target_key(self.entries@[i].0) == k,
            |k: (int, i32, Seq<char>)|
                self.entries@[choose|i: int|
                    0 <= i < self.entries@.len() && target_key(self.entries@[i].0) == k].1,
        )
    }

    /// No target is listed twice, and a listed target is monitored or
    /// paused.
    #[verifier::type_invariant]
    spec fn wf(&self) -> bool {
        entries_wf(self.entries@)
    }

    /// The state a target is in: unmonitored when this run has not
    /// selected it.
    pub open spec fn state_of(&self, key: (int, i32, Seq<char>)) -> AppMonitorState {
        state_in(self.states(), key)
    }

    proof fn lemma_state_at(&self, i: int)
        requires
            self.wf(),
            0 <= i < self.entries@.len(),
        ensures
            self.states().contains_key(target_key(self.entries@[i].0)),
            self.states()[target_key(self.entries@[i].0)] == self.entries@[i].1,
    {
        let k = target_key(self.entries@[i].0);
        let j = choose|j: int| 0 <= j < self.entries@.len() && target_key(self.entries@[j].0) == k;
        if j != i {
            if j < i {
                assert(target_key(self.entries@[j].0) != target_key(self.entries@[i].0));
            } else {
                assert(target_key(self.entries@[i].0) != target_key(self.entries@[j].0));
            }
        }
    }

    /// A registry without targets.
    pub fn new() -> (r: Self)
        ensures
            r.states() == Map::<(int, i32, Seq<char>), AppMonitorState>::empty(),
    {
        let r = SessionRegistry { entries: Vec::new() };
        assert(r.states() =~= Map::<(int, i32, Seq<char>), AppMonitorState>::empty());
        r
    }

    fn position(&self, target: &MonitorTarget) -> (r: Option<usize>)
        ensures
            match r {
                Some(i) => i < self.entries@.len() && target_key(self.entries@[i as int].0) == target_key(
                    *target,
                ),
                None => !self.states().contains_key(target_key(*target)),
            },
    {
        proof {
            use_type_invariant(self);
        }
        for i in 0..self.entries.len()
            invariant
                forall|j: int| 0 <= j < i ==> target_key(self.entries@[j].0) != target_key(*target),
        {
            if same_target(&self.entries[i].0, target) {
                return Some(i);
            }
        }
        None
    }

    /// The state a target is in.
    pub fn state(&self, target: &MonitorTarget) -> (r: AppMonitorState)
        ensures
            r == self.state_of(target_key(*target)),
    {
        proof {
            use_type_invariant(self);
        }
        match self.position(target) {
            Some(i) => {
                proof {
                    self.lemma_state_at(i as int);
                }
                self.entries[i].1
            },
            None => AppMonitorState::Unmonitored,
        }
    }

    fn set_state(&mut self, target: &MonitorTarget, state: AppMonitorState)
        requires
            state != AppMonitorState::Unmonitored,
        ensures
            final(self).states() == old(self).states().insert(target_key(*target), state),
    {
        proof {
            use_type_invariant(&*self);
        }
        let ghost before = self.entries@;
        let ghost k = target_key(*target);
        let t = copy_target(target);
        match self.position(target) {
            Some(i) => {
                let ghost after = before.update(i as int, (t, state));
                proof {
                    assert forall|a: int, b: int|
                        0 <= a < b < after.len() implies target_key(#[trigger] after[a].0) != target_key(
                        #[trigger] after[b].0,
                    ) by {
                        assert(target_key(before[a].0) != target_key(before[b].0));
                    }
                    assert(entries_wf(after));
                }
                let mut entries: Vec<(MonitorTarget, AppMonitorState)> = Vec::new();
                std::mem::swap(&mut entries, &mut self.entries);
                entries.set(i, (t, state));
                self.entries = entries;
                proof {
                    assert(self.entries@ == after);
                    assert forall|key: (int, i32, Seq<char>)|
                        self.states().contains_key(key) <==> old(self).states().insert(k, state).contains_key(key) by {
                        if self.states().contains_key(key) {
                            let j = choose|j: int| 0 <= j < self.entries@.len() && target_key(self.entries@[j].0) == key;
                            assert(target_key(before[j].0) == key);
                        }
                        if old(self).states().contains_key(key) {
                            let j = choose|j: int| 0 <= j < before.len() && target_key(before[j].0) == key;
                            assert(target_key(self.entries@[j].0) == key);
                        }
                    }
                    assert forall|key: (int, i32, Seq<char>)| #[trigger] self.states().contains_key(key) implies self.states()[key]
                        == old(self).states().insert(k, state)[key] by {
                        let j = choose|j: int| 0 <= j < self.entries@.len() && target_key(self.entries@[j].0) == key;
                        self.lemma_state_at(j);
                        if key != k {
                            old(self).lemma_state_at(j);
                            assert(before[j] == self.entries@[j]);
                        }
                    }
                    assert(self.states() =~= old(self).states().insert(k, state));
                }
            },
            None => {
                let ghost after = before.push((t, state));
                proof {
                    assert forall|a: int, b: int|
                        0 <= a < b < after.len() implies target_key(#[trigger] after[a].0) != target_key(
                        #[trigger] after[b].0,
                    ) by {
                        if b < before.len() {
                            assert(target_key(before[a].0) != target_key(before[b].0));
                        } else {
                            assert(before[a] == after[a]);
                            if target_key(before[a].0) == k {
                                assert(old(self).states().contains_key(k));
                            }
                        }
                    }
                    assert(entries_wf(after));
                }
                let mut entries: Vec<(MonitorTarget, AppMonitorState)> = Vec::new();
                std::mem::swap(&mut entries, &mut self.entries);
                entries.push((t, state));
                self.entries = entries;
                proof {
                    assert(self.entries@ == after);
                    assert forall|key: (int, i32, Seq<char>)|
                        self.states().contains_key(key) <==> old(self).states().insert(k, state).contains_key(key) by {
                        if self.states().contains_key(key) {
                            let j = choose|j: int| 0 <= j < self.entries@.len() && target_key(self.entries@[j].0) == key;
                            if j < before.len() {
                                assert(target_key(before[j].0) == key);
                            }
                        }
                        if old(self).states().contains_key(key) {
                            let j = choose|j: int| 0 <= j < before.len() && target_key(before[j].0) == key;
                            assert(target_key(self.entries@[j].0) == key);
                        }
                        if key == k {
                            assert(target_key(self.entries@[before.len() as int].0) == k);
                        }
                    }
                    assert forall|key: (int, i32, Seq<char>)| #[trigger] self.states().contains_key(key) implies self.states()[key]
                        == old(self).states().insert(k, state)[key] by {
                        let j = choose|j: int| 0 <= j < self.entries@.len() && target_key(self.entries@[j].0) == key;
                        self.lemma_state_at(j);
                        if j < before.len() {
                            old(self).lemma_state_at(j);
                            assert(before[j] == self.entries@[j]);
                        }
                    }
                    assert(self.states() =~= old(self).states().insert(k, state));
                }
            },
        }
    }

    /// Selects a target: it is monitored from now on; the caller starts its
    /// monitor unless it was being monitored already.
    pub fn select(&mut self, target: &MonitorTarget) -> (r: SessionStart)
        ensures
            final(self).states() == old(self).states().insert(target_key(*target), AppMonitorState::Monitoring),
            r == if old(self).state_of(target_key(*target)) == AppMonitorState::Monitoring {
                SessionStart::Attach
            } else {
                SessionStart::Start
            },
    {
        let before = self.state(target);
        self.set_state(target, AppMonitorState::Monitoring);
        match before {
            AppMonitorState::Monitoring => SessionStart::Attach,
            _ => SessionStart::Start,
        }
    }

    /// Pauses a monitored target, or resumes a paused (or unselected) one;
    /// returns its new state.
    pub fn toggle_pause(&mut self, target: &MonitorTarget) -> (r: AppMonitorState)
        ensures
            r == if old(self).state_of(target_key(*target)) == AppMonitorState::Monitoring {
                AppMonitorState::Paused
            } else {
                AppMonitorState::Monitoring
            },
            final(self).states() == old(self).states().insert(target_key(*target), r),
    {
        let next = match self.state(target) {
            AppMonitorState::Monitoring => AppMonitorState::Paused,
            _ => AppMonitorState::Monitoring,
        };
        self.set_state(target, next);
        next
    }

    /// The targets being monitored (not paused), in the order they were
    /// first selected.
    pub fn monitored_targets(&self) -> (r: Vec<MonitorTarget>)
        ensures
            forall|t: MonitorTarget| #[trigger]
                has_key(r@, target_key(t)) <==> self.state_of(target_key(t)) == AppMonitorState::Monitoring,
    {
        proof {
            use_type_invariant(self);
        }
        let mut r: Vec<MonitorTarget> = Vec::new();
        for i in 0..self.entries.len()
            invariant
                self.wf(),
                forall|k: (int, i32, Seq<char>)| #[trigger]
                    has_key(r@, k) <==> monitored_within(self.entries@, i as int, k),
        {
            let ghost before = r@;
            if self.entries[i].1 == AppMonitorState::Monitoring {
                r.push(copy_target(&self.entries[i].0));
            }
            proof {
                assert forall|k: (int, i32, Seq<char>)| #[trigger]
                    has_key(r@, k) <==> monitored_within(self.entries@, i + 1, k) by {
                    if has_key(r@, k) {
                        let j = choose|j: int| 0 <= j < r@.len() && target_key(r@[j]) == k;
                        if j < before.len() {
                            assert(before[j] == r@[j]);
                            assert(has_key(before, k));
                        } else {
                            assert(target_key(self.entries@[i as int].0) == k);
                        }
                    }
                    if monitored_within(self.entries@, i + 1, k) {
                        let j = choose|j: int|
                            0 <= j < i + 1 && target_key(self.entries@[j].0) == k && self.entries@[j].1
                                == AppMonitorState::Monitoring;
                        if j == i {
                            assert(target_key(r@[before.len() as int]) == k);
                        } else {
                            assert(monitored_within(self.entries@, i as int, k));
                            assert(has_key(before, k));
                            let t = choose|t: int| 0 <= t < before.len() && target_key(before[t]) == k;
                            assert(r@[t] == before[t]);
                        }
                    }
                }
            }
        }
        proof {
            assert forall|t: MonitorTarget| #[trigger]
                has_key(r@, target_key(t)) <==> self.state_of(target_key(t)) == AppMonitorState::Monitoring by {
                let k = target_key(t);
                if monitored_within(self.entries@, self.entries@.len() as int, k) {
                    let j = choose|j: int|
                        0 <= j < self.entries@.len() && target_key(self.entries@[j].0) == k
                            && self.entries@[j].1 == AppMonitorState::Monitoring;
                    self.lemma_state_at(j);
                }
                if self.state_of(k) == AppMonitorState::Monitoring {
                    let j = choose|j: int| 0 <= j < self.entries@.len() && target_key(self.entries@[j].0) == k;
                    self.lemma_state_at(j);
                    assert(monitored_within(self.entries@, self.entries@.len() as int, k));
                }
            }
        }
        r
    }

    /// The apps with the state of their target in this run (see
    /// `app_to_target`).
    pub fn annotate(&self, apps: &Vec<AppInfo>) -> (r: Vec<AppInfo>)
        ensures
            r@.len() == apps@.len(),
            forall|i: int|
                0 <= i < apps@.len() ==> #[trigger] r@[i] == (AppInfo {
                    monitor_state: self.state_of(target_key(spec_app_to_target(apps@[i]))),
                    ..apps@[i]
                }),
    {
        let mut r: Vec<AppInfo> = Vec::new();
        for i in 0..apps.len()
            invariant
                r@.len() == i,
                forall|j: int|
                    0 <= j < i ==> #[trigger] r@[j] == (AppInfo {
                        monitor_state: self.state_of(target_key(spec_app_to_target(apps@[j]))),
                        ..apps@[j]
                    }),
        {
            let mut a = copy_app_info(&apps[i]);
            let t = app_to_target(&apps[i]);
            a.monitor_state = self.state(&t);
            r.push(a);
        }
        r
    }
}

/// Selecting, pausing or resuming one target leaves the state of every
/// other target as it was: sessions are independent.
pub proof fn law_sessions_independent(
    states: Map<(int, i32, Seq<char>), AppMonitorState>,
    changed: (int, i32, Seq<char>),
    other: (int, i32, Seq<char>),
    state: AppMonitorState,
)
    requires
        changed != other,
    ensures
        state_in(states.insert(changed, state), other) == state_in(states, other),
{
}

/// Pausing a monitored target and resuming it gives back the states as
/// they were.
pub proof fn law_pause_then_resume(states: Map<(int, i32, Seq<char>), AppMonitorState>, key: (int, i32, Seq<char>))
    requires
        state_in(states, key) == AppMonitorState::Monitoring,
    ensures
        state_in(states.insert(key, AppMonitorState::Paused), key) == AppMonitorState::Paused,
        states.insert(key, AppMonitorState::Paused).insert(key, AppMonitorState::Monitoring) == states,
{
    assert(states.insert(key, AppMonitorState::Paused).insert(key, AppMonitorState::Monitoring) =~= states);
}

/// Selecting a target makes it monitored, whatever it was, and selecting it
/// again changes nothing.
pub proof fn law_select_idempotent(states: Map<(int, i32, Seq<char>), AppMonitorState>, key: (int, i32, Seq<char>))
    ensures
        state_in(states.insert(key, AppMonitorState::Monitoring), key) == AppMonitorState::Monitoring,
        states.insert(key, AppMonitorState::Monitoring).insert(key, AppMonitorState::Monitoring) == states.insert(
            key,
            AppMonitorState::Monitoring,
        ),
{
    assert(states.insert(key, AppMonitorState::Monitoring).insert(key, AppMonitorState::Monitoring) =~= states.insert(
        key,
        AppMonitorState::Monitoring,
    ));
}

} // verus!
