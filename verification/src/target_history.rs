//! The address history of every target of a run: what each target's
//! monitoring screen held when it was last left, restored when the target is
//! opened again.

use vstd::prelude::*;

use crate::address_lists::{empty_lists, law_restore_into_empty_round_trip, lists_wf, restored, Lists};
use crate::monitor_view::{AddressDisplayMode, AddressOrderMode, MonitorView};
use crate::session::PreservedData;
use crate::sessions::{same_target, target_key};
use crate::types::{copy_target, AppInfo, MonitorTarget, ProcessInfo};

verus! {

/// The saved lists of each target, by its contents, from a list of saved
/// entries: where a target is listed more than once, the later entry counts.
pub open spec fn saved_lists(entries: Seq<(MonitorTarget, PreservedData)>) -> Map<(int, i32, Seq<char>), Lists>
    decreases entries.len(),
{
    if entries.len() == 0 {
        Map::empty()
    } else {
        saved_lists(entries.drop_last()).insert(target_key(entries.last().0), entries.last().1.lists())
    }
}

/// Entry `j` is the last entry for target `k`.
pub open spec fn is_last_entry(entries: Seq<(MonitorTarget, PreservedData)>, k: (int, i32, Seq<char>), j: int) -> bool {
    &&& 0 <= j < entries.len()
    &&& target_key(entries[j].0) == k
    &&& forall|m: int| j < m < entries.len() ==> target_key(#[trigger] entries[m].0) != k
}

proof fn lemma_saved_absent(entries: Seq<(MonitorTarget, PreservedData)>, k: (int, i32, Seq<char>))
    requires
        forall|m: int| 0 <= m < entries.len() ==> target_key(#[trigger] entries[m].0) != k,
    ensures
        !saved_lists(entries).contains_key(k),
    decreases entries.len(),
{
    if entries.len() > 0 {
        lemma_saved_absent(entries.drop_last(), k);
    }
}

proof fn lemma_saved_last(entries: Seq<(MonitorTarget, PreservedData)>, k: (int, i32, Seq<char>), j: int)
    requires
        is_last_entry(entries, k, j),
    ensures
        saved_lists(entries).contains_key(k),
        saved_lists(entries)[k] == entries[j].1.lists(),
    decreases entries.len(),
{
    if j < entries.len() - 1 {
        assert(target_key(entries[entries.len() - 1].0) != k);
        lemma_saved_last(entries.drop_last(), k, j);
    }
}

proof fn lemma_saved_replace_last(
    entries: Seq<(MonitorTarget, PreservedData)>,
    j: int,
    t: MonitorTarget,
    d: PreservedData,
)
    requires
        is_last_entry(entries, target_key(t), j),
    ensures
        saved_lists(entries.update(j, (t, d))) == saved_lists(entries).insert(target_key(t), d.lists()),
    decreases entries.len(),
{
    let k = target_key(t);
    let updated = entries.update(j, (t, d));
    if j == entries.len() - 1 {
        assert(updated.drop_last() =~= entries.drop_last());
        assert(saved_lists(updated) =~= saved_lists(entries).insert(k, d.lists()));
    } else {
        let last = entries.last();
        assert(target_key(entries[entries.len() - 1].0) != k);
        assert(updated.drop_last() =~= entries.drop_last().update(j, (t, d)));
        lemma_saved_replace_last(entries.drop_last(), j, t, d);
        assert(updated.last() == last);
        assert(saved_lists(updated) =~= saved_lists(entries).insert(k, d.lists()));
    }
}

/// The saved address lists of every target of a run.
pub struct TargetHistory {
    entries: Vec<(MonitorTarget, PreservedData)>,
}

impl TargetHistory {
    /// The saved lists of each target, by its contents.
    pub closed spec fn saved(&self) -> Map<(int, i32, Seq<char>), Lists> {
        saved_lists(self.entries@)
    }

    /// No saved lists.
    pub fn new() -> (r: Self)
        ensures
            r.saved() == Map::<(int, i32, Seq<char>), Lists>::empty(),
    {
        TargetHistory { entries: Vec::new() }
    }

    /// The history read from saved entries (a later entry for the same
    /// target counts over an earlier one).
    pub fn from_entries(entries: Vec<(MonitorTarget, PreservedData)>) -> (r: Self)
        ensures
            r.saved() == saved_lists(entries@),
    {
        TargetHistory { entries }
    }

    /// The entries to write out; read back, they give the same history.
    pub fn entries(&self) -> (r: &Vec<(MonitorTarget, PreservedData)>)
        ensures
            saved_lists(r@) == self.saved(),
    {
        &self.entries
    }

    /// The index of the last entry for `target`, if any.
    fn find_last(&self, target: &MonitorTarget) -> (r: Option<usize>)
        ensures
            match r {
                Some(j) => is_last_entry(self.entries@, target_key(*target), j as int),
                None => forall|m: int|
                    0 <= m < self.entries@.len() ==> target_key(#[trigger] self.entries@[m].0) != target_key(
                        *target,
                    ),
            },
    {
        let ghost k = target_key(*target);
        let mut last: Option<usize> = None;
        for i in 0..self.entries.len()
            invariant
                k == target_key(*target),
                match last {
                    Some(j) => j < i && target_key(self.entries@[j as int].0) == k && forall|m: int|
                        j < m < i ==> target_key(#[trigger] self.entries@[m].0) != k,
                    None => forall|m: int| 0 <= m < i ==> target_key(#[trigger] self.entries@[m].0) != k,
                },
        {
            let same = same_target(&self.entries[i].0, target);
            assert(same == (target_key(self.entries@[i as int].0) == k));
            if same {
                last = Some(i);
            }
        }
        last
    }

    /// Records the address lists a target's screen holds as it is left.
    pub fn remember(&mut self, target: &MonitorTarget, view: &MonitorView)
        ensures
            final(self).saved() == old(self).saved().insert(target_key(*target), view.lists()),
    {
        let data = PreservedData::from_view(view);
        let t = copy_target(target);
        match self.find_last(target) {
            Some(j) => {
                proof {
                    lemma_saved_replace_last(self.entries@, j as int, t, data);
                }
                self.entries.set(j, (t, data));
            },
            None => {
                self.entries.push((t, data));
                proof {
                    assert(self.entries@.drop_last() =~= old(self).entries@);
                }
            },
        }
    }

    /// A new monitoring screen for `target`, holding the lists saved for it,
    /// or none when nothing was saved for it.
    pub fn open_view(&self, target: &MonitorTarget, app_info: AppInfo) -> (r: MonitorView)
        ensures
            r.wf(),
            r.lists() == (if self.saved().contains_key(target_key(*target)) {
                restored(empty_lists(), self.saved()[target_key(*target)])
            } else {
                empty_lists()
            }),
            r.spec_processes() == Seq::<ProcessInfo>::empty(),
            r.spec_app_info() == app_info,
            !r.spec_target_active(),
            r.display_mode() == AddressDisplayMode::Masked,
            r.order_mode() == AddressOrderMode::Time,
            r.scroll_offset() == 0,
            r.visible_rows() == 1,
    {
        let mut view = MonitorView::new(app_info);
        match self.find_last(target) {
            Some(j) => {
                proof {
                    lemma_saved_last(self.entries@, target_key(*target), j as int);
                }
                self.entries[j].1.restore_into(&mut view);
            },
            None => {
                proof {
                    lemma_saved_absent(self.entries@, target_key(*target));
                }
            },
        }
        view
    }
}

/// The saved lists after a run of visits, each visit leaving a target's
/// screen with the given lists, starting from the saved lists `start`.
pub open spec fn after_visits(
    start: Map<(int, i32, Seq<char>), Lists>,
    visits: Seq<(MonitorTarget, Lists)>,
) -> Map<(int, i32, Seq<char>), Lists>
    decreases visits.len(),
{
    if visits.len() == 0 {
        start
    } else {
        after_visits(start, visits.drop_last()).insert(target_key(visits.last().0), visits.last().1)
    }
}

/// The lists the last visit to target `k` ended with, if it was visited.
pub open spec fn last_visit(visits: Seq<(MonitorTarget, Lists)>, k: (int, i32, Seq<char>)) -> Option<Lists>
    decreases visits.len(),
{
    if visits.len() == 0 {
        None
    } else if target_key(visits.last().0) == k {
        Some(visits.last().1)
    } else {
        last_visit(visits.drop_last(), k)
    }
}

/// Over any run of visits (each leaving a screen whose lists are well
/// formed), opening a target again shows exactly the lists its last visit
/// ended with; a target not visited in the run keeps what was saved for it
/// before (nothing, or what the history file held). The lists of other
/// targets never show up in its screen.
pub proof fn law_revisit_shows_last_visit(
    start: Map<(int, i32, Seq<char>), Lists>,
    visits: Seq<(MonitorTarget, Lists)>,
    k: (int, i32, Seq<char>),
)
    requires
        forall|i: int| 0 <= i < visits.len() ==> lists_wf(#[trigger] visits[i].1),
    ensures
        last_visit(visits, k) matches Some(l) ==> after_visits(start, visits).contains_key(k) && restored(
            empty_lists(),
            after_visits(start, visits)[k],
        ) == l,
        last_visit(visits, k) is None ==> after_visits(start, visits).contains_key(k) == start.contains_key(
            k,
        ) && (start.contains_key(k) ==> after_visits(start, visits)[k] == start[k]),
    decreases visits.len(),
{
    if visits.len() > 0 {
        let last = visits.last();
        assert(lists_wf(visits[visits.len() - 1].1));
        assert forall|i: int| 0 <= i < visits.drop_last().len() implies lists_wf(
            #[trigger] visits.drop_last()[i].1,
        ) by {
            assert(visits.drop_last()[i] == visits[i]);
        }
        law_revisit_shows_last_visit(start, visits.drop_last(), k);
        if target_key(last.0) == k {
            law_restore_into_empty_round_trip(last.1);
        }
    }
}

} // verus!
