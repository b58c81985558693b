//! The app selection screen's state: the list of apps, the filter typed so
//! far, the entries it keeps, and the highlighted entry.

use vstd::prelude::*;

use crate::discovery::{lowercase, to_lowercase};
use crate::key::{is_quit, spec_is_quit, Key, KeyInput};
use crate::text::{
    chars_of, contains_chars, contains_text, push_char, push_str, signed_decimal,
    signed_decimal_string,
};
use crate::types::{copy_app_info, AppInfo, AppMonitorState};

verus! {

/// What the selection screen ends with.
#[derive(Clone, Debug)]
pub enum SelectorAction {
    Quit,
    Selected(AppInfo),
}

/// The colour a piece of a row is drawn in.
#[derive(Clone, Copy, Debug, PartialEq, Eq, Structural)]
pub enum Tone {
    Plain,
    White,
    Green,
    Yellow,
    Cyan,
    DarkGray,
}

/// A piece of a row: its text and colour.
#[derive(Clone, Debug)]
pub struct Segment {
    pub text: String,
    pub tone: Tone,
}

/// Removes the last character of a string with `String::pop`, which
/// returns it, or `None` for an empty string.
#[verifier::external_body]
fn pop_char(s: &mut String) -> (r: Option<char>)
    ensures
        old(s)@.len() == 0 ==> r is None && final(s)@ == old(s)@,
        old(s)@.len() > 0 ==> r == Some(old(s)@.last()) && final(s)@ == old(s)@.drop_last(),
{
    s.pop()
}

/// Whether an app is kept by the (already lowercased) filter `q`: an empty
/// filter keeps everything; otherwise the lowercased display name, the
/// lowercased bundle identifier or the PID's decimal text holds `q`.
pub open spec fn matches_query(app: AppInfo, q: Seq<char>) -> bool {
    ||| q.len() == 0
    ||| contains_text(lowercase(app.display_name@), q)
    ||| contains_text(
        lowercase(
            match app.bundle_id {
                Some(b) => b@,
                None => ""@,
            },
        ),
        q,
    )
    ||| (app.pid matches Some(p) && contains_text(signed_decimal(p as int), q))
}

/// The indices, in order, of the apps the filter `q` keeps.
pub open spec fn matching_indices(apps: Seq<AppInfo>, q: Seq<char>) -> Seq<usize>
    decreases apps.len(),
{
    if apps.len() == 0 {
        Seq::empty()
    } else {
        let r = matching_indices(apps.drop_last(), q);
        if matches_query(apps.last(), q) {
            r.push((apps.len() - 1) as usize)
        } else {
            r
        }
    }
}

/// The indices `0, 1, ..., n - 1`.
pub open spec fn all_indices(n: nat) -> Seq<usize> {
    Seq::new(n, |i: int| i as usize)
}

/// The empty filter keeps every app, in order.
pub proof fn lemma_empty_query_keeps_all(apps: Seq<AppInfo>)
    ensures
        matching_indices(apps, Seq::<char>::empty()) == all_indices(apps.len()),
    decreases apps.len(),
{
    if apps.len() > 0 {
        lemma_empty_query_keeps_all(apps.drop_last());
        assert(matching_indices(apps, Seq::<char>::empty()) =~= all_indices(apps.len()));
    } else {
        assert(matching_indices(apps, Seq::<char>::empty()) =~= all_indices(apps.len()));
    }
}

/// Where the app comes from: a running app (GUI), a running process (CLI),
/// an installed app (APP), or unknown.
pub open spec fn spec_source_label(app: AppInfo) -> Seq<char> {
    match (app.pid is Some, app.bundle_id is Some) {
        (true, true) => "GUI"@,
        (true, false) => "CLI"@,
        (false, true) => "APP"@,
        (false, false) => "UNK"@,
    }
}

pub open spec fn spec_monitor_state_label(state: AppMonitorState) -> Seq<char> {
    match state {
        AppMonitorState::Monitoring => "MONITORING"@,
        AppMonitorState::Paused => "PAUSED"@,
        AppMonitorState::Unmonitored => "IDLE"@,
    }
}

pub open spec fn spec_monitor_state_tone(state: AppMonitorState) -> Tone {
    match state {
        AppMonitorState::Monitoring => Tone::Green,
        AppMonitorState::Paused => Tone::Yellow,
        AppMonitorState::Unmonitored => Tone::DarkGray,
    }
}

/// The pieces of an app's row: running marker, name, source, monitoring
/// state, bundle identifier (or "--"), and PID when running.
pub open spec fn row_texts(app: AppInfo) -> Seq<(Seq<char>, Tone)> {
    seq![
        if app.pid is Some { ("\u{25cf} "@, Tone::Green) } else { ("\u{25cb} "@, Tone::DarkGray) },
        (app.display_name@, Tone::White),
        (" ["@ + spec_source_label(app) + "]"@, Tone::Yellow),
        (" ["@ + spec_monitor_state_label(app.monitor_state) + "]"@, spec_monitor_state_tone(app.monitor_state)),
        ("  "@ + match app.bundle_id {
            Some(b) => b@,
            None => "--"@,
        }, Tone::DarkGray),
        match app.pid {
            Some(p) => ("  PID "@ + signed_decimal(p as int), Tone::Cyan),
            None => (""@, Tone::Plain),
        },
    ]
}

/// The whole text of a row.
pub open spec fn row_text(app: AppInfo) -> Seq<char> {
    let t = row_texts(app);
    t[0].0 + t[1].0 + t[2].0 + t[3].0 + t[4].0 + t[5].0
}

pub fn source_label(app: &AppInfo) -> (r: &'static str)
    ensures
        r@ == spec_source_label(*app),
{
    match (app.pid.is_some(), app.bundle_id.is_some()) {
        (true, true) => "GUI",
        (true, false) => "CLI",
        (false, true) => "APP",
        (false, false) => "UNK",
    }
}

pub fn monitor_state_label(state: AppMonitorState) -> (r: &'static str)
    ensures
        r@ == spec_monitor_state_label(state),
{
    match state {
        AppMonitorState::Monitoring => "MONITORING",
        AppMonitorState::Paused => "PAUSED",
        AppMonitorState::Unmonitored => "IDLE",
    }
}

pub fn monitor_state_tone(state: AppMonitorState) -> (r: Tone)
    ensures
        r == spec_monitor_state_tone(state),
{
    match state {
        AppMonitorState::Monitoring => Tone::Green,
        AppMonitorState::Paused => Tone::Yellow,
        AppMonitorState::Unmonitored => Tone::DarkGray,
    }
}

fn segment(parts: &[&str], tone: Tone) -> (r: Segment)
    requires
        parts@.len() <= 3,
    ensures
        r.tone == tone,
        r.text@ == if parts@.len() == 0 {
            Seq::<char>::empty()
        } else if parts@.len() == 1 {
            parts@[0]@
        } else if parts@.len() == 2 {
            parts@[0]@ + parts@[1]@
        } else {
            parts@[0]@ + parts@[1]@ + parts@[2]@
        },
{
    let mut text = String::new();
    let ghost start = text@;
    let mut i: usize = 0;
    while i < parts.len()
        invariant
            parts@.len() <= 3,
            i <= parts@.len(),
            text@ == if i == 0 {
                Seq::<char>::empty()
            } else if i == 1 {
                parts@[0]@
            } else if i == 2 {
                parts@[0]@ + parts@[1]@
            } else {
                parts@[0]@ + parts@[1]@ + parts@[2]@
            },
        decreases parts@.len() - i,
    {
        push_str(&mut text, parts[i]);
        i = i + 1;
    }
    Segment { text, tone }
}

/// The pieces of an app's row.
pub fn row_segments(app: &AppInfo) -> (r: Vec<Segment>)
    ensures
        r.len() == 6,
        forall|i: int|
            0 <= i < 6 ==> (#[trigger] r@[i]).text@ == row_texts(*app)[i].0 && r@[i].tone
                == row_texts(*app)[i].1,
{
    let mut r: Vec<Segment> = Vec::new();
    if app.pid.is_some() {
        r.push(segment(&["\u{25cf} "], Tone::Green));
    } else {
        r.push(segment(&["\u{25cb} "], Tone::DarkGray));
    }
    r.push(segment(&[app.display_name.as_str()], Tone::White));
    r.push(segment(&[" [", source_label(app), "]"], Tone::Yellow));
    r.push(
        segment(
            &[" [", monitor_state_label(app.monitor_state), "]"],
            monitor_state_tone(app.monitor_state),
        ),
    );
    match &app.bundle_id {
        Some(b) => r.push(segment(&["  ", b.as_str()], Tone::DarkGray)),
        None => r.push(segment(&["  ", "--"], Tone::DarkGray)),
    }
    match app.pid {
        Some(p) => {
            let digits = signed_decimal_string(p);
            r.push(segment(&["  PID ", digits.as_str()], Tone::Cyan));
        },
        None => r.push(segment(&[""], Tone::Plain)),
    }
    r
}

/// The whole text of an app's row.
pub fn row_line(app: &AppInfo) -> (r: String)
    ensures
        r@ == row_text(*app),
{
    let segs = row_segments(app);
    let mut r = String::new();
    push_str(&mut r, segs[0].text.as_str());
    push_str(&mut r, segs[1].text.as_str());
    push_str(&mut r, segs[2].text.as_str());
    push_str(&mut r, segs[3].text.as_str());
    push_str(&mut r, segs[4].text.as_str());
    push_str(&mut r, segs[5].text.as_str());
    assert(segs@[0].text@ == row_texts(*app)[0].0);
    assert(segs@[1].text@ == row_texts(*app)[1].0);
    assert(segs@[2].text@ == row_texts(*app)[2].0);
    assert(segs@[3].text@ == row_texts(*app)[3].0);
    assert(segs@[4].text@ == row_texts(*app)[4].0);
    assert(segs@[5].text@ == row_texts(*app)[5].0);
    assert(r@ =~= row_text(*app));
    r
}


proof fn lemma_matching_indices_bounded(apps: Seq<AppInfo>, q: Seq<char>)
    requires
        apps.len() <= usize::MAX,
    ensures
        forall|k: int|
            0 <= k < matching_indices(apps, q).len() ==> #[trigger] matching_indices(apps, q)[k]
                < apps.len(),
    decreases apps.len(),
{
    if apps.len() > 0 {
        let init = apps.drop_last();
        lemma_matching_indices_bounded(init, q);
        let r = matching_indices(init, q);
        assert forall|k: int| 0 <= k < matching_indices(apps, q).len() implies #[trigger] matching_indices(apps, q)[k]
            < apps.len() by {
            if k < r.len() {
                assert(matching_indices(apps, q)[k] == r[k]);
            }
        }
    }
}

/// The filter ignores case: it keeps app `i` exactly when the lowercased
/// query `q` is empty, or occurs in the lowercased display name, in the
/// lowercased bundle identifier, or in the PID's decimal text. The kept
/// indices come in the list's order, each once, each naming an app.
pub proof fn law_filter_keeps_exactly_matching_apps(apps: Seq<AppInfo>, q: Seq<char>)
    requires
        apps.len() <= usize::MAX,
    ensures
        forall|i: int|
            0 <= i < apps.len() ==> (#[trigger] matching_indices(apps, q).contains(i as usize) <==> (q.len()
                == 0 || contains_text(lowercase(apps[i].display_name@), q) || contains_text(
                lowercase(
                    match apps[i].bundle_id {
                        Some(b) => b@,
                        None => ""@,
                    },
                ),
                q,
            ) || (apps[i].pid matches Some(p) && contains_text(signed_decimal(p as int), q)))),
        forall|a: int, b: int|
            0 <= a < b < matching_indices(apps, q).len() ==> #[trigger] matching_indices(apps, q)[a]
                < #[trigger] matching_indices(apps, q)[b],
        forall|k: int|
            0 <= k < matching_indices(apps, q).len() ==> #[trigger] matching_indices(apps, q)[k] < apps.len(),
    decreases apps.len(),
{
    lemma_matching_indices_bounded(apps, q);
    if apps.len() > 0 {
        let init = apps.drop_last();
        let n = apps.len() - 1;
        law_filter_keeps_exactly_matching_apps(init, q);
        let r = matching_indices(init, q);
        let m = matching_indices(apps, q);
        assert forall|i: int| 0 <= i < apps.len() implies (#[trigger] m.contains(i as usize) <==> matches_query(
            apps[i],
            q,
        )) by {
            if i < n {
                assert(apps[i] == init[i]);
                assert(init.len() <= usize::MAX);
                if m.contains(i as usize) {
                    let k = choose|k: int| 0 <= k < m.len() && m[k] == i as usize;
                    if k < r.len() {
                        assert(m[k] == r[k]);
                        assert(r.contains(i as usize));
                    }
                }
                if r.contains(i as usize) {
                    let k = choose|k: int| 0 <= k < r.len() && r[k] == i as usize;
                    assert(m[k] == r[k]);
                }
            } else {
                if m.contains(i as usize) {
                    let k = choose|k: int| 0 <= k < m.len() && m[k] == i as usize;
                    if k < r.len() {
                        assert(m[k] == r[k]);
                        assert(r[k] < init.len());
                    }
                }
                if matches_query(apps[i], q) {
                    assert(m[r.len() as int] == i as usize);
                }
            }
        }
        assert forall|a: int, b: int| 0 <= a < b < m.len() implies #[trigger] m[a] < #[trigger] m[b] by {
            if b < r.len() {
                assert(m[a] == r[a] && m[b] == r[b]);
            } else {
                assert(m[a] == r[a]);
                assert(r[a] < init.len());
            }
        }
    }
}

/// The app selection screen's state.
pub struct AppSelector {
    apps: Vec<AppInfo>,
    filtered: Vec<usize>,
    filter_text: String,
    selected: Option<usize>,
}

impl AppSelector {
    pub closed spec fn spec_apps(&self) -> Seq<AppInfo> {
        self.apps@
    }

    /// The indices of the apps the list shows, in order.
    pub closed spec fn spec_filtered(&self) -> Seq<usize> {
        self.filtered@
    }

    pub closed spec fn spec_filter_text(&self) -> Seq<char> {
        self.filter_text@
    }

    /// The highlighted position in the shown list.
    pub closed spec fn spec_selected(&self) -> Option<usize> {
        self.selected
    }

    /// Every shown index is an app's, and the highlight is on a shown entry.
    pub closed spec fn wf(&self) -> bool {
        &&& forall|k: int| 0 <= k < self.filtered@.len() ==> #[trigger] self.filtered@[k] < self.apps@.len()
        &&& self.selected matches Some(s) ==> s < self.filtered@.len()
    }

    /// A selection screen over `apps`: no filter, everything shown, the
    /// first entry highlighted when there is one.
    pub fn new(apps: Vec<AppInfo>) -> (r: Self)
        ensures
            r.spec_apps() == apps@,
            r.spec_filtered() == Seq::new(apps@.len(), |i: int| i as usize),
            r.spec_filter_text() == Seq::<char>::empty(),
            r.spec_selected() == if apps@.len() > 0 { Some(0usize) } else { None },
            r.wf(),
    {
        let mut filtered: Vec<usize> = Vec::new();
        for i in 0..apps.len()
            invariant
                filtered@ == Seq::new(i as nat, |k: int| k as usize),
        {
            filtered.push(i);
            assert(filtered@ =~= Seq::new((i + 1) as nat, |k: int| k as usize));
        }
        let selected = if filtered.len() > 0 { Some(0) } else { None };
        AppSelector { apps, filtered, filter_text: String::new(), selected }
    }

    /// The apps the list can show.
    pub fn apps(&self) -> (r: &[AppInfo])
        ensures
            r@ == self.spec_apps(),
    {
        self.apps.as_slice()
    }

    /// The indices of the apps shown, in order.
    pub fn filtered(&self) -> (r: &[usize])
        ensures
            r@ == self.spec_filtered(),
    {
        self.filtered.as_slice()
    }

    /// The filter typed so far.
    pub fn filter_text(&self) -> (r: &str)
        ensures
            r@ == self.spec_filter_text(),
    {
        self.filter_text.as_str()
    }

    /// The highlighted position in the shown list.
    pub fn selected(&self) -> (r: Option<usize>)
        ensures
            r == self.spec_selected(),
    {
        self.selected
    }

    /// Replaces the filter text, without applying it.
    pub fn set_filter_text(&mut self, text: String)
        ensures
            final(self).spec_filter_text() == text@,
            final(self).spec_apps() == old(self).spec_apps(),
            final(self).spec_filtered() == old(self).spec_filtered(),
            final(self).spec_selected() == old(self).spec_selected(),
            old(self).wf() ==> final(self).wf(),
    {
        self.filter_text = text;
    }

    /// Shows the apps that the lowercased filter text keeps, and highlights
    /// the first of them (none when none is kept).
    pub fn apply_filter(&mut self)
        ensures
            final(self).spec_apps() == old(self).spec_apps(),
            final(self).spec_filter_text() == old(self).spec_filter_text(),
            final(self).spec_filtered() == matching_indices(
                old(self).spec_apps(),
                lowercase(old(self).spec_filter_text()),
            ),
            old(self).spec_filter_text().len() == 0 ==> final(self).spec_filtered() == all_indices(
                old(self).spec_apps().len(),
            ),
            final(self).spec_selected() == if final(self).spec_filtered().len() > 0 {
                Some(0usize)
            } else {
                None
            },
            final(self).wf(),
    {
        let query = to_lowercase(self.filter_text.as_str());
        let q = chars_of(query.as_str());
        let mut filtered: Vec<usize> = Vec::new();
        for i in 0..self.apps.len()
            invariant
                q@ == lowercase(self.filter_text@),
                filtered@ == matching_indices(self.apps@.subrange(0, i as int), q@),
        {
            let ghost pre = self.apps@.subrange(0, i + 1);
            assert(pre.drop_last() =~= self.apps@.subrange(0, i as int));
            let app = &self.apps[i];
            let keep = if q.len() == 0 {
                true
            } else if contains_chars(&chars_of(to_lowercase(app.display_name.as_str()).as_str()), &q) {
                true
            } else {
                let bundle_lower = match &app.bundle_id {
                    Some(b) => to_lowercase(b.as_str()),
                    None => to_lowercase(""),
                };
                if contains_chars(&chars_of(bundle_lower.as_str()), &q) {
                    true
                } else {
                    match app.pid {
                        Some(pid) => contains_chars(
                            &chars_of(signed_decimal_string(pid).as_str()),
                            &q,
                        ),
                        None => false,
                    }
                }
            };
            if keep {
                filtered.push(i);
            }
        }
        assert(self.apps@.subrange(0, self.apps@.len() as int) =~= self.apps@);
        proof {
            lemma_matching_indices_bounded(self.apps@, q@);
            if self.filter_text@.len() == 0 {
                assert(q@ =~= Seq::<char>::empty());
                lemma_empty_query_keeps_all(self.apps@);
            }
        }
        self.selected = if filtered.len() > 0 { Some(0) } else { None };
        self.filtered = filtered;
    }

    /// Handles a key: quit keys end the screen; Enter ends it with the
    /// highlighted app; Up and Down move the highlight within the shown
    /// list; typing and Backspace edit the filter and apply it; Esc clears
    /// a non-empty filter and applies it.
    pub fn handle_key(&mut self, key: KeyInput) -> (r: Option<SelectorAction>)
        ensures
            final(self).spec_apps() == old(self).spec_apps(),
            old(self).wf() ==> final(self).wf(),
            spec_is_quit(key) ==> (r matches Some(SelectorAction::Quit)) && *final(self) == *old(self),
            !spec_is_quit(key) ==> match key.code {
                Key::Enter => *final(self) == *old(self) && match old(self).spec_selected() {
                    Some(s) => if s < old(self).spec_filtered().len() && old(self).spec_filtered()[s as int]
                        < old(self).spec_apps().len() {
                        (r matches Some(SelectorAction::Selected(a)) && a == old(
                            self,
                        ).spec_apps()[old(self).spec_filtered()[s as int] as int])
                    } else {
                        r is None
                    },
                    None => r is None,
                },
                Key::Up => r is None && final(self).spec_filtered() == old(self).spec_filtered()
                    && final(self).spec_filter_text() == old(self).spec_filter_text()
                    && final(self).spec_selected() == match old(self).spec_selected() {
                    Some(s) => if s > 0 { Some((s - 1) as usize) } else { Some(s) },
                    None => None,
                },
                Key::Down => r is None && final(self).spec_filtered() == old(self).spec_filtered()
                    && final(self).spec_filter_text() == old(self).spec_filter_text()
                    && final(self).spec_selected() == match old(self).spec_selected() {
                    Some(s) => if s + 1 < old(self).spec_filtered().len() {
                        Some((s + 1) as usize)
                    } else {
                        Some(s)
                    },
                    None => None,
                },
                Key::Backspace => r is None && final(self).spec_filter_text() == (if old(
                    self,
                ).spec_filter_text().len() > 0 {
                    old(self).spec_filter_text().drop_last()
                } else {
                    old(self).spec_filter_text()
                }) && final(self).spec_filtered() == matching_indices(
                    old(self).spec_apps(),
                    lowercase(final(self).spec_filter_text()),
                ) && final(self).spec_selected() == (if final(self).spec_filtered().len() > 0 {
                    Some(0usize)
                } else {
                    None
                }),
                Key::Char(c) => r is None && final(self).spec_filter_text() == old(
                    self,
                ).spec_filter_text().push(c) && final(self).spec_filtered() == matching_indices(
                    old(self).spec_apps(),
                    lowercase(final(self).spec_filter_text()),
                ) && final(self).spec_selected() == (if final(self).spec_filtered().len() > 0 {
                    Some(0usize)
                } else {
                    None
                }),
                Key::Esc => r is None && if old(self).spec_filter_text().len() > 0 {
                    final(self).spec_filter_text() == Seq::<char>::empty()
                        && final(self).spec_filtered() == all_indices(old(self).spec_apps().len())
                        && final(self).spec_selected() == (if old(self).spec_apps().len() > 0 {
                        Some(0usize)
                    } else {
                        None
                    })
                } else {
                    *final(self) == *old(self)
                },
                _ => r is None && *final(self) == *old(self),
            },
    {
        if is_quit(&key) {
            return Some(SelectorAction::Quit);
        }
        match key.code {
            Key::Enter => {
                match self.selected {
                    Some(s) => {
                        if s < self.filtered.len() && self.filtered[s] < self.apps.len() {
                            let idx = self.filtered[s];
                            return Some(SelectorAction::Selected(copy_app_info(&self.apps[idx])));
                        }
                    },
                    None => {},
                }
                None
            },
            Key::Up => {
                match self.selected {
                    Some(s) => {
                        if s > 0 {
                            self.selected = Some(s - 1);
                        }
                    },
                    None => {},
                }
                None
            },
            Key::Down => {
                match self.selected {
                    Some(s) => {
                        if s < self.filtered.len() && s + 1 < self.filtered.len() {
                            self.selected = Some(s + 1);
                        }
                    },
                    None => {},
                }
                None
            },
            Key::Backspace => {
                pop_char(&mut self.filter_text);
                self.apply_filter();
                None
            },
            Key::Char(c) => {
                push_char(&mut self.filter_text, c);
                self.apply_filter();
                None
            },
            Key::Esc => {
                if self.filter_text.as_str().unicode_len() > 0 {
                    self.filter_text = String::new();
                    self.apply_filter();
                }
                None
            },
            _ => None,
        }
    }

    /// What the filter box shows: the filter typed so far, in yellow, or a
    /// hint in grey while it is empty.
    pub fn filter_display(&self) -> (r: Segment)
        ensures
            self.spec_filter_text().len() == 0 ==> r.text@ == "Type to filter..."@ && r.tone == Tone::DarkGray,
            self.spec_filter_text().len() > 0 ==> r.text@ == self.spec_filter_text() && r.tone == Tone::Yellow,
    {
        if self.filter_text.as_str().unicode_len() == 0 {
            segment(&["Type to filter..."], Tone::DarkGray)
        } else {
            segment(&[self.filter_text.as_str()], Tone::Yellow)
        }
    }

    /// The rows the list shows, as pieces (an index that names no app,
    /// which a well-formed screen does not hold, gives an empty row).
    pub fn visible_rows(&self) -> (r: Vec<Vec<Segment>>)
        ensures
            r.len() == self.spec_filtered().len(),
            forall|i: int|
                0 <= i < r.len() && self.spec_filtered()[i] >= self.spec_apps().len() ==> (#[trigger] r@[i]).len()
                    == 0,
            forall|i: int|
                0 <= i < r.len() && self.spec_filtered()[i] < self.spec_apps().len() ==> (#[trigger] r@[i]).len()
                    == 6,
            forall|i: int, k: int|
                0 <= i < r.len() && self.spec_filtered()[i] < self.spec_apps().len() && 0 <= k < 6 ==> (
                #[trigger] r@[i]@[k]).text@ == row_texts(self.spec_apps()[self.spec_filtered()[i] as int])[k].0
                    && r@[i]@[k].tone == row_texts(self.spec_apps()[self.spec_filtered()[i] as int])[k].1,
    {
        let mut r: Vec<Vec<Segment>> = Vec::new();
        for i in 0..self.filtered.len()
            invariant
                r.len() == i,
                forall|j: int|
                    0 <= j < i && self.filtered@[j] >= self.apps@.len() ==> (#[trigger] r@[j]).len() == 0,
                forall|j: int| 0 <= j < i && self.filtered@[j] < self.apps@.len() ==> (#[trigger] r@[j]).len() == 6,
                forall|j: int, k: int|
                    0 <= j < i && self.filtered@[j] < self.apps@.len() && 0 <= k < 6 ==> (#[trigger] r@[j]@[k]).text@
                        == row_texts(self.apps@[self.filtered@[j] as int])[k].0 && r@[j]@[k].tone == row_texts(
                        self.apps@[self.filtered@[j] as int],
                    )[k].1,
        {
            let idx = self.filtered[i];
            if idx < self.apps.len() {
                r.push(row_segments(&self.apps[idx]));
            } else {
                r.push(Vec::new());
            }
        }
        r
    }
}

/// The filter keeps the apps' order, and an empty filter keeps every app.
pub proof fn law_filter_order_and_empty(apps: Seq<AppInfo>, q: Seq<char>)
    requires
        apps.len() <= usize::MAX,
    ensures
        forall|a: int, b: int|
            0 <= a < b < matching_indices(apps, q).len() ==> #[trigger] matching_indices(apps, q)[a]
                < #[trigger] matching_indices(apps, q)[b],
        q.len() == 0 ==> matching_indices(apps, q) == Seq::new(apps.len(), |i: int| i as usize),
    decreases apps.len(),
{
    if apps.len() > 0 {
        let init = apps.drop_last();
        law_filter_order_and_empty(init, q);
        lemma_matching_indices_bounded(init, q);
        let r = matching_indices(init, q);
        let m = matching_indices(apps, q);
        if matches_query(apps.last(), q) {
            assert(m == r.push((apps.len() - 1) as usize));
        } else {
            assert(m == r);
        }
        assert forall|a: int, b: int| 0 <= a < b < m.len() implies #[trigger] m[a] < #[trigger] m[b] by {
            if b < r.len() {
                assert(m[a] == r[a] && m[b] == r[b]);
            } else {
                assert(m[a] == r[a]);
                assert(r[a] < init.len());
            }
        }
        if q.len() == 0 {
            assert(m =~= Seq::new(apps.len(), |i: int| i as usize));
        }
    } else {
        if q.len() == 0 {
            assert(matching_indices(apps, q) =~= Seq::new(apps.len(), |i: int| i as usize));
        }
    }
}
} // verus!
