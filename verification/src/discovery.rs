//! App discovery: installed app bundles, the apps and command-line
//! processes that are running, and the list the selection screen shows.

use vstd::prelude::*;

use crate::process_tree::ProcessEntry;
use crate::sort::{is_stable_sort, key_views, permuted, stable_sort_by_keys, stably_sorts};
use crate::text::{chars_of, is_prefix_of, starts_with, text_le};
use crate::types::{copy_app_info, copy_opt_string, opt_text, same_opt_string, AppInfo, AppMonitorState};

verus! {

/// A directory entry that may be an app bundle: its path and, when it could
/// be read, the bytes of its `Contents/Info.plist`.
#[derive(Clone, Debug)]
pub struct BundleCandidate {
    pub path: String,
    pub info_plist: Option<Vec<u8>>,
}

/// The lowercase form of a text, as `str::to_lowercase` gives it.
pub uninterp spec fn lowercase(s: Seq<char>) -> Seq<char>;

/// Lowercases a text with `str::to_lowercase`; the contract names the
/// result `lowercase` of the input and claims only that the empty text
/// lowercases to the empty text.
#[verifier::external_body]
pub(crate) fn to_lowercase(s: &str) -> (r: String)
    ensures
        r@ == lowercase(s@),
        s@.len() == 0 ==> r@.len() == 0,
{
    s.to_lowercase()
}

/// The top-level dictionary of a property list, as `plist::Value::from_reader`
/// reads it from `bytes`: each key with its value when that value is a
/// string, in the dictionary's order; `None` when the bytes do not parse
/// or the top level is not a dictionary.
pub uninterp spec fn plist_dictionary(bytes: Seq<u8>) -> Option<Seq<(Seq<char>, Option<Seq<char>>)>>;

/// The text form of dictionary entries.
pub open spec fn entry_texts(v: Seq<(String, Option<String>)>) -> Seq<(Seq<char>, Option<Seq<char>>)> {
    v.map_values(|e: (String, Option<String>)| (e.0@, opt_text(e.1)))
}

/// Parses a property list with `plist::Value::from_reader` and hands out
/// its top-level dictionary, each value reduced to its string, if it is
/// one. The contract names the result (`plist_dictionary`) and claims no
/// more about it.
#[verifier::external_body]
fn read_plist_dictionary(bytes: &[u8]) -> (r: Option<Vec<(String, Option<String>)>>)
    ensures
        match r {
            Some(v) => plist_dictionary(bytes@) == Some(entry_texts(v@)),
            None => plist_dictionary(bytes@) is None,
        },
{
    match plist::Value::from_reader(std::io::Cursor::new(bytes)) {
        Ok(plist::Value::Dictionary(dict)) => Some(
            dict.into_iter().map(|(k, v)| (k, match v {
                plist::Value::String(s) => Some(s),
                _ => None,
            })).collect(),
        ),
        _ => None,
    }
}

/// The index of the first entry with `key`.
pub open spec fn entry_index(entries: Seq<(Seq<char>, Option<Seq<char>>)>, key: Seq<char>) -> Option<int>
    decreases entries.len(),
{
    if entries.len() == 0 {
        None
    } else {
        match entry_index(entries.drop_last(), key) {
            Some(i) => Some(i),
            None => if entries.last().0 == key { Some(entries.len() - 1) } else { None },
        }
    }
}

/// The string under `key` in the top-level dictionary of a property list:
/// `None` when the list does not parse to a dictionary, the key is missing
/// or its value is not a string.
pub open spec fn plist_string_entry(bytes: Seq<u8>, key: Seq<char>) -> Option<Seq<char>> {
    match plist_dictionary(bytes) {
        Some(entries) => match entry_index(entries, key) {
            Some(i) => entries[i].1,
            None => None,
        },
        None => None,
    }
}

/// Whether the top-level dictionary of a property list has `key`, whatever
/// its value.
pub open spec fn plist_has_entry(bytes: Seq<u8>, key: Seq<char>) -> bool {
    match plist_dictionary(bytes) {
        Some(entries) => entry_index(entries, key) is Some,
        None => false,
    }
}

proof fn lemma_entry_index_extend(entries: Seq<(Seq<char>, Option<Seq<char>>)>, key: Seq<char>, n: int)
    requires
        0 <= n <= entries.len(),
        entry_index(entries.subrange(0, n), key) is Some,
    ensures
        entry_index(entries, key) == entry_index(entries.subrange(0, n), key),
    decreases entries.len() - n,
{
    if n < entries.len() {
        assert(entries.subrange(0, n + 1).drop_last() =~= entries.subrange(0, n));
        lemma_entry_index_extend(entries, key, n + 1);
    } else {
        assert(entries.subrange(0, n) =~= entries);
    }
}

/// The index of the first entry with `key`.
fn find_entry(entries: &Vec<(String, Option<String>)>, key: &str) -> (r: Option<usize>)
    ensures
        match r {
            Some(i) => i < entries.len() && entry_index(entry_texts(entries@), key@) == Some(i as int),
            None => entry_index(entry_texts(entries@), key@) is None,
        },
{
    let ghost texts = entry_texts(entries@);
    let wanted = key.to_owned();
    let mut i: usize = 0;
    while i < entries.len()
        invariant
            i <= entries.len(),
            texts == entry_texts(entries@),
            wanted@ == key@,
            entry_index(texts.subrange(0, i as int), key@) is None,
        decreases entries.len() - i,
    {
        assert(texts.subrange(0, i + 1).drop_last() =~= texts.subrange(0, i as int));
        assert(texts[i as int].0 == entries@[i as int].0@);
        if entries[i].0.eq(&wanted) {
            proof {
                lemma_entry_index_extend(texts, key@, i as int + 1);
            }
            return Some(i);
        }
        i = i + 1;
    }
    assert(texts.subrange(0, texts.len() as int) =~= texts);
    None
}

/// The string under `key` among dictionary entries.
fn entry_string(entries: &Vec<(String, Option<String>)>, key: &str) -> (r: Option<String>)
    ensures
        opt_text(r) == match entry_index(entry_texts(entries@), key@) {
            Some(i) => entry_texts(entries@)[i].1,
            None => None,
        },
{
    match find_entry(entries, key) {
        Some(i) => copy_opt_string(&entries[i].1),
        None => None,
    }
}

/// The index just past the last '/' of a path (zero when there is none).
pub open spec fn name_start(path: Seq<char>) -> int
    decreases path.len(),
{
    if path.len() == 0 {
        0
    } else if path.last() == '/' {
        path.len() as int
    } else {
        name_start(path.drop_last())
    }
}

/// The last component of a path.
pub open spec fn file_name(path: Seq<char>) -> Seq<char> {
    path.subrange(name_start(path), path.len() as int)
}

/// The index of the last '.' of a text, if there is one.
pub open spec fn last_dot(s: Seq<char>) -> Option<int>
    decreases s.len(),
{
    if s.len() == 0 {
        None
    } else if s.last() == '.' {
        Some(s.len() - 1)
    } else {
        last_dot(s.drop_last())
    }
}

/// The extension of a path, as `Path::extension` gives it: what follows
/// the last '.' of the file name, when that '.' is not its first character.
pub open spec fn extension(path: Seq<char>) -> Option<Seq<char>> {
    let name = file_name(path);
    match last_dot(name) {
        Some(i) => if i > 0 {
            Some(name.subrange(i + 1, name.len() as int))
        } else {
            None
        },
        None => None,
    }
}

/// The file stem of a path, as `Path::file_stem` gives it: the file name
/// without its extension.
pub open spec fn file_stem(path: Seq<char>) -> Seq<char> {
    let name = file_name(path);
    match last_dot(name) {
        Some(i) => if i > 0 {
            name.subrange(0, i)
        } else {
            name
        },
        None => name,
    }
}

proof fn lemma_last_dot(s: Seq<char>)
    ensures
        match last_dot(s) {
            Some(i) => 0 <= i < s.len() && s[i] == '.' && forall|j: int|
                i < j < s.len() ==> s[j] != '.',
            None => forall|j: int| 0 <= j < s.len() ==> s[j] != '.',
        },
    decreases s.len(),
{
    if s.len() > 0 {
        let init = s.drop_last();
        lemma_last_dot(init);
        if s.last() != '.' {
            match last_dot(init) {
                Some(i) => {
                    assert(s[i] == init[i]);
                    assert forall|j: int| i < j < s.len() implies s[j] != '.' by {
                        if j < init.len() {
                            assert(init[j] == s[j]);
                        }
                    }
                },
                None => {
                    assert forall|j: int| 0 <= j < s.len() implies s[j] != '.' by {
                        if j < init.len() {
                            assert(init[j] == s[j]);
                        }
                    }
                },
            }
        }
    }
}

proof fn lemma_name_start(path: Seq<char>)
    ensures
        0 <= name_start(path) <= path.len(),
        name_start(path) > 0 ==> path[name_start(path) - 1] == '/',
        forall|j: int| name_start(path) <= j < path.len() ==> path[j] != '/',
    decreases path.len(),
{
    if path.len() > 0 {
        let init = path.drop_last();
        lemma_name_start(init);
        if path.last() != '/' {
            let k = name_start(init);
            if k > 0 {
                assert(path[k - 1] == init[k - 1]);
            }
            assert forall|j: int| k <= j < path.len() implies path[j] != '/' by {
                if j < init.len() {
                    assert(init[j] == path[j]);
                }
            }
        }
    }
}

/// The index just past the last `c` (zero when there is none), counted
/// from the start.
fn after_last(v: &Vec<char>, c: char) -> (r: usize)
    ensures
        r <= v.len(),
        r > 0 ==> v@[r - 1] == c,
        forall|j: int| r <= j < v.len() ==> v@[j] != c,
{
    let mut i = v.len();
    while i > 0 && v[i - 1] != c
        invariant
            i <= v.len(),
            forall|j: int| i <= j < v.len() ==> v@[j] != c,
        decreases i,
    {
        i = i - 1;
    }
    i
}

/// The file name and extension of a path, as characters.
fn split_path(path: &str) -> (r: (Vec<char>, Option<Vec<char>>, Vec<char>))
    ensures
        r.0@ == file_name(path@),
        match (r.1, extension(path@)) {
            (Some(e), Some(x)) => e@ == x,
            (None, None) => true,
            _ => false,
        },
        r.2@ == file_stem(path@),
{
    let chars = chars_of(path);
    let start = after_last(&chars, '/');
    proof {
        lemma_name_start(path@);
        if name_start(path@) < start {
            assert(path@[start - 1] == '/');
        }
        if start < name_start(path@) {
            assert(path@[name_start(path@) - 1] != '/');
        }
    }
    let mut name: Vec<char> = Vec::new();
    for i in start..chars.len()
        invariant
            start <= chars.len(),
            name@ == chars@.subrange(start as int, i as int),
    {
        name.push(chars[i]);
        assert(name@ =~= chars@.subrange(start as int, i + 1));
    }
    assert(name@ =~= file_name(path@));
    let dot = after_last(&name, '.');
    proof {
        lemma_last_dot(name@);
        match last_dot(name@) {
            Some(i) => {
                if i + 1 < dot {
                    assert(name@[dot - 1] == '.');
                }
                if dot < i + 1 {
                    assert(name@[i] == '.');
                }
            },
            None => {
                if dot > 0 {
                    assert(name@[dot - 1] == '.');
                }
            },
        }
    }
    if dot > 1 {
        let mut ext: Vec<char> = Vec::new();
        for i in dot..name.len()
            invariant
                dot <= name.len(),
                ext@ == name@.subrange(dot as int, i as int),
        {
            ext.push(name[i]);
            assert(ext@ =~= name@.subrange(dot as int, i + 1));
        }
        let mut stem: Vec<char> = Vec::new();
        for i in 0..dot - 1
            invariant
                1 < dot <= name.len(),
                stem@ == name@.subrange(0, i as int),
        {
            stem.push(name[i]);
            assert(stem@ =~= name@.subrange(0, i + 1));
        }
        assert(ext@ =~= name@.subrange(dot as int, name.len() as int));
        (name, Some(ext), stem)
    } else {
        let stem = name.clone();
        (name, None, stem)
    }
}

/// Whether a path names an app bundle: its extension is `app`.
pub open spec fn is_app_bundle(path: Seq<char>) -> bool {
    extension(path) == Some(seq!['a', 'p', 'p'])
}

/// Whether a path names an app bundle: its extension is `app`.
pub fn is_app_bundle_path(path: &str) -> (r: bool)
    ensures
        r == is_app_bundle(path@),
{
    let (_name, ext, _stem) = split_path(path);
    match ext {
        Some(e) => {
            let r = e.len() == 3 && e[0] == 'a' && e[1] == 'p' && e[2] == 'p';
            assert(r ==> e@ =~= seq!['a', 'p', 'p']);
            r
        },
        None => false,
    }
}

/// The app that an app bundle describes, read from its `Info.plist`: the
/// executable (`CFBundleExecutable`) is required; the display name is
/// `CFBundleDisplayName` when that key is there (and a string), else
/// `CFBundleName`, else the bundle's file stem; the bundle identifier is
/// `CFBundleIdentifier`.
pub open spec fn spec_parse_app_bundle(path: Seq<char>, plist: Seq<u8>) -> Option<(
    Seq<char>,
    Option<Seq<char>>,
    Seq<char>,
)> {
    match plist_string_entry(plist, "CFBundleExecutable"@) {
        Some(exec) => {
            let named = if plist_has_entry(plist, "CFBundleDisplayName"@) {
                plist_string_entry(plist, "CFBundleDisplayName"@)
            } else {
                plist_string_entry(plist, "CFBundleName"@)
            };
            let display = match named {
                Some(n) => n,
                None => file_stem(path),
            };
            Some((display, plist_string_entry(plist, "CFBundleIdentifier"@), exec))
        },
        None => None,
    }
}

/// Whether `info` is the installed (not running) app that
/// `spec_parse_app_bundle` reads from `path` and `plist`.
pub open spec fn is_parsed_app(info: AppInfo, path: Seq<char>, plist: Seq<u8>) -> bool {
    match spec_parse_app_bundle(path, plist) {
        Some((display, bundle, exec)) => {
            &&& info.display_name@ == display
            &&& opt_text(info.bundle_id) == bundle
            &&& info.executable_name@ == exec
            &&& opt_text(info.app_path) == Some(path)
            &&& info.pid is None
            &&& info.monitor_state == AppMonitorState::Unmonitored
        },
        None => false,
    }
}

/// The installed app an app bundle describes, if its `Info.plist` names an
/// executable.
pub fn parse_app_bundle(app_path: &str, info_plist: &[u8]) -> (r: Option<AppInfo>)
    ensures
        r is None <==> spec_parse_app_bundle(app_path@, info_plist@) is None,
        r matches Some(info) ==> is_parsed_app(info, app_path@, info_plist@),
{
    let entries = match read_plist_dictionary(info_plist) {
        Some(v) => v,
        None => {
            return None;
        },
    };
    let executable_name = match entry_string(&entries, "CFBundleExecutable") {
        Some(e) => e,
        None => {
            return None;
        },
    };
    let bundle_id = entry_string(&entries, "CFBundleIdentifier");
    let named = if find_entry(&entries, "CFBundleDisplayName").is_some() {
        entry_string(&entries, "CFBundleDisplayName")
    } else {
        entry_string(&entries, "CFBundleName")
    };
    let display_name = match named {
        Some(n) => n,
        None => {
            let (_name, _ext, stem) = split_path(app_path);
            crate::text::string_from_chars(&stem)
        },
    };
    Some(
        AppInfo {
            display_name,
            bundle_id,
            executable_name,
            app_path: Some(app_path.to_owned()),
            pid: None,
            monitor_state: AppMonitorState::Unmonitored,
        },
    )
}

/// The lowercase display names of apps: the keys they are listed by.
pub open spec fn name_keys(apps: Seq<AppInfo>) -> Seq<Seq<char>> {
    apps.map_values(|a: AppInfo| lowercase(a.display_name@))
}

/// The lowercase display names of apps, as characters.
fn name_key_vecs(apps: &Vec<AppInfo>) -> (keys: Vec<Vec<char>>)
    ensures
        keys.len() == apps.len(),
        key_views(keys@) == name_keys(apps@),
{
    let mut keys: Vec<Vec<char>> = Vec::new();
    for i in 0..apps.len()
        invariant
            keys.len() == i,
            forall|k: int| 0 <= k < i ==> #[trigger] keys@[k]@ == lowercase(apps@[k].display_name@),
    {
        let lower = to_lowercase(apps[i].display_name.as_str());
        keys.push(chars_of(lower.as_str()));
    }
    assert(key_views(keys@) =~= name_keys(apps@));
    keys
}

/// `apps` holds, in order, the installed apps that the app bundles among the
/// candidates describe (candidates whose plist could be read).
pub open spec fn parsed_apps(candidates: Seq<BundleCandidate>, apps: Seq<AppInfo>) -> bool
    decreases candidates.len(),
{
    if candidates.len() == 0 {
        apps.len() == 0
    } else {
        let c = candidates.last();
        let parsed = match c.info_plist {
            Some(bytes) => is_app_bundle(c.path@) && spec_parse_app_bundle(c.path@, bytes@) is Some,
            None => false,
        };
        if parsed {
            apps.len() > 0 && parsed_apps(candidates.drop_last(), apps.drop_last()) && is_parsed_app(
                apps.last(),
                c.path@,
                c.info_plist->Some_0@,
            )
        } else {
            parsed_apps(candidates.drop_last(), apps)
        }
    }
}

/// The installed apps among directory entries, listed by display name
/// (compared in lowercase; apps with equal names keep their order).
pub fn discover_installed_apps(candidates: &Vec<BundleCandidate>) -> (r: Vec<AppInfo>)
    ensures
        exists|apps: Seq<AppInfo>|
            parsed_apps(candidates@, apps) && is_stable_sort(apps, name_keys(apps), r@),
{
    let mut apps: Vec<AppInfo> = Vec::new();
    for i in 0..candidates.len()
        invariant
            parsed_apps(candidates@.subrange(0, i as int), apps@),
    {
        let ghost pre = candidates@.subrange(0, i + 1);
        assert(pre.drop_last() =~= candidates@.subrange(0, i as int));
        let c = &candidates[i];
        match &c.info_plist {
            Some(bytes) => {
                if is_app_bundle_path(c.path.as_str()) {
                    match parse_app_bundle(c.path.as_str(), bytes.as_slice()) {
                        Some(info) => {
                            let ghost before = apps@;
                            apps.push(info);
                            assert(apps@.drop_last() =~= before);
                        },
                        None => {},
                    }
                }
            },
            None => {},
        }
    }
    assert(candidates@.subrange(0, candidates@.len() as int) =~= candidates@);
    let keys = name_key_vecs(&apps);
    let sorted = stable_sort_by_keys(apps, &keys);
    sorted
}

/// The index of the first app with an app path that `path` starts with.
pub open spec fn first_app_containing(apps: Seq<AppInfo>, path: Seq<char>) -> Option<int>
    decreases apps.len(),
{
    if apps.len() == 0 {
        None
    } else {
        match first_app_containing(apps.drop_last(), path) {
            Some(i) => Some(i),
            None => match apps.last().app_path {
                Some(p) => if is_prefix_of(p@, path) {
                    Some(apps.len() - 1)
                } else {
                    None
                },
                None => None,
            },
        }
    }
}

/// An installed app as running under a PID.
pub open spec fn running_as(app: AppInfo, pid: i32) -> AppInfo {
    AppInfo { pid: Some(pid), ..app }
}

/// The running GUI apps, in process order: each process whose executable
/// lies in an installed app's bundle gives that app with its PID, unless
/// the same app (by bundle identifier) with that PID is listed already.
pub open spec fn running_gui_apps(installed: Seq<AppInfo>, procs: Seq<ProcessEntry>) -> Seq<AppInfo>
    decreases procs.len(),
{
    if procs.len() == 0 {
        Seq::empty()
    } else {
        let r = running_gui_apps(installed, procs.drop_last());
        let e = procs.last();
        match e.path {
            Some(p) => match first_app_containing(installed, p@) {
                Some(i) => {
                    let a = running_as(installed[i], e.pid);
                    if exists|k: int|
                        0 <= k < r.len() && opt_text(r[k].bundle_id) == opt_text(a.bundle_id)
                            && r[k].pid == Some(e.pid) {
                        r
                    } else {
                        r.push(a)
                    }
                },
                None => r,
            },
            None => r,
        }
    }
}

/// The command-line processes, in process order: each process whose name
/// and executable path can both be read and whose executable lies in no
/// installed app's bundle, once per PID, named by its process name, without
/// bundle or app path. A process whose name or path cannot be read is
/// skipped.
pub open spec fn running_cli_processes(installed: Seq<AppInfo>, procs: Seq<ProcessEntry>) -> Seq<AppInfo>
    decreases procs.len(),
{
    if procs.len() == 0 {
        Seq::empty()
    } else {
        let r = running_cli_processes(installed, procs.drop_last());
        let e = procs.last();
        match (e.name, e.path) {
            (Some(n), Some(p)) => if first_app_containing(installed, p@) is Some || exists|k: int|
                0 <= k < r.len() && r[k].pid == Some(e.pid) {
                r
            } else {
                r.push(
                    AppInfo {
                        display_name: n,
                        bundle_id: None,
                        executable_name: n,
                        app_path: None,
                        pid: Some(e.pid),
                        monitor_state: AppMonitorState::Unmonitored,
                    },
                )
            },
            _ => r,
        }
    }
}

/// The apps without each one whose bundle identifier equals that of the
/// app kept just before it.
pub open spec fn dedup_by_bundle(apps: Seq<AppInfo>) -> Seq<AppInfo>
    decreases apps.len(),
{
    if apps.len() == 0 {
        apps
    } else {
        let r = dedup_by_bundle(apps.drop_last());
        if r.len() > 0 && opt_text(r.last().bundle_id) == opt_text(apps.last().bundle_id) {
            r
        } else {
            r.push(apps.last())
        }
    }
}

/// Whether the installed app `a` has an app path that `path` starts with.
fn app_contains(a: &AppInfo, path: &Vec<char>) -> (r: bool)
    ensures
        r == match a.app_path {
            Some(p) => is_prefix_of(p@, path@),
            None => false,
        },
{
    match &a.app_path {
        Some(p) => starts_with(path, &chars_of(p.as_str())),
        None => false,
    }
}

/// The index of the first installed app whose bundle holds `path`.
fn find_app_containing(installed: &Vec<AppInfo>, path: &Vec<char>) -> (r: Option<usize>)
    ensures
        match r {
            Some(i) => first_app_containing(installed@, path@) == Some(i as int) && i
                < installed.len(),
            None => first_app_containing(installed@, path@) is None,
        },
{
    let mut i: usize = 0;
    while i < installed.len()
        invariant
            i <= installed.len(),
            first_app_containing(installed@.subrange(0, i as int), path@) is None,
        decreases installed.len() - i,
    {
        assert(installed@.subrange(0, i + 1).drop_last() =~= installed@.subrange(0, i as int));
        if app_contains(&installed[i], path) {
            proof {
                lemma_first_app_extend(installed@, path@, i as int + 1);
            }
            return Some(i);
        }
        i = i + 1;
    }
    assert(installed@.subrange(0, installed@.len() as int) =~= installed@);
    None
}

/// A first match in a prefix of the apps is the first match in all of them.
proof fn lemma_first_app_extend(apps: Seq<AppInfo>, path: Seq<char>, n: int)
    requires
        0 <= n <= apps.len(),
        first_app_containing(apps.subrange(0, n), path) is Some,
    ensures
        first_app_containing(apps, path) == first_app_containing(apps.subrange(0, n), path),
    decreases apps.len() - n,
{
    if n < apps.len() {
        assert(apps.subrange(0, n + 1).drop_last() =~= apps.subrange(0, n));
        lemma_first_app_extend(apps, path, n + 1);
    } else {
        assert(apps.subrange(0, n) =~= apps);
    }
}

/// The running apps and processes the selection screen lists first: the
/// running GUI apps listed by display name (compared in lowercase; equal
/// names keep their order), one per bundle identifier where such entries
/// follow each other, then the command-line processes.
pub fn discover_running_apps(installed: &Vec<AppInfo>, processes: &Vec<ProcessEntry>) -> (r: Vec<AppInfo>)
    ensures
        exists|sorted: Seq<AppInfo>|
            #![trigger dedup_by_bundle(sorted)]
            is_stable_sort(
                running_gui_apps(installed@, processes@),
                name_keys(running_gui_apps(installed@, processes@)),
                sorted,
            ) && r@ == dedup_by_bundle(sorted) + running_cli_processes(installed@, processes@),
{
    let mut running: Vec<AppInfo> = Vec::new();
    let mut cli: Vec<AppInfo> = Vec::new();
    for i in 0..processes.len()
        invariant
            running@ == running_gui_apps(installed@, processes@.subrange(0, i as int)),
            cli@ == running_cli_processes(installed@, processes@.subrange(0, i as int)),
    {
        let ghost pre = processes@.subrange(0, i + 1);
        assert(pre.drop_last() =~= processes@.subrange(0, i as int));
        let e = &processes[i];
        if let Some(p) = &e.path {
            match find_app_containing(installed, &chars_of(p.as_str())) {
                Some(k) => {
                    let app = &installed[k];
                    let mut listed = false;
                    for j in 0..running.len()
                        invariant
                            listed == (exists|m: int|
                                0 <= m < j && opt_text(running@[m].bundle_id) == opt_text(app.bundle_id)
                                    && running@[m].pid == Some(e.pid)),
                    {
                        if same_opt_string(&running[j].bundle_id, &app.bundle_id) && running[j].pid
                            == Some(e.pid) {
                            listed = true;
                        }
                    }
                    if !listed {
                        let mut a = copy_app_info(app);
                        a.pid = Some(e.pid);
                        running.push(a);
                    }
                },
                None => {
                    if let Some(n) = &e.name {
                        let mut listed = false;
                        for j in 0..cli.len()
                            invariant
                                listed == (exists|m: int| 0 <= m < j && cli@[m].pid == Some(e.pid)),
                        {
                            if cli[j].pid == Some(e.pid) {
                                listed = true;
                            }
                        }
                        if !listed {
                            cli.push(
                                AppInfo {
                                    display_name: n.clone(),
                                    bundle_id: None,
                                    executable_name: n.clone(),
                                    app_path: None,
                                    pid: Some(e.pid),
                                    monitor_state: AppMonitorState::Unmonitored,
                                },
                            );
                        }
                    }
                },
            }
        }
    }
    assert(processes@.subrange(0, processes@.len() as int) =~= processes@);
    let keys = name_key_vecs(&running);
    let sorted = stable_sort_by_keys(running, &keys);
    let ghost sorted_view = sorted@;
    let mut result: Vec<AppInfo> = Vec::new();
    for i in 0..sorted.len()
        invariant
            sorted@ == sorted_view,
            result@ == dedup_by_bundle(sorted_view.subrange(0, i as int)),
    {
        let ghost pre = sorted_view.subrange(0, i + 1);
        assert(pre.drop_last() =~= sorted_view.subrange(0, i as int));
        let dup = result.len() > 0 && same_opt_string(
            &result[result.len() - 1].bundle_id,
            &sorted[i].bundle_id,
        );
        if !dup {
            result.push(copy_app_info(&sorted[i]));
        }
    }
    assert(sorted_view.subrange(0, sorted_view.len() as int) =~= sorted_view);
    let ghost deduped = result@;
    for i in 0..cli.len()
        invariant
            result@ == deduped + cli@.subrange(0, i as int),
    {
        result.push(copy_app_info(&cli[i]));
        assert(result@ =~= deduped + cli@.subrange(0, i + 1));
    }
    assert(cli@.subrange(0, cli@.len() as int) =~= cli@);
    result
}

/// Whether some app of the list has the given bundle identifier.
pub open spec fn has_bundle(apps: Seq<AppInfo>, bundle: Seq<char>) -> bool {
    exists|k: int| 0 <= k < apps.len() && opt_text(apps[k].bundle_id) == Some(bundle)
}

/// Whether a running entry has the bundle identifier of an installed app
/// (an app without an identifier is never taken for a running one).
pub open spec fn is_running(app: AppInfo, running: Seq<AppInfo>) -> bool {
    match app.bundle_id {
        Some(b) => has_bundle(running, b@),
        None => false,
    }
}

/// The installed apps that no running entry stands for: those without a
/// bundle identifier, and those whose identifier no running entry has.
pub open spec fn not_running(installed: Seq<AppInfo>, running: Seq<AppInfo>) -> Seq<AppInfo>
    decreases installed.len(),
{
    if installed.len() == 0 {
        installed
    } else {
        let r = not_running(installed.drop_last(), running);
        if is_running(installed.last(), running) {
            r
        } else {
            r.push(installed.last())
        }
    }
}

/// Merging keeps the installed apps that are not running in their own
/// order: exactly those without a bundle identifier, or whose identifier no
/// running entry has.
pub proof fn law_merge_keeps_installed_order(installed: Seq<AppInfo>, running: Seq<AppInfo>)
    ensures
        not_running(installed, running) == installed.filter(
            |a: AppInfo|
                !(a.bundle_id is Some && exists|k: int|
                    0 <= k < running.len() && (#[trigger] running[k]).bundle_id is Some
                        && running[k].bundle_id.unwrap()@ == a.bundle_id.unwrap()@),
        ),
    decreases installed.len(),
{
    reveal(Seq::filter);
    if installed.len() > 0 {
        law_merge_keeps_installed_order(installed.drop_last(), running);
        let a = installed.last();
        match a.bundle_id {
            Some(b) => {
                if has_bundle(running, b@) {
                    let k = choose|k: int| 0 <= k < running.len() && opt_text(running[k].bundle_id) == Some(b@);
                    assert(running[k].bundle_id is Some);
                }
                if exists|k: int|
                    0 <= k < running.len() && (#[trigger] running[k]).bundle_id is Some
                        && running[k].bundle_id.unwrap()@ == b@ {
                    let k = choose|k: int|
                        0 <= k < running.len() && (#[trigger] running[k]).bundle_id is Some
                            && running[k].bundle_id.unwrap()@ == b@;
                    assert(opt_text(running[k].bundle_id) == Some(b@));
                }
            },
            None => {},
        }
    }
}

/// Apps listed by name are ordered by their lowercased display names (so
/// upper and lower case compare alike), every listed app is one of the
/// apps, and none is lost.
pub proof fn law_apps_listed_by_lowercase_name(apps: Seq<AppInfo>, out: Seq<AppInfo>)
    requires
        is_stable_sort(apps, name_keys(apps), out),
    ensures
        out.len() == apps.len(),
        forall|a: int, b: int|
            #![trigger out[a], out[b]]
            0 <= a < b < out.len() ==> text_le(lowercase(out[a].display_name@), lowercase(out[b].display_name@)),
        forall|a: int| 0 <= a < out.len() ==> apps.contains(#[trigger] out[a]),
{
    let keys = name_keys(apps);
    let p = choose|p: Seq<int>| stably_sorts(keys, p) && out == permuted(apps, p);
    assert forall|a: int| 0 <= a < out.len() implies out[a] == apps[p[a]] && keys[p[a]] == lowercase(
        out[a].display_name@,
    ) && apps.contains(#[trigger] out[a]) by {
        assert(0 <= p[a] < apps.len());
    }
    assert forall|a: int, b: int|
        #![trigger out[a], out[b]]
        0 <= a < b < out.len() implies text_le(lowercase(out[a].display_name@), lowercase(out[b].display_name@)) by {
        assert(out[a] == apps[p[a]] && keys[p[a]] == lowercase(out[a].display_name@));
        assert(out[b] == apps[p[b]] && keys[p[b]] == lowercase(out[b].display_name@));
        assert(text_le(keys[p[a]], keys[p[b]]));
    }
}

/// The list the selection screen shows: the running entries, then the
/// installed apps that none of them stands for (see `not_running`).
pub fn merge_app_lists(installed: Vec<AppInfo>, running: Vec<AppInfo>) -> (r: Vec<AppInfo>)
    ensures
        r@ == running@ + not_running(installed@, running@),
{
    let mut merged: Vec<AppInfo> = Vec::new();
    for i in 0..running.len()
        invariant
            merged@ == running@.subrange(0, i as int),
    {
        merged.push(copy_app_info(&running[i]));
        assert(merged@ =~= running@.subrange(0, i + 1));
    }
    assert(running@.subrange(0, running@.len() as int) =~= running@);
    for i in 0..installed.len()
        invariant
            merged@ == running@ + not_running(installed@.subrange(0, i as int), running@),
    {
        let ghost pre = installed@.subrange(0, i + 1);
        assert(pre.drop_last() =~= installed@.subrange(0, i as int));
        let mut listed = false;
        match &installed[i].bundle_id {
            Some(b) => {
                for j in 0..running.len()
                    invariant
                        listed == (exists|m: int| 0 <= m < j && opt_text(running@[m].bundle_id) == Some(b@)),
                {
                    match &running[j].bundle_id {
                        Some(a) => {
                            if a.eq(b) {
                                listed = true;
                            }
                        },
                        None => {},
                    }
                }
            },
            None => {},
        }
        if !listed {
            let ghost before = merged@;
            merged.push(copy_app_info(&installed[i]));
            assert(merged@ =~= before.push(installed@[i as int]));
        }
    }
    assert(installed@.subrange(0, installed@.len() as int) =~= installed@);
    merged
}

/// The index of the first app with the given bundle identifier.
pub open spec fn first_with_bundle(apps: Seq<AppInfo>, bundle: Seq<char>) -> Option<int>
    decreases apps.len(),
{
    if apps.len() == 0 {
        None
    } else {
        match first_with_bundle(apps.drop_last(), bundle) {
            Some(i) => Some(i),
            None => if opt_text(apps.last().bundle_id) == Some(bundle) {
                Some(apps.len() - 1)
            } else {
                None
            },
        }
    }
}

/// A first match in a prefix of the apps is the first match in all of them.
proof fn lemma_first_bundle_extend(apps: Seq<AppInfo>, bundle: Seq<char>, n: int)
    requires
        0 <= n <= apps.len(),
        first_with_bundle(apps.subrange(0, n), bundle) is Some,
    ensures
        first_with_bundle(apps, bundle) == first_with_bundle(apps.subrange(0, n), bundle),
    decreases apps.len() - n,
{
    if n < apps.len() {
        assert(apps.subrange(0, n + 1).drop_last() =~= apps.subrange(0, n));
        lemma_first_bundle_extend(apps, bundle, n + 1);
    } else {
        assert(apps.subrange(0, n) =~= apps);
    }
}

/// The executable name and app path of the first installed app with the
/// given bundle identifier (an app without a path gives an empty path).
pub fn resolve_bundle_executable(apps: &Vec<AppInfo>, bundle_id: &str) -> (r: Option<(String, String)>)
    ensures
        match first_with_bundle(apps@, bundle_id@) {
            Some(i) => r matches Some((exec, path)) && exec@ == apps@[i].executable_name@ && path@
                == match apps@[i].app_path {
                Some(p) => p@,
                None => Seq::empty(),
            },
            None => r is None,
        },
{
    let wanted = Some(bundle_id.to_owned());
    let mut i: usize = 0;
    while i < apps.len()
        invariant
            i <= apps.len(),
            opt_text(wanted) == Some(bundle_id@),
            first_with_bundle(apps@.subrange(0, i as int), bundle_id@) is None,
        decreases apps.len() - i,
    {
        assert(apps@.subrange(0, i + 1).drop_last() =~= apps@.subrange(0, i as int));
        if same_opt_string(&apps[i].bundle_id, &wanted) {
            proof {
                lemma_first_bundle_extend(apps@, bundle_id@, i as int + 1);
            }
            let path = match &apps[i].app_path {
                Some(p) => p.clone(),
                None => String::new(),
            };
            return Some((apps[i].executable_name.clone(), path));
        }
        i = i + 1;
    }
    assert(apps@.subrange(0, apps@.len() as int) =~= apps@);
    None
}

} // verus!
