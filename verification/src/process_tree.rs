//! Finding target processes in a snapshot of the process table, and the
//! process tree under a process.

use vstd::prelude::*;

use crate::text::{chars_of, is_prefix_of, starts_with};
use crate::types::{copy_opt_string, opt_text, ProcessInfo};

verus! {

/// One process of a snapshot of the process table: its PID and, where they
/// could be read, its name, executable path and command line.
#[derive(Clone, Debug)]
pub struct ProcessEntry {
    pub pid: i32,
    pub name: Option<String>,
    pub path: Option<String>,
    pub command: Option<String>,
}

/// The PIDs, in snapshot order, of the processes named `name`.
pub open spec fn pids_named(procs: Seq<ProcessEntry>, name: Seq<char>) -> Seq<i32>
    decreases procs.len(),
{
    if procs.len() == 0 {
        Seq::empty()
    } else {
        let rest = pids_named(procs.drop_last(), name);
        if opt_text(procs.last().name) == Some(name) {
            rest.push(procs.last().pid)
        } else {
            rest
        }
    }
}

/// The PIDs, in snapshot order, of the processes whose executable path
/// starts with `prefix`.
pub open spec fn pids_under(procs: Seq<ProcessEntry>, prefix: Seq<char>) -> Seq<i32>
    decreases procs.len(),
{
    if procs.len() == 0 {
        Seq::empty()
    } else {
        let rest = pids_under(procs.drop_last(), prefix);
        match procs.last().path {
            Some(p) => if is_prefix_of(prefix, p@) {
                rest.push(procs.last().pid)
            } else {
                rest
            },
            None => rest,
        }
    }
}

/// Looking processes up by name takes exactly the processes whose name is
/// the requested name, character for character (not one that merely starts
/// with it), in snapshot order.
pub proof fn law_pids_named_exact(procs: Seq<ProcessEntry>, name: Seq<char>)
    ensures
        pids_named(procs, name) == procs.filter(
            |e: ProcessEntry| e.name is Some && e.name.unwrap()@ == name,
        ).map_values(|e: ProcessEntry| e.pid),
    decreases procs.len(),
{
    let pred = |e: ProcessEntry| e.name is Some && e.name.unwrap()@ == name;
    reveal(Seq::filter);
    if procs.len() > 0 {
        law_pids_named_exact(procs.drop_last(), name);
        let f = procs.drop_last().filter(pred);
        if pred(procs.last()) {
            assert(f.push(procs.last()).map_values(|e: ProcessEntry| e.pid) =~= f.map_values(
                |e: ProcessEntry| e.pid,
            ).push(procs.last().pid));
        }
    }
}

/// Looking processes up by executable path takes exactly the processes
/// whose path can be read and begins with the prefix, in snapshot order.
pub proof fn law_pids_under_prefix(procs: Seq<ProcessEntry>, prefix: Seq<char>)
    ensures
        pids_under(procs, prefix) == procs.filter(
            |e: ProcessEntry|
                e.path is Some && prefix.len() <= e.path.unwrap()@.len() && e.path.unwrap()@.subrange(
                    0,
                    prefix.len() as int,
                ) == prefix,
        ).map_values(|e: ProcessEntry| e.pid),
    decreases procs.len(),
{
    let pred = |e: ProcessEntry|
        e.path is Some && prefix.len() <= e.path.unwrap()@.len() && e.path.unwrap()@.subrange(
            0,
            prefix.len() as int,
        ) == prefix;
    reveal(Seq::filter);
    if procs.len() > 0 {
        law_pids_under_prefix(procs.drop_last(), prefix);
        let f = procs.drop_last().filter(pred);
        if pred(procs.last()) {
            assert(f.push(procs.last()).map_values(|e: ProcessEntry| e.pid) =~= f.map_values(
                |e: ProcessEntry| e.pid,
            ).push(procs.last().pid));
        }
    }
}

/// The PIDs of the processes named `name`.
pub fn find_pids_by_name(processes: &Vec<ProcessEntry>, name: &str) -> (r: Vec<i32>)
    ensures
        r@ == pids_named(processes@, name@),
{
    let mut matched: Vec<i32> = Vec::new();
    for i in 0..processes.len()
        invariant
            matched@ == pids_named(processes@.subrange(0, i as int), name@),
    {
        assert(processes@.subrange(0, i + 1).drop_last() =~= processes@.subrange(0, i as int));
        match &processes[i].name {
            Some(n) => {
                let same = n.as_str().unicode_len() == name.unicode_len() && {
                    let a = chars_of(n.as_str());
                    let b = chars_of(name);
                    starts_with(&a, &b)
                };
                proof {
                    if n@.len() == name@.len() && is_prefix_of(name@, n@) {
                        assert(n@ =~= name@);
                    }
                    if n@ == name@ {
                        assert(n@.subrange(0, name@.len() as int) =~= n@);
                    }
                }
                if same {
                    matched.push(processes[i].pid);
                }
            },
            None => {},
        }
    }
    assert(processes@.subrange(0, processes@.len() as int) =~= processes@);
    matched
}

/// The PIDs of the processes whose executable path starts with `prefix`.
pub fn find_pids_by_executable_path_prefix(processes: &Vec<ProcessEntry>, prefix: &str) -> (r: Vec<i32>)
    ensures
        r@ == pids_under(processes@, prefix@),
{
    let p = chars_of(prefix);
    let mut matched: Vec<i32> = Vec::new();
    for i in 0..processes.len()
        invariant
            p@ == prefix@,
            matched@ == pids_under(processes@.subrange(0, i as int), prefix@),
    {
        assert(processes@.subrange(0, i + 1).drop_last() =~= processes@.subrange(0, i as int));
        match &processes[i].path {
            Some(path) => {
                if starts_with(&chars_of(path.as_str()), &p) {
                    matched.push(processes[i].pid);
                }
            },
            None => {},
        }
    }
    assert(processes@.subrange(0, processes@.len() as int) =~= processes@);
    matched
}

/// The tracked-process entry of a snapshot entry, when its name is known.
pub open spec fn spec_process_info(entry: ProcessEntry) -> Option<ProcessInfo> {
    match entry.name {
        Some(n) => Some(ProcessInfo { pid: entry.pid, name: n, command: entry.command }),
        None => None,
    }
}

/// The tracked-process entry of a snapshot entry, when its name is known.
pub fn get_process_info(entry: &ProcessEntry) -> (r: Option<ProcessInfo>)
    ensures
        r == spec_process_info(*entry),
{
    match &entry.name {
        Some(n) => Some(
            ProcessInfo { pid: entry.pid, name: n.clone(), command: copy_opt_string(&entry.command) },
        ),
        None => None,
    }
}

/// Whether a PID is in the list.
pub(crate) fn contains_pid(v: &Vec<i32>, pid: i32) -> (r: bool)
    ensures
        r == v@.contains(pid),
{
    for i in 0..v.len()
        invariant
            forall|j: int| 0 <= j < i ==> v@[j] != pid,
    {
        if v[i] == pid {
            return true;
        }
    }
    false
}

/// Whether a snapshot of the process tree (each entry a PID and the PIDs of
/// its children) lists `c` as a child of `p`.
pub open spec fn is_child(tree: Seq<(i32, Vec<i32>)>, p: i32, c: i32) -> bool {
    exists|k: int| 0 <= k < tree.len() && tree[k].0 == p && #[trigger] tree[k].1@.contains(c)
}

/// Whether a set of PIDs holds `root` and, with each of its PIDs, that
/// PID's children.
pub open spec fn closed_under_children(tree: Seq<(i32, Vec<i32>)>, root: i32, s: Set<i32>) -> bool {
    &&& s.contains(root)
    &&& forall|p: i32, c: i32| #[trigger] s.contains(p) && #[trigger] is_child(tree, p, c) ==> s.contains(c)
}

/// The descendants of `root`, itself included: the PIDs that every set
/// holding `root` and closed under children holds.
pub open spec fn descendants(tree: Seq<(i32, Vec<i32>)>, root: i32) -> Set<i32> {
    Set::new(|p: i32| forall|s: Set<i32>| closed_under_children(tree, root, s) ==> #[trigger] s.contains(p))
}

/// Every child PID that a snapshot lists, entry by entry.
spec fn all_children(tree: Seq<(i32, Vec<i32>)>) -> Seq<i32>
    decreases tree.len(),
{
    if tree.len() == 0 {
        Seq::empty()
    } else {
        all_children(tree.drop_last()) + tree.last().1@
    }
}

proof fn lemma_child_listed(tree: Seq<(i32, Vec<i32>)>, k: int, m: int)
    requires
        0 <= k < tree.len(),
        0 <= m < tree[k].1@.len(),
    ensures
        all_children(tree).contains(tree[k].1@[m]),
    decreases tree.len(),
{
    let a = all_children(tree.drop_last());
    if k == tree.len() - 1 {
        assert((a + tree.last().1@)[a.len() + m] == tree[k].1@[m]);
    } else {
        lemma_child_listed(tree.drop_last(), k, m);
        let i = choose|i: int| 0 <= i < a.len() && a[i] == tree[k].1@[m];
        assert((a + tree.last().1@)[i] == a[i]);
    }
}

proof fn lemma_distinct_bounded(found: Seq<i32>, univ: Seq<i32>)
    requires
        found.no_duplicates(),
        forall|i: int| 0 <= i < found.len() ==> univ.contains(found[i]),
    ensures
        found.len() <= univ.len(),
{
    found.unique_seq_to_set();
    assert(found.to_set().subset_of(univ.to_set()));
    vstd::seq_lib::seq_to_set_is_finite(univ);
    vstd::set_lib::lemma_len_subset(found.to_set(), univ.to_set());
    univ.lemma_cardinality_of_set();
}

/// The PIDs of the process tree under `root_pid`, itself included, as a
/// snapshot of the tree lists them: each once, the root first.
pub fn collect_descendants(root_pid: i32, tree: &Vec<(i32, Vec<i32>)>) -> (r: Vec<i32>)
    ensures
        r@.no_duplicates(),
        r@.len() > 0 && r@[0] == root_pid,
        r@.to_set() == descendants(tree@, root_pid),
{
    let ghost univ: Seq<i32> = seq![root_pid] + all_children(tree@);
    let mut found: Vec<i32> = vec![root_pid];
    let mut queue: Vec<i32> = vec![root_pid];
    assert(univ[0] == root_pid);
    while queue.len() > 0
        invariant
            found@.no_duplicates(),
            queue@.no_duplicates(),
            found@.len() > 0 && found@[0] == root_pid,
            univ == seq![root_pid] + all_children(tree@),
            forall|i: int| 0 <= i < found@.len() ==> univ.contains(found@[i]),
            forall|i: int| 0 <= i < queue@.len() ==> found@.contains(queue@[i]),
            forall|q: i32, c: i32|
                found@.contains(q) && !queue@.contains(q) && #[trigger] is_child(tree@, q, c)
                    ==> found@.contains(c),
            forall|s: Set<i32>|
                closed_under_children(tree@, root_pid, s) ==> forall|i: int|
                    0 <= i < found@.len() ==> #[trigger] s.contains(found@[i]),
        decreases univ.len() - found@.len(), queue@.len(),
    {
        let ghost queue_before = queue@;
        let p = queue.pop().unwrap();
        assert(queue_before == queue@.push(p));
        assert(!queue@.contains(p)) by {
            if queue@.contains(p) {
                let i = choose|i: int| 0 <= i < queue@.len() && queue@[i] == p;
                assert(queue_before[i] == queue_before[queue_before.len() - 1]);
            }
        }
        assert(found@.contains(p)) by {
            assert(queue_before[queue_before.len() - 1] == p);
        }
        let ghost found_before = found@;
        let ghost qlen = queue@.len();
        for k in 0..tree.len()
            invariant
                queue@.len() + found_before.len() == qlen + found@.len(),
                found@.no_duplicates(),
                queue@.no_duplicates(),
                found@.len() > 0 && found@[0] == root_pid,
                found@.len() >= found_before.len(),
                univ == seq![root_pid] + all_children(tree@),
                found@.contains(p),
                !queue@.contains(p),
                forall|i: int| 0 <= i < found@.len() ==> univ.contains(found@[i]),
                forall|i: int| 0 <= i < queue@.len() ==> found@.contains(queue@[i]),
                forall|q: i32, c: i32|
                    found@.contains(q) && !queue@.contains(q) && q != p && #[trigger] is_child(tree@, q, c)
                        ==> found@.contains(c),
                forall|j: int, c: i32|
                    0 <= j < k && tree@[j].0 == p && #[trigger] tree@[j].1@.contains(c) ==> found@.contains(c),
                forall|s: Set<i32>|
                    closed_under_children(tree@, root_pid, s) ==> forall|i: int|
                        0 <= i < found@.len() ==> #[trigger] s.contains(found@[i]),
        {
            if tree[k].0 == p {
                let children = &tree[k].1;
                for m in 0..children.len()
                    invariant
                        0 <= k < tree@.len(),
                        queue@.len() + found_before.len() == qlen + found@.len(),
                        children == &tree@[k as int].1,
                        tree@[k as int].0 == p,
                        found@.no_duplicates(),
                        queue@.no_duplicates(),
                        found@.len() > 0 && found@[0] == root_pid,
                        found@.len() >= found_before.len(),
                        univ == seq![root_pid] + all_children(tree@),
                        found@.contains(p),
                        !queue@.contains(p),
                        forall|i: int| 0 <= i < found@.len() ==> univ.contains(found@[i]),
                        forall|i: int| 0 <= i < queue@.len() ==> found@.contains(queue@[i]),
                        forall|q: i32, c: i32|
                            found@.contains(q) && !queue@.contains(q) && q != p && #[trigger] is_child(
                                tree@,
                                q,
                                c,
                            ) ==> found@.contains(c),
                        forall|j: int, c: i32|
                            0 <= j < k && tree@[j].0 == p && #[trigger] tree@[j].1@.contains(c)
                                ==> found@.contains(c),
                        forall|i: int| 0 <= i < m ==> found@.contains(#[trigger] children@[i]),
                        forall|s: Set<i32>|
                            closed_under_children(tree@, root_pid, s) ==> forall|i: int|
                                0 <= i < found@.len() ==> #[trigger] s.contains(found@[i]),
                {
                    let c = children[m];
                    if !contains_pid(&found, c) {
                        let ghost f0 = found@;
                        let ghost q0 = queue@;
                        proof {
                            lemma_child_listed(tree@, k as int, m as int);
                            assert(is_child(tree@, p, c)) by {
                                assert(tree@[k as int].1@[m as int] == c);
                                assert(tree@[k as int].1@.contains(c));
                            }
                            assert forall|s: Set<i32>| closed_under_children(tree@, root_pid, s) implies s.contains(c) by {
                                let ip = choose|i: int| 0 <= i < f0.len() && f0[i] == p;
                                assert(s.contains(f0[ip]));
                            }
                        }
                        found.push(c);
                        queue.push(c);
                        proof {
                            assert(found@ == f0.push(c));
                            assert(queue@ == q0.push(c));
                            assert(found@[found@.len() - 1] == c);
                            assert forall|i: int| 0 <= i < queue@.len() implies found@.contains(queue@[i]) by {
                                if i < q0.len() {
                                    let j = choose|j: int| 0 <= j < f0.len() && f0[j] == q0[i];
                                    assert(found@[j] == f0[j]);
                                }
                            }
                            assert forall|i: int| 0 <= i < found@.len() implies univ.contains(found@[i]) by {
                                if i < f0.len() {
                                    assert(found@[i] == f0[i]);
                                } else {
                                    assert(all_children(tree@).contains(c));
                                    let j = choose|j: int| 0 <= j < all_children(tree@).len() && all_children(tree@)[j] == c;
                                    assert(univ[j + 1] == c);
                                }
                            }
                            assert forall|s: Set<i32>| closed_under_children(tree@, root_pid, s) implies forall|i: int|
                                0 <= i < found@.len() ==> #[trigger] s.contains(found@[i]) by {
                                assert forall|i: int| 0 <= i < found@.len() implies #[trigger] s.contains(found@[i]) by {
                                    if i < f0.len() {
                                        assert(found@[i] == f0[i]);
                                        assert(s.contains(f0[i]));
                                    }
                                }
                            }
                            assert forall|q: i32, d: i32|
                                found@.contains(q) && !queue@.contains(q) && q != p && #[trigger] is_child(tree@, q, d)
                                    implies found@.contains(d) by {
                                if q != c {
                                    let j = choose|j: int| 0 <= j < found@.len() && found@[j] == q;
                                    assert(f0[j] == q);
                                    assert(!q0.contains(q)) by {
                                        if q0.contains(q) {
                                            let t = choose|t: int| 0 <= t < q0.len() && q0[t] == q;
                                            assert(queue@[t] == q);
                                        }
                                    }
                                    let e = choose|e: int| 0 <= e < f0.len() && f0[e] == d;
                                    assert(found@[e] == d);
                                } else {
                                    assert(queue@[queue@.len() - 1] == c);
                                }
                            }
                            assert forall|j: int, d: i32|
                                0 <= j < k && tree@[j].0 == p && #[trigger] tree@[j].1@.contains(d) implies found@.contains(d) by {
                                let e = choose|e: int| 0 <= e < f0.len() && f0[e] == d;
                                assert(found@[e] == d);
                            }
                            assert forall|i: int| 0 <= i < m + 1 implies found@.contains(#[trigger] children@[i]) by {
                                if i < m {
                                    let e = choose|e: int| 0 <= e < f0.len() && f0[e] == children@[i];
                                    assert(found@[e] == children@[i]);
                                }
                            }
                            let ip = choose|i: int| 0 <= i < f0.len() && f0[i] == p;
                            assert(found@[ip] == p);
                            assert(!queue@.contains(p)) by {
                                if queue@.contains(p) {
                                    let t = choose|t: int| 0 <= t < queue@.len() && queue@[t] == p;
                                    if t < q0.len() {
                                        assert(q0[t] == p);
                                    }
                                }
                            }
                        }
                    }
                }
                proof {
                    assert forall|j: int, d: i32|
                        0 <= j < k + 1 && tree@[j].0 == p && #[trigger] tree@[j].1@.contains(d) implies found@.contains(d) by {
                        if j == k {
                            let i = choose|i: int| 0 <= i < children@.len() && children@[i] == d;
                        }
                    }
                }
            }
        }
        proof {
            assert forall|q: i32, c: i32|
                found@.contains(q) && !queue@.contains(q) && #[trigger] is_child(tree@, q, c) implies found@.contains(c) by {
                if q == p {
                    let j = choose|j: int| 0 <= j < tree@.len() && tree@[j].0 == p && #[trigger] tree@[j].1@.contains(c);
                }
            }
            lemma_distinct_bounded(found@, univ);
        }
    }
    proof {
        let s = found@.to_set();
        assert(closed_under_children(tree@, root_pid, s)) by {
            assert(found@[0] == root_pid);
        }
        assert forall|x: i32| found@.to_set().contains(x) <==> descendants(tree@, root_pid).contains(x) by {
            if found@.contains(x) {
                let i = choose|i: int| 0 <= i < found@.len() && found@[i] == x;
                assert forall|t: Set<i32>| closed_under_children(tree@, root_pid, t) implies #[trigger] t.contains(x) by {
                    assert(t.contains(found@[i]));
                }
            }
            if descendants(tree@, root_pid).contains(x) {
                assert(s.contains(x));
            }
        }
        assert(found@.to_set() =~= descendants(tree@, root_pid));
    }
    found
}

} // verus!
