//! The four address lists of a monitoring session (IPv4 and IPv6, masked and
//! raw), kept in discovery order without repeats, and how saved lists are
//! merged back into them.

use vstd::prelude::*;

use crate::text::strs;

verus! {

/// `base` followed by each entry of `incoming`, in order, that is neither in
/// the list built so far nor in `other`.
pub open spec fn append_unseen(
    base: Seq<Seq<char>>,
    other: Seq<Seq<char>>,
    incoming: Seq<Seq<char>>,
) -> Seq<Seq<char>>
    decreases incoming.len(),
{
    if incoming.len() == 0 {
        base
    } else {
        let prev = append_unseen(base, other, incoming.drop_last());
        let x = incoming.last();
        if prev.contains(x) || other.contains(x) {
            prev
        } else {
            prev.push(x)
        }
    }
}

/// The four lists, in the order (IPv4 masked, IPv4 raw, IPv6 masked, IPv6 raw).
pub type Lists = (Seq<Seq<char>>, Seq<Seq<char>>, Seq<Seq<char>>, Seq<Seq<char>>);

/// The lists after saved lists are merged in: each saved entry is appended
/// unless already present; a masked entry is also left out when it is
/// present in the other masked list (masked entries share one seen-set).
pub open spec fn restored(base: Lists, incoming: Lists) -> Lists {
    let v4m = append_unseen(base.0, base.2, incoming.0);
    let v4r = append_unseen(base.1, Seq::empty(), incoming.1);
    let v6m = append_unseen(base.2, v4m, incoming.2);
    let v6r = append_unseen(base.3, Seq::empty(), incoming.3);
    (v4m, v4r, v6m, v6r)
}

/// No list repeats an entry, and no entry is in both masked lists.
pub open spec fn lists_wf(l: Lists) -> bool {
    &&& l.0.no_duplicates()
    &&& l.1.no_duplicates()
    &&& l.2.no_duplicates()
    &&& l.3.no_duplicates()
    &&& forall|x: Seq<char>| l.0.contains(x) ==> !l.2.contains(x)
}

/// Four empty lists.
pub open spec fn empty_lists() -> Lists {
    (Seq::empty(), Seq::empty(), Seq::empty(), Seq::empty())
}

pub proof fn lemma_append_unseen_shape(
    base: Seq<Seq<char>>,
    other: Seq<Seq<char>>,
    incoming: Seq<Seq<char>>,
)
    ensures
        base.len() <= append_unseen(base, other, incoming).len(),
        append_unseen(base, other, incoming).subrange(0, base.len() as int) == base,
        forall|x: Seq<char>| #[trigger]
            append_unseen(base, other, incoming).contains(x) ==> base.contains(x) || (
            incoming.contains(x) && !other.contains(x)),
        forall|x: Seq<char>|
            incoming.contains(x) ==> #[trigger] append_unseen(base, other, incoming).contains(x)
                || other.contains(x),
        base.no_duplicates() ==> append_unseen(base, other, incoming).no_duplicates(),
    decreases incoming.len(),
{
    if incoming.len() > 0 {
        let rest = incoming.drop_last();
        lemma_append_unseen_shape(base, other, rest);
        let prev = append_unseen(base, other, rest);
        let x = incoming.last();
        let r = append_unseen(base, other, incoming);
        if !(prev.contains(x) || other.contains(x)) {
            assert(r == prev.push(x));
            assert(r.subrange(0, base.len() as int) =~= prev.subrange(0, base.len() as int));
            assert forall|y: Seq<char>| #[trigger] r.contains(y) implies base.contains(y) || (
            incoming.contains(y) && !other.contains(y)) by {
                if y != x {
                    let j = choose|j: int| 0 <= j < r.len() && r[j] == y;
                    assert(prev[j] == y);
                    assert(prev.contains(y));
                    if !base.contains(y) {
                        assert(rest.contains(y));
                        let k = choose|k: int| 0 <= k < rest.len() && rest[k] == y;
                        assert(incoming[k] == y);
                    }
                } else {
                    assert(incoming[incoming.len() - 1] == x);
                }
            }
            assert forall|y: Seq<char>| incoming.contains(y) implies #[trigger] r.contains(y)
                || other.contains(y) by {
                let k = choose|k: int| 0 <= k < incoming.len() && incoming[k] == y;
                if k < incoming.len() - 1 {
                    assert(rest[k] == y);
                    if prev.contains(y) {
                        let j = choose|j: int| 0 <= j < prev.len() && prev[j] == y;
                        assert(r[j] == y);
                    }
                } else {
                    assert(r[r.len() - 1] == y);
                }
            }
        } else {
            assert forall|y: Seq<char>| #[trigger] r.contains(y) implies base.contains(y) || (
            incoming.contains(y) && !other.contains(y)) by {
                if !base.contains(y) {
                    let k = choose|k: int| 0 <= k < rest.len() && rest[k] == y;
                    assert(incoming[k] == y);
                }
            }
            assert forall|y: Seq<char>| incoming.contains(y) implies #[trigger] r.contains(y)
                || other.contains(y) by {
                let k = choose|k: int| 0 <= k < incoming.len() && incoming[k] == y;
                if k < incoming.len() - 1 {
                    assert(rest[k] == y);
                }
            }
        }
    } else {
        assert(base.subrange(0, base.len() as int) =~= base);
    }
}

/// Merging entries that are all present already changes nothing.
pub proof fn lemma_append_unseen_present(
    base: Seq<Seq<char>>,
    other: Seq<Seq<char>>,
    incoming: Seq<Seq<char>>,
)
    requires
        forall|x: Seq<char>| incoming.contains(x) ==> base.contains(x) || other.contains(x),
    ensures
        append_unseen(base, other, incoming) == base,
    decreases incoming.len(),
{
    if incoming.len() > 0 {
        let rest = incoming.drop_last();
        assert forall|x: Seq<char>| rest.contains(x) implies base.contains(x) || other.contains(x) by {
            let k = choose|k: int| 0 <= k < rest.len() && rest[k] == x;
            assert(incoming[k] == x);
        }
        lemma_append_unseen_present(base, other, rest);
        assert(incoming.contains(incoming.last()));
    }
}

/// Merging entries without repeats, none in `other`, into an empty list
/// gives those entries.
pub proof fn lemma_append_unseen_into_empty(other: Seq<Seq<char>>, incoming: Seq<Seq<char>>)
    requires
        incoming.no_duplicates(),
        forall|x: Seq<char>| incoming.contains(x) ==> !other.contains(x),
    ensures
        append_unseen(Seq::empty(), other, incoming) == incoming,
    decreases incoming.len(),
{
    if incoming.len() > 0 {
        let rest = incoming.drop_last();
        assert forall|x: Seq<char>| rest.contains(x) implies !other.contains(x) by {
            let k = choose|k: int| 0 <= k < rest.len() && rest[k] == x;
            assert(incoming[k] == x);
        }
        lemma_append_unseen_into_empty(other, rest);
        let x = incoming.last();
        assert(incoming.contains(x));
        if rest.contains(x) {
            let k = choose|k: int| 0 <= k < rest.len() && rest[k] == x;
            assert(incoming[k] == incoming[incoming.len() - 1]);
        }
        assert(rest.push(x) =~= incoming);
    }
}

/// Merging saved lists into well-formed lists gives well-formed lists.
pub proof fn law_restore_keeps_lists_well_formed(base: Lists, incoming: Lists)
    requires
        lists_wf(base),
    ensures
        lists_wf(restored(base, incoming)),
{
    let r = restored(base, incoming);
    lemma_append_unseen_shape(base.0, base.2, incoming.0);
    lemma_append_unseen_shape(base.1, Seq::empty(), incoming.1);
    lemma_append_unseen_shape(base.2, r.0, incoming.2);
    lemma_append_unseen_shape(base.3, Seq::empty(), incoming.3);
    assert forall|x: Seq<char>| r.0.contains(x) implies !r.2.contains(x) by {
        if r.2.contains(x) {
            if base.2.contains(x) {
                if base.0.contains(x) {
                } else {
                    assert(!base.2.contains(x));
                }
            } else {
                assert(!r.0.contains(x));
            }
        }
    }
}

/// Merging saved lists never drops or reorders what was there: each list
/// before is a prefix of the list after.
pub proof fn law_restore_keeps_existing_entries(base: Lists, incoming: Lists)
    ensures
        ({
            let r = restored(base, incoming);
            &&& r.0.subrange(0, base.0.len() as int) == base.0
            &&& r.1.subrange(0, base.1.len() as int) == base.1
            &&& r.2.subrange(0, base.2.len() as int) == base.2
            &&& r.3.subrange(0, base.3.len() as int) == base.3
        }),
{
    let r = restored(base, incoming);
    lemma_append_unseen_shape(base.0, base.2, incoming.0);
    lemma_append_unseen_shape(base.1, Seq::empty(), incoming.1);
    lemma_append_unseen_shape(base.2, r.0, incoming.2);
    lemma_append_unseen_shape(base.3, Seq::empty(), incoming.3);
}

/// Merging the same saved lists a second time changes nothing.
pub proof fn law_restore_idempotent(base: Lists, incoming: Lists)
    ensures
        restored(restored(base, incoming), incoming) == restored(base, incoming),
{
    let r = restored(base, incoming);
    lemma_append_unseen_shape(base.0, base.2, incoming.0);
    lemma_append_unseen_shape(base.1, Seq::empty(), incoming.1);
    lemma_append_unseen_shape(base.2, r.0, incoming.2);
    lemma_append_unseen_shape(base.3, Seq::empty(), incoming.3);
    assert forall|x: Seq<char>| incoming.0.contains(x) implies r.0.contains(x) || r.2.contains(x) by {
        if !r.0.contains(x) {
            assert(base.2.contains(x));
            let k = choose|k: int| 0 <= k < base.2.len() && base.2[k] == x;
            assert(r.2.subrange(0, base.2.len() as int)[k] == x);
            assert(r.2[k] == x);
        }
    }
    lemma_append_unseen_present(r.0, r.2, incoming.0);
    lemma_append_unseen_present(r.1, Seq::empty(), incoming.1);
    lemma_append_unseen_present(r.2, r.0, incoming.2);
    lemma_append_unseen_present(r.3, Seq::empty(), incoming.3);
}

/// Merging well-formed lists into four empty lists gives those lists back:
/// what is saved from a session is what a new session starts with.
pub proof fn law_restore_into_empty_round_trip(saved: Lists)
    requires
        lists_wf(saved),
    ensures
        restored(empty_lists(), saved) == saved,
{
    assert forall|x: Seq<char>| saved.0.contains(x) implies !Seq::<Seq<char>>::empty().contains(
        x,
    ) by {}
    lemma_append_unseen_into_empty(Seq::empty(), saved.0);
    lemma_append_unseen_into_empty(Seq::empty(), saved.1);
    lemma_append_unseen_into_empty(saved.0, saved.2);
    lemma_append_unseen_into_empty(Seq::empty(), saved.3);
}

/// Whether the text of `s` is among the texts of `v`.
pub fn contains_string(v: &Vec<String>, s: &String) -> (r: bool)
    ensures
        r == strs(v@).contains(s@),
{
    let mut i: usize = 0;
    while i < v.len()
        invariant
            i <= v.len(),
            forall|j: int| 0 <= j < i ==> v@[j]@ != s@,
        decreases v.len() - i,
    {
        if v[i].eq(s) {
            assert(strs(v@)[i as int] == s@);
            return true;
        }
        i = i + 1;
    }
    assert forall|j: int| 0 <= j < strs(v@).len() implies strs(v@)[j] != s@ by {
        assert(strs(v@)[j] == v@[j]@);
    }
    false
}

/// Appends each entry of `incoming`, in order, whose text is neither in
/// `list` (as it grows) nor in `other`.
pub fn append_unseen_strings(list: &mut Vec<String>, other: &Vec<String>, incoming: &[String])
    ensures
        strs(final(list)@) == append_unseen(strs(old(list)@), strs(other@), strs(incoming@)),
{
    let ghost base = strs(list@);
    let ghost inc = strs(incoming@);
    for i in 0..incoming.len()
        invariant
            inc == strs(incoming@),
            strs(list@) == append_unseen(base, strs(other@), inc.subrange(0, i as int)),
    {
        let ghost prefix = inc.subrange(0, i + 1);
        assert(prefix.drop_last() =~= inc.subrange(0, i as int));
        assert(prefix.last() == incoming@[i as int]@);
        let seen = contains_string(list, &incoming[i]) || contains_string(other, &incoming[i]);
        if !seen {
            let ghost before = list@;
            list.push(incoming[i].clone());
            assert(strs(list@) =~= strs(before).push(incoming@[i as int]@));
        }
    }
    assert(inc.subrange(0, incoming@.len() as int) =~= inc);
}

} // verus!
