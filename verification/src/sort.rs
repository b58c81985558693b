//! Stable ordering of items by text keys.

use vstd::prelude::*;

use crate::text::{
    chars_le, lemma_text_le_antisymmetric, lemma_text_le_total, lemma_text_le_transitive, text_le,
};

verus! {

/// The character sequences of a sequence of character vectors.
pub open spec fn key_views(keys: Seq<Vec<char>>) -> Seq<Seq<char>> {
    keys.map_values(|k: Vec<char>| k@)
}

/// `p` lists every index below `n` exactly once.
pub open spec fn is_permutation(p: Seq<int>, n: nat) -> bool {
    &&& p.len() == n
    &&& forall|k: int| 0 <= k < n ==> 0 <= #[trigger] p[k] < n
    &&& p.no_duplicates()
}

/// Taking the items in the order `p` lists them puts their keys in ascending
/// order and keeps items with equal keys in the order they came in.
pub open spec fn stably_sorts(keys: Seq<Seq<char>>, p: Seq<int>) -> bool {
    &&& is_permutation(p, keys.len())
    &&& forall|a: int, b: int|
        0 <= a < b < p.len() ==> text_le(#[trigger] keys[p[a]], #[trigger] keys[p[b]])
    &&& forall|a: int, b: int|
        0 <= a < b < p.len() && keys[p[a]] == keys[p[b]] ==> #[trigger] p[a] < #[trigger] p[b]
}

/// The items in the order `p` lists their indices.
pub open spec fn permuted<T>(items: Seq<T>, p: Seq<int>) -> Seq<T> {
    p.map_values(|k: int| items[k])
}

/// `out` holds the items of `input` with their keys in ascending order,
/// items with equal keys in the order they came in.
pub open spec fn is_stable_sort<T>(input: Seq<T>, keys: Seq<Seq<char>>, out: Seq<T>) -> bool {
    exists|p: Seq<int>| stably_sorts(keys, p) && out == permuted(input, p)
}

/// An index list that lists every index below `n` once lists each of them
/// somewhere.
proof fn lemma_permutation_covers(p: Seq<int>, n: nat, v: int)
    requires
        is_permutation(p, n),
        0 <= v < n,
    ensures
        exists|m: int| 0 <= m < n && p[m] == v,
{
    let range = vstd::set_lib::set_int_range(0, n as int);
    p.unique_seq_to_set();
    vstd::set_lib::lemma_int_range(0, n as int);
    assert(p.to_set().subset_of(range)) by {
        assert forall|x: int| p.to_set().contains(x) implies range.contains(x) by {
            let i = choose|i: int| 0 <= i < p.len() && p[i] == x;
        }
    }
    vstd::set_lib::lemma_len_subset(p.to_set(), range);
    vstd::set_lib::lemma_subset_equality(p.to_set(), range);
    assert(range.contains(v));
    assert(p.to_set().contains(v));
}

/// Two index lists that both sort `keys` stably agree on their first `k`
/// positions.
proof fn lemma_stable_orders_agree_below(keys: Seq<Seq<char>>, p: Seq<int>, q: Seq<int>, k: nat)
    requires
        stably_sorts(keys, p),
        stably_sorts(keys, q),
        k <= keys.len(),
    ensures
        forall|j: int| 0 <= j < k ==> p[j] == q[j],
    decreases k,
{
    if k > 0 {
        let j = k - 1;
        lemma_stable_orders_agree_below(keys, p, q, j as nat);
        if p[j] != q[j] {
            let n = keys.len();
            lemma_permutation_covers(q, n, p[j]);
            lemma_permutation_covers(p, n, q[j]);
            let m = choose|m: int| 0 <= m < n && q[m] == p[j];
            let m2 = choose|m: int| 0 <= m < n && p[m] == q[j];
            if m < j {
                assert(p[m] == q[m]);
                assert(false);
            }
            if m2 < j {
                assert(p[m2] == q[m2]);
                assert(false);
            }
            assert(text_le(keys[q[j]], keys[q[m]]));
            assert(text_le(keys[p[j]], keys[p[m2]]));
            lemma_text_le_antisymmetric(keys[p[j]], keys[q[j]]);
            assert(q[j] < q[m]);
            assert(p[j] < p[m2]);
        }
    }
}

/// A stable sort has a single outcome: two outputs that both stably sort the
/// same items by the same keys are equal.
pub proof fn lemma_stable_sort_unique<T>(
    input: Seq<T>,
    keys: Seq<Seq<char>>,
    out1: Seq<T>,
    out2: Seq<T>,
)
    requires
        input.len() == keys.len(),
        is_stable_sort(input, keys, out1),
        is_stable_sort(input, keys, out2),
    ensures
        out1 == out2,
{
    let p = choose|p: Seq<int>| stably_sorts(keys, p) && out1 == permuted(input, p);
    let q = choose|q: Seq<int>| stably_sorts(keys, q) && out2 == permuted(input, q);
    lemma_stable_orders_agree_below(keys, p, q, keys.len());
    assert(p =~= q);
}

/// Sorts `items` by `keys` (one key per item), stably.
pub fn stable_sort_by_keys<T>(items: Vec<T>, keys: &Vec<Vec<char>>) -> (out: Vec<T>)
    requires
        items.len() == keys.len(),
    ensures
        is_stable_sort(items@, key_views(keys@), out@),
{
    let ghost orig = items@;
    let ghost kv = key_views(keys@);
    let n = items.len();
    let mut rest = items;
    let mut out: Vec<T> = Vec::new();
    let mut idx: Vec<usize> = Vec::new();
    let ghost mut p: Seq<int> = Seq::empty();
    while rest.len() > 0
        invariant
            n == keys.len(),
            n == orig.len(),
            kv == key_views(keys@),
            rest.len() <= n,
            rest@ == orig.subrange(0, rest.len() as int),
            p.len() == n - rest.len(),
            idx.len() == p.len(),
            out.len() == p.len(),
            forall|k: int| 0 <= k < p.len() ==> #[trigger] idx@[k] as int == p[k],
            forall|k: int| 0 <= k < p.len() ==> rest.len() <= #[trigger] p[k] < n,
            p.no_duplicates(),
            out@ == permuted(orig, p),
            forall|a: int, b: int|
                0 <= a < b < p.len() ==> text_le(#[trigger] kv[p[a]], #[trigger] kv[p[b]]),
            forall|a: int, b: int|
                0 <= a < b < p.len() && kv[p[a]] == kv[p[b]] ==> #[trigger] p[a] < #[trigger] p[b],
        decreases rest.len(),
    {
        let x = rest.pop().unwrap();
        let i = rest.len();
        let ghost ki = kv[i as int];
        let mut pos: usize = 0;
        while pos < out.len() && !chars_le(&keys[i], &keys[idx[pos]])
            invariant
                n == keys.len(),
                kv == key_views(keys@),
                i < n,
                ki == kv[i as int],
                pos <= out.len(),
                idx.len() == p.len(),
                out.len() == p.len(),
                forall|k: int| 0 <= k < p.len() ==> #[trigger] idx@[k] as int == p[k],
                forall|k: int| 0 <= k < p.len() ==> i < #[trigger] p[k] < n,
                forall|k: int| 0 <= k < pos ==> text_le(#[trigger] kv[p[k]], ki) && kv[p[k]] != ki,
            decreases out.len() - pos,
        {
            proof {
                let kp = kv[p[pos as int]];
                assert(keys@[idx@[pos as int] as int]@ == kp);
                assert(keys@[i as int]@ == ki);
                lemma_text_le_total(ki, kp);
            }
            pos = pos + 1;
        }
        proof {
            if pos < out.len() {
                assert(keys@[idx@[pos as int] as int]@ == kv[p[pos as int]]);
                assert(keys@[i as int]@ == ki);
                assert(text_le(ki, kv[p[pos as int]]));
            }
        }
        let ghost old_p = p;
        let ghost old_out = out@;
        out.insert(pos, x);
        idx.insert(pos, i);
        proof {
            p = old_p.insert(pos as int, i as int);
            old_p.insert_ensures(pos as int, i as int);
            assert(out@ =~= permuted(orig, p)) by {
                assert forall|k: int| 0 <= k < p.len() implies out@[k] == orig[p[k]] by {
                    if k < pos {
                        assert(out@[k] == old_out[k]);
                    } else if k == pos {
                        assert(out@[k] == x);
                    } else {
                        assert(out@[k] == old_out[k - 1]);
                        assert(p[k] == old_p[k - 1]);
                    }
                }
            }
            assert(p.no_duplicates()) by {
                assert forall|a: int, b: int| 0 <= a < p.len() && 0 <= b < p.len() && a != b implies p[a] != p[b] by {
                    if a != pos && b != pos {
                        let a0 = if a < pos { a } else { a - 1 };
                        let b0 = if b < pos { b } else { b - 1 };
                        assert(p[a] == old_p[a0]);
                        assert(p[b] == old_p[b0]);
                    } else if a == pos {
                        let b0 = if b < pos { b } else { b - 1 };
                        assert(p[b] == old_p[b0]);
                    } else {
                        let a0 = if a < pos { a } else { a - 1 };
                        assert(p[a] == old_p[a0]);
                    }
                }
            }
            assert forall|a: int, b: int| 0 <= a < b < p.len() implies text_le(
                #[trigger] kv[p[a]],
                #[trigger] kv[p[b]],
            ) by {
                if b < pos {
                } else if a < pos && b == pos {
                } else if a < pos {
                    assert(p[b] == old_p[b - 1]);
                    if pos < old_p.len() {
                        assert(text_le(ki, kv[old_p[pos as int]]));
                        if b - 1 > pos {
                            assert(text_le(kv[old_p[pos as int]], kv[old_p[b - 1]]));
                            lemma_text_le_transitive(ki, kv[old_p[pos as int]], kv[old_p[b - 1]]);
                        }
                        lemma_text_le_transitive(kv[p[a]], ki, kv[p[b]]);
                    }
                } else if a == pos {
                    assert(p[b] == old_p[b - 1]);
                    assert(text_le(ki, kv[old_p[pos as int]]));
                    if b - 1 > pos {
                        assert(text_le(kv[old_p[pos as int]], kv[old_p[b - 1]]));
                        lemma_text_le_transitive(ki, kv[old_p[pos as int]], kv[old_p[b - 1]]);
                    }
                } else {
                    assert(p[a] == old_p[a - 1]);
                    assert(p[b] == old_p[b - 1]);
                }
            }
            assert forall|a: int, b: int|
                0 <= a < b < p.len() && kv[p[a]] == kv[p[b]] implies #[trigger] p[a] < #[trigger] p[b] by {
                if b < pos {
                } else if a < pos && b == pos {
                } else if a < pos {
                    assert(p[b] == old_p[b - 1]);
                } else if a == pos {
                    assert(p[b] == old_p[b - 1]);
                } else {
                    assert(p[a] == old_p[a - 1]);
                    assert(p[b] == old_p[b - 1]);
                }
            }
        }
    }
    proof {
        assert(stably_sorts(kv, p));
    }
    out
}

} // verus!
