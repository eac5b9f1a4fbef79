//! Small verified helpers on vectors of keys.
use vstd::prelude::*;
use std::collections::HashSet;
use vstd::std_specs::iter::IteratorSpec;
use crate::event::KeyCode;
use crate::mapping::remaps_view;
use crate::model::{distinct, without};

verus! {

/// `keys` is in ascending order.
pub open spec fn sorted(keys: Seq<KeyCode>) -> bool {
    forall|i: int, j: int| 0 <= i <= j < keys.len() ==> keys[i] <= keys[j]
}

/// `keys` is in ascending order and holds no key twice.
pub open spec fn strictly_sorted(keys: Seq<KeyCode>) -> bool {
    forall|i: int, j: int| 0 <= i < j < keys.len() ==> keys[i] < keys[j]
}

/// Whether `key` occurs in `keys`.
pub fn contains_key(keys: &Vec<KeyCode>, key: KeyCode) -> (found: bool)
    ensures
        found == keys@.contains(key),
{
    let mut i: usize = 0;
    while i < keys.len()
        invariant
            i <= keys.len(),
            forall|j: int| 0 <= j < i ==> keys@[j] != key,
        decreases keys.len() - i,
    {
        if keys[i] == key {
            return true;
        }
        i = i + 1;
    }
    false
}

/// A copy of `keys`.
pub fn copy_keys(keys: &Vec<KeyCode>) -> (copy: Vec<KeyCode>)
    ensures
        copy@ == keys@,
{
    let mut copy: Vec<KeyCode> = Vec::new();
    let mut i: usize = 0;
    while i < keys.len()
        invariant
            i <= keys.len(),
            copy@ == keys@.take(i as int),
        decreases keys.len() - i,
    {
        copy.push(keys[i]);
        i = i + 1;
    }
    assert(keys@.take(keys.len() as int) =~= keys@);
    copy
}

/// Whether the two vectors hold the same keys in the same order.
pub fn same_keys(a: &Vec<KeyCode>, b: &Vec<KeyCode>) -> (same: bool)
    ensures
        same == (a@ == b@),
{
    if a.len() != b.len() {
        return false;
    }
    let mut i: usize = 0;
    while i < a.len()
        invariant
            i <= a.len(),
            a.len() == b.len(),
            forall|j: int| 0 <= j < i ==> a@[j] == b@[j],
        decreases a.len() - i,
    {
        if a[i] != b[i] {
            return false;
        }
        i = i + 1;
    }
    assert(a@ =~= b@);
    true
}

/// `keys` without repetitions: of each key the first occurrence stays.
pub fn distinct_keys(keys: &Vec<KeyCode>) -> (out: Vec<KeyCode>)
    ensures
        out@ == distinct(keys@),
{
    let mut out: Vec<KeyCode> = Vec::new();
    let mut i: usize = 0;
    while i < keys.len()
        invariant
            i <= keys.len(),
            out@ == distinct(keys@.take(i as int)),
        decreases keys.len() - i,
    {
        let key = keys[i];
        assert(keys@.take(i + 1).drop_last() =~= keys@.take(i as int));
        if !contains_key(&out, key) {
            out.push(key);
        }
        i = i + 1;
    }
    assert(keys@.take(keys.len() as int) =~= keys@);
    out
}

/// The keys of `keys` that do not occur in `dropped`, in their order.
pub fn keys_without(keys: &Vec<KeyCode>, dropped: &Vec<KeyCode>) -> (out: Vec<KeyCode>)
    ensures
        out@ == without(keys@, dropped@),
{
    let mut out: Vec<KeyCode> = Vec::new();
    let mut i: usize = 0;
    while i < keys.len()
        invariant
            i <= keys.len(),
            out@ == without(keys@.take(i as int), dropped@),
        decreases keys.len() - i,
    {
        let key = keys[i];
        assert(keys@.take(i + 1).drop_last() =~= keys@.take(i as int));
        if !contains_key(dropped, key) {
            out.push(key);
        }
        i = i + 1;
    }
    assert(keys@.take(keys.len() as int) =~= keys@);
    out
}

/// Inserting `key` into a sorted sequence at the place where it belongs keeps the
/// sequence sorted and adds `key` to what it holds.
proof fn lemma_insert_sorted(keys: Seq<KeyCode>, at: int, key: KeyCode)
    requires
        sorted(keys),
        0 <= at <= keys.len(),
        forall|j: int| 0 <= j < at ==> keys[j] < key,
        forall|j: int| at <= j < keys.len() ==> key <= keys[j],
    ensures
        sorted(keys.insert(at, key)),
        keys.insert(at, key).to_set() == keys.to_set().insert(key),
        keys.insert(at, key).to_multiset() == keys.to_multiset().insert(key),
        strictly_sorted(keys) && !keys.contains(key) ==> strictly_sorted(keys.insert(at, key)),
{
    broadcast use vstd::seq_lib::to_multiset_insert;

    let after = keys.insert(at, key);
    assert forall|i: int, j: int| 0 <= i <= j < after.len() implies after[i] <= after[j] by {
        let a = if i < at {
            i
        } else {
            i - 1
        };
        let b = if j < at {
            j
        } else {
            j - 1
        };
        if i != at && j != at {
            assert(keys[a] <= keys[b]);
        }
    }
    assert forall|x: KeyCode| after.to_set().contains(x) == keys.to_set().insert(key).contains(
        x,
    ) by {
        if after.contains(x) {
            let i = choose|i: int| 0 <= i < after.len() && after[i] == x;
            if i < at {
                assert(keys[i] == x);
            } else if i > at {
                assert(keys[i - 1] == x);
            }
        }
        if keys.contains(x) {
            let j = choose|j: int| 0 <= j < keys.len() && keys[j] == x;
            if j < at {
                assert(after[j] == x);
            } else {
                assert(after[j + 1] == x);
            }
        }
        if x == key {
            assert(after[at] == x);
        }
    }
    assert(after.to_set() =~= keys.to_set().insert(key));
    if strictly_sorted(keys) && !keys.contains(key) {
        assert forall|i: int, j: int| 0 <= i < j < after.len() implies after[i] < after[j] by {
            let a = if i < at {
                i
            } else {
                i - 1
            };
            let b = if j < at {
                j
            } else {
                j - 1
            };
            if i != at && j != at {
                assert(keys[a] < keys[b]);
            } else if i == at {
                assert(keys[b] == after[j]);
                assert(keys.contains(keys[b]));
            }
        }
    }
}

/// The key at place `i` of a strictly sorted sequence is at least `i`.
proof fn lemma_strictly_sorted_floor(keys: Seq<KeyCode>, i: int)
    requires
        strictly_sorted(keys),
        0 <= i < keys.len(),
    ensures
        keys[i] >= i,
    decreases i,
{
    if i > 0 {
        lemma_strictly_sorted_floor(keys, i - 1);
        assert(keys[i - 1] < keys[i]);
    }
}

/// A strictly sorted sequence of keys is no longer than there are keys.
pub proof fn lemma_strictly_sorted_len(keys: Seq<KeyCode>)
    requires
        strictly_sorted(keys),
    ensures
        keys.len() <= 0x1_0000,
{
    if keys.len() > 0 {
        lemma_strictly_sorted_floor(keys, keys.len() - 1);
    }
}

/// The keys of `keys` in ascending order: the same keys, each as often as before.
pub fn vec_into_sorted(keys: Vec<KeyCode>) -> (out: Vec<KeyCode>)
    ensures
        sorted(out@),
        out@.to_multiset() == keys@.to_multiset(),
        out@.len() == keys@.len(),
        out@.to_set() == keys@.to_set(),
        keys@.no_duplicates() ==> strictly_sorted(out@),
{
    let mut out: Vec<KeyCode> = Vec::new();
    let mut i: usize = 0;
    assert(out@.to_set() =~= keys@.take(0).to_set());
    assert(out@ =~= keys@.take(0));
    while i < keys.len()
        invariant
            i <= keys.len(),
            sorted(out@),
            out@.len() == i,
            out@.to_set() == keys@.take(i as int).to_set(),
            out@.to_multiset() == keys@.take(i as int).to_multiset(),
            keys@.no_duplicates() ==> strictly_sorted(out@),
        decreases keys.len() - i,
    {
        let key = keys[i];
        let mut at: usize = 0;
        while at < out.len() && out[at] < key
            invariant
                at <= out.len(),
                sorted(out@),
                forall|j: int| 0 <= j < at ==> out@[j] < key,
            decreases out.len() - at,
        {
            at = at + 1;
        }
        proof {
            let seen = keys@.take(i as int);
            let next = keys@.take(i + 1);
            lemma_insert_sorted(out@, at as int, key);
            assert(next =~= seen.push(key));
            vstd::seq_lib::to_multiset_build(seen, key);
            assert forall|x: KeyCode| next.to_set().contains(x) == seen.to_set().insert(
                key,
            ).contains(x) by {
                if next.contains(x) {
                    let j = choose|j: int| 0 <= j < next.len() && next[j] == x;
                    if j < i {
                        assert(seen[j] == x);
                    }
                }
                if seen.contains(x) {
                    let j = choose|j: int| 0 <= j < seen.len() && seen[j] == x;
                    assert(next[j] == x);
                }
                if x == key {
                    assert(next[i as int] == x);
                }
            }
            assert(next.to_set() =~= seen.to_set().insert(key));
            if keys@.no_duplicates() && out@.contains(key) {
                assert(seen.to_set().contains(key));
                let j = choose|j: int| 0 <= j < seen.len() && seen[j] == key;
                assert(keys@[j] == keys@[i as int]);
            }
        }
        out.insert(at, key);
        i = i + 1;
    }
    assert(keys@.take(keys.len() as int) =~= keys@);
    out
}

/// The keys of `set`, each once, in the order in which the set hands them out.
pub fn keys_of_set(set: &HashSet<KeyCode>) -> (keys: Vec<KeyCode>)
    ensures
        keys@.to_set() == set@,
        keys@.no_duplicates(),
{
    broadcast use vstd::std_specs::hash::group_hash_axioms;

    let mut keys: Vec<KeyCode> = Vec::new();
    for key in it: set.iter()
        invariant
            it.seq() == set.iter().remaining(),
            keys@ == it.seq().take(it.index() as int).unref(),
    {
        keys.push(*key);
    }
    proof {
        let all = set.iter().remaining();
        assert(all.take(all.len() as int) =~= all);
    }
    keys
}

/// A copy of the remap table `table`.
pub fn copy_table(table: &Vec<(KeyCode, Vec<KeyCode>)>) -> (copy: Vec<(KeyCode, Vec<KeyCode>)>)
    ensures
        remaps_view(copy@) == remaps_view(table@),
{
    let mut copy: Vec<(KeyCode, Vec<KeyCode>)> = Vec::new();
    let mut i: usize = 0;
    while i < table.len()
        invariant
            i <= table.len(),
            remaps_view(copy@) == remaps_view(table@).take(i as int),
        decreases table.len() - i,
    {
        let ghost before = remaps_view(copy@);
        copy.push((table[i].0, copy_keys(&table[i].1)));
        assert(remaps_view(copy@) =~= before.push(remaps_view(table@)[i as int]));
        assert(remaps_view(table@).take(i + 1) =~= remaps_view(table@).take(i as int).push(
            remaps_view(table@)[i as int],
        ));
        i = i + 1;
    }
    assert(remaps_view(table@).take(table.len() as int) =~= remaps_view(table@));
    copy
}

} // verus!
