//! The rule compiler: from the rules of the user to the machine with its index.
use vstd::prelude::*;
use std::collections::HashMap;
use crate::cond_bits::CondBits;
use crate::event::KeyCode;
use crate::mapping::{Mapping, mappings_view, remaps_view};
use crate::util::{
    copy_table,
    keys_of_set,
    lemma_strictly_sorted_len,
    same_keys,
    strictly_sorted,
    vec_into_sorted,
};
use super::{
    CondBitRef,
    GuardKey,
    KeyEntry,
    RemapRule,
    StateMachine,
    before,
    bit_ref,
    bits_ok,
    conds_complete,
    entry_sound,
    excepts_complete,
    index_sound,
    names_cond,
    names_except,
    rules_ok,
    triggers_complete,
};

verus! {

broadcast use vstd::std_specs::hash::group_hash_axioms;

/// Whether a rule before rule `r` needs guard `g`.
spec fn needed_before(rules: Seq<RemapRule>, r: int, g: int) -> bool {
    exists|q: int| 0 <= q < r && (#[trigger] rules[q]).cond_bits == g
}

/// The guards, bitmaps and rules are what compiling the first `n` of `source` gives.
spec fn compiled_upto(
    guard_keys: Seq<GuardKey>,
    cond_bits: Seq<CondBits>,
    rules: Seq<RemapRule>,
    source: Seq<Mapping>,
    n: int,
) -> bool {
    &&& rules.len() == n
    &&& rules_ok(guard_keys, rules)
    &&& bits_ok(guard_keys, cond_bits)
    &&& forall|r: int|
        0 <= r < n ==> {
            &&& (#[trigger] rules[r]).when@.no_duplicates()
            &&& rules[r].when@.to_set() == source[r]@.when
            &&& remaps_view(rules[r].mappings@) == source[r]@.mappings
            &&& guard_keys[rules[r].cond_bits as int].cond@.to_set() == source[r]@.cond
            &&& guard_keys[rules[r].cond_bits as int].except@.to_set() == source[r]@.except
        }
    &&& forall|r: int, g: int|
        0 <= r < n && 0 <= g < rules[r].cond_bits ==> #[trigger] needed_before(rules, r, g)
    &&& forall|g: int|
        0 <= g < guard_keys.len() ==> {
            &&& strictly_sorted((#[trigger] guard_keys[g]).cond@)
            &&& strictly_sorted(guard_keys[g].except@)
            &&& cond_bits[g]@ == crate::cond_bits::leading_ones(
                guard_keys[g].cond@.len(),
                guard_keys[g].cond@.len() + guard_keys[g].except@.len(),
            )
            &&& exists|r: int| 0 <= r < n && (#[trigger] rules[r]).cond_bits == g
        }
    &&& forall|g: int, h: int|
        0 <= g < h < guard_keys.len() ==> !((#[trigger] guard_keys[g]).cond@ == (
        #[trigger] guard_keys[h]).cond@ && guard_keys[g].except@ == guard_keys[h].except@)
}

/// The place in the pool of the guard with the given literals, if there is one.
fn find_guard(guard_keys: &Vec<GuardKey>, cond: &Vec<KeyCode>, except: &Vec<KeyCode>) -> (found:
    Option<usize>)
    ensures
        match found {
            Some(g) => g < guard_keys@.len() && guard_keys@[g as int].cond@ == cond@
                && guard_keys@[g as int].except@ == except@,
            None => forall|g: int|
                0 <= g < guard_keys@.len() ==> !((#[trigger] guard_keys@[g]).cond@ == cond@
                    && guard_keys@[g].except@ == except@),
        },
{
    let mut g: usize = 0;
    while g < guard_keys.len()
        invariant
            g <= guard_keys.len(),
            forall|h: int|
                0 <= h < g ==> !((#[trigger] guard_keys@[h]).cond@ == cond@
                    && guard_keys@[h].except@ == except@),
        decreases guard_keys.len() - g,
    {
        if same_keys(&guard_keys[g].cond, cond) && same_keys(&guard_keys[g].except, except) {
            return Some(g);
        }
        g = g + 1;
    }
    None
}

/// Compiles the rules: one compiled rule for each, and one guard with a fresh bitmap
/// for each pair of `cond` and `except` keys that occurs.
fn compile_rules(source: &[Mapping]) -> (r: (Vec<GuardKey>, Vec<CondBits>, Vec<RemapRule>))
    ensures
        compiled_upto(r.0@, r.1@, r.2@, source@, source@.len() as int),
{
    let mut guard_keys: Vec<GuardKey> = Vec::new();
    let mut cond_bits: Vec<CondBits> = Vec::new();
    let mut rules: Vec<RemapRule> = Vec::new();
    let mut n: usize = 0;
    while n < source.len()
        invariant
            n <= source.len(),
            compiled_upto(guard_keys@, cond_bits@, rules@, source@, n as int),
        decreases source.len() - n,
    {
        match &source[n] {
            Mapping::Remap { cond, except, when: triggers, mappings } => {
                let cond_keys = vec_into_sorted(keys_of_set(cond));
                let except_keys = vec_into_sorted(keys_of_set(except));
                let when_keys = keys_of_set(triggers);
                let table = copy_table(mappings);
                let ghost old_keys = guard_keys@;
                let ghost old_bits = cond_bits@;
                let ghost old_rules = rules@;
                proof {
                    lemma_strictly_sorted_len(cond_keys@);
                    lemma_strictly_sorted_len(except_keys@);
                }
                let g: usize = match find_guard(&guard_keys, &cond_keys, &except_keys) {
                    Some(g) => g,
                    None => {
                        let bits = CondBits::new(
                            cond_keys.len(),
                            cond_keys.len() + except_keys.len(),
                        );
                        guard_keys.push(GuardKey { cond: cond_keys, except: except_keys });
                        cond_bits.push(bits);
                        guard_keys.len() - 1
                    },
                };
                rules.push(RemapRule { cond_bits: g, when: when_keys, mappings: table });
                proof {
                    let keys = guard_keys@;
                    assert forall|r: int| 0 <= r < n + 1 implies {
                        &&& (#[trigger] rules@[r]).when@.no_duplicates()
                        &&& rules@[r].when@.to_set() == source@[r]@.when
                        &&& remaps_view(rules@[r].mappings@) == source@[r]@.mappings
                        &&& keys[rules@[r].cond_bits as int].cond@.to_set() == source@[r]@.cond
                        &&& keys[rules@[r].cond_bits as int].except@.to_set()
                            == source@[r]@.except
                    } by {
                        if r < n {
                            assert(rules@[r] == old_rules[r]);
                            assert(keys[old_rules[r].cond_bits as int]
                                == old_keys[old_rules[r].cond_bits as int]);
                        }
                    }
                    assert forall|r: int, h: int|
                        0 <= r < n + 1 && 0 <= h < rules@[r].cond_bits implies #[trigger] needed_before(
                        rules@,
                        r,
                        h,
                    ) by {
                        if r < n {
                            assert(rules@[r] == old_rules[r]);
                            assert(needed_before(old_rules, r, h));
                            let q = choose|q: int|
                                0 <= q < r && (#[trigger] old_rules[q]).cond_bits == h;
                            assert(rules@[q].cond_bits == h);
                        } else {
                            assert(h < old_keys.len());
                            assert(strictly_sorted(old_keys[h].cond@));
                            let q = choose|q: int|
                                0 <= q < n && (#[trigger] old_rules[q]).cond_bits == h;
                            assert(rules@[q] == old_rules[q]);
                        }
                    }
                    assert forall|h: int| 0 <= h < keys.len() implies {
                        &&& strictly_sorted((#[trigger] keys[h]).cond@)
                        &&& strictly_sorted(keys[h].except@)
                        &&& cond_bits@[h]@ == crate::cond_bits::leading_ones(
                            keys[h].cond@.len(),
                            keys[h].cond@.len() + keys[h].except@.len(),
                        )
                        &&& exists|r: int| 0 <= r < n + 1 && (#[trigger] rules@[r]).cond_bits == h
                    } by {
                        if h < old_keys.len() {
                            assert(keys[h] == old_keys[h]);
                            assert(cond_bits@[h] == old_bits[h]);
                            let r = choose|r: int|
                                0 <= r < n && (#[trigger] old_rules[r]).cond_bits == h;
                            assert(rules@[r].cond_bits == h);
                        } else {
                            assert(rules@[n as int].cond_bits == h);
                        }
                    }
                    assert forall|a: int, b: int| 0 <= a < b < keys.len() implies !((
                    #[trigger] keys[a]).cond@ == (#[trigger] keys[b]).cond@ && keys[a].except@
                        == keys[b].except@) by {
                        assert(keys[a] == old_keys[a]);
                        if b < old_keys.len() {
                            assert(keys[b] == old_keys[b]);
                        }
                    }
                    assert forall|h: int| 0 <= h < cond_bits@.len() implies {
                        &&& (#[trigger] cond_bits@[h]).wf()
                        &&& cond_bits@[h]@.len() == keys[h].cond@.len() + keys[h].except@.len()
                    } by {
                        if h < old_keys.len() {
                            assert(keys[h] == old_keys[h]);
                            assert(cond_bits@[h] == old_bits[h]);
                        }
                    }
                    assert forall|r: int| 0 <= r < rules@.len() implies (
                    #[trigger] rules@[r]).cond_bits < keys.len() by {
                        if r < n {
                            assert(rules@[r] == old_rules[r]);
                        }
                    }
                    assert forall|h: int| 0 <= h < keys.len() implies (#[trigger] keys[h]).cond@.len()
                        + keys[h].except@.len() <= usize::MAX by {
                        if h < old_keys.len() {
                            assert(keys[h] == old_keys[h]);
                        }
                    }
                }
            },
        }
        n = n + 1;
    }
    (guard_keys, cond_bits, rules)
}

/// The entry of `key`, taken out of the index; an empty entry where it has none.
fn take_entry(key_map: &mut HashMap<KeyCode, KeyEntry>, key: KeyCode) -> (e: KeyEntry)
    ensures
        final(key_map)@ == old(key_map)@.remove(key),
        old(key_map)@.contains_key(key) ==> e == old(key_map)@[key],
        !old(key_map)@.contains_key(key) ==> e.cond_set@.len() == 0 && e.cond_unset@.len() == 0
            && e.trigger@.len() == 0,
{
    match key_map.remove(&key) {
        Some(e) => e,
        None => KeyEntry { cond_set: Vec::new(), cond_unset: Vec::new(), trigger: Vec::new() },
    }
}

/// The entry `new_e` holds what `old_e` holds, in the same places, and maybe more.
spec fn extends(old_e: KeyEntry, new_e: KeyEntry) -> bool {
    &&& old_e.cond_set@.is_prefix_of(new_e.cond_set@)
    &&& old_e.cond_unset@.is_prefix_of(new_e.cond_unset@)
    &&& old_e.trigger@.is_prefix_of(new_e.trigger@)
}

/// An element of a prefix is an element of the whole.
proof fn lemma_prefix_contains<A>(front: Seq<A>, whole: Seq<A>, x: A)
    requires
        front.is_prefix_of(whole),
        front.contains(x),
    ensures
        whole.contains(x),
{
    let i = choose|i: int| 0 <= i < front.len() && front[i] == x;
    assert(whole[i] == x);
}

/// Putting a sound entry that extends the old one in place of it keeps the index sound
/// and keeps what the index was complete for.
proof fn lemma_index_grows(
    guard_keys: Seq<GuardKey>,
    rules: Seq<RemapRule>,
    m: Map<KeyCode, KeyEntry>,
    key: KeyCode,
    e: KeyEntry,
    cg: int,
    ci: int,
    eg: int,
    ei: int,
    tr: int,
    tw: int,
)
    requires
        index_sound(guard_keys, rules, m),
        entry_sound(guard_keys, rules, key, e),
        m.contains_key(key) ==> extends(m[key], e),
    ensures
        index_sound(guard_keys, rules, m.insert(key, e)),
        conds_complete(guard_keys, m, cg, ci) ==> conds_complete(
            guard_keys,
            m.insert(key, e),
            cg,
            ci,
        ),
        excepts_complete(guard_keys, m, eg, ei) ==> excepts_complete(
            guard_keys,
            m.insert(key, e),
            eg,
            ei,
        ),
        triggers_complete(rules, m, tr, tw) ==> triggers_complete(rules, m.insert(key, e), tr, tw),
{
    let m2 = m.insert(key, e);
    assert forall|k: KeyCode| #[trigger] m2.contains_key(k) implies entry_sound(
        guard_keys,
        rules,
        k,
        m2[k],
    ) by {
        if k != key {
            assert(m.contains_key(k));
        }
    }
    if conds_complete(guard_keys, m, cg, ci) {
        assert forall|g: int, i: int|
            #![trigger guard_keys[g].cond@[i]]
            0 <= g < guard_keys.len() && 0 <= i < guard_keys[g].cond@.len() && before(
                g,
                i,
                cg,
                ci,
            ) implies m2.contains_key(guard_keys[g].cond@[i]) && m2[guard_keys[g].cond@[i]].cond_set@.contains(
        bit_ref(g, i)) by {
            let k = guard_keys[g].cond@[i];
            if k == key {
                lemma_prefix_contains(m[key].cond_set@, e.cond_set@, bit_ref(g, i));
            }
        }
    }
    if excepts_complete(guard_keys, m, eg, ei) {
        assert forall|g: int, i: int|
            #![trigger guard_keys[g].except@[i]]
            0 <= g < guard_keys.len() && 0 <= i < guard_keys[g].except@.len() && before(
                g,
                i,
                eg,
                ei,
            ) implies m2.contains_key(guard_keys[g].except@[i])
            && m2[guard_keys[g].except@[i]].cond_unset@.contains(
            bit_ref(g, guard_keys[g].cond@.len() + i),
        ) by {
            let k = guard_keys[g].except@[i];
            if k == key {
                lemma_prefix_contains(
                    m[key].cond_unset@,
                    e.cond_unset@,
                    bit_ref(g, guard_keys[g].cond@.len() + i),
                );
            }
        }
    }
    if triggers_complete(rules, m, tr, tw) {
        assert forall|r: int, w: int|
            #![trigger rules[r].when@[w]]
            0 <= r < rules.len() && 0 <= w < rules[r].when@.len() && before(
                r,
                w,
                tr,
                tw,
            ) implies m2.contains_key(rules[r].when@[w]) && m2[rules[r].when@[w]].trigger@.contains(
        r as usize) by {
            let k = rules[r].when@[w];
            if k == key {
                lemma_prefix_contains(m[key].trigger@, e.trigger@, r as usize);
            }
        }
    }
}

/// Every reference to a `cond` literal in the index comes before place `(to_g, to_i)`.
spec fn conds_before(key_map: Map<KeyCode, KeyEntry>, to_g: int, to_i: int) -> bool {
    forall|key: KeyCode, j: int|
        #![trigger key_map[key].cond_set@[j]]
        key_map.contains_key(key) && 0 <= j < key_map[key].cond_set@.len() ==> before(
            key_map[key].cond_set@[j].cb as int,
            key_map[key].cond_set@[j].i as int,
            to_g,
            to_i,
        )
}

/// Every reference to an `except` literal in the index comes before place
/// `(to_g, to_i)`.
spec fn unsets_before(key_map: Map<KeyCode, KeyEntry>, to_g: int, to_i: int) -> bool {
    forall|key: KeyCode, j: int|
        #![trigger key_map[key].cond_unset@[j]]
        key_map.contains_key(key) && 0 <= j < key_map[key].cond_unset@.len() ==> before(
            key_map[key].cond_unset@[j].cb as int,
            key_map[key].cond_unset@[j].i as int,
            to_g,
            to_i,
        )
}

/// No entry of the index names a rule.
spec fn no_triggers(key_map: Map<KeyCode, KeyEntry>) -> bool {
    forall|key: KeyCode| #[trigger] key_map.contains_key(key) ==> key_map[key].trigger@.len() == 0
}

/// Enters the `cond` literals of every guard into the index.
fn index_conds(
    guard_keys: &Vec<GuardKey>,
    rules: &Vec<RemapRule>,
    key_map: &mut HashMap<KeyCode, KeyEntry>,
)
    requires
        rules_ok(guard_keys@, rules@),
        index_sound(guard_keys@, rules@, old(key_map)@),
        no_triggers(old(key_map)@),
        conds_before(old(key_map)@, 0, 0),
        unsets_before(old(key_map)@, 0, 0),
    ensures
        unsets_before(final(key_map)@, 0, 0),
        index_sound(guard_keys@, rules@, final(key_map)@),
        no_triggers(final(key_map)@),
        conds_complete(guard_keys@, final(key_map)@, guard_keys@.len() as int, 0),
{
    let mut g: usize = 0;
    while g < guard_keys.len()
        invariant
            g <= guard_keys.len(),
            rules_ok(guard_keys@, rules@),
            index_sound(guard_keys@, rules@, key_map@),
            no_triggers(key_map@),
            conds_complete(guard_keys@, key_map@, g as int, 0),
            conds_before(key_map@, g as int, 0),
            unsets_before(key_map@, 0, 0),
        decreases guard_keys.len() - g,
    {
        let cond = &guard_keys[g].cond;
        let mut i: usize = 0;
        while i < cond.len()
            invariant
                g < guard_keys.len(),
                i <= cond.len(),
                *cond == guard_keys@[g as int].cond,
                rules_ok(guard_keys@, rules@),
                index_sound(guard_keys@, rules@, key_map@),
                no_triggers(key_map@),
                conds_complete(guard_keys@, key_map@, g as int, i as int),
                conds_before(key_map@, g as int, i as int),
                unsets_before(key_map@, 0, 0),
            decreases cond.len() - i,
        {
            let key = cond[i];
            let ghost m0 = key_map@;
            let mut e = take_entry(key_map, key);
            let ghost e0 = e;
            let at = CondBitRef { cb: g, i };
            e.cond_set.push(at);
            let ghost e1 = e;
            key_map.insert(key, e);
            proof {
                assert(key_map@ =~= m0.insert(key, e1));
                assert(names_cond(guard_keys@, CondBitRef { cb: g, i }, key));
                if m0.contains_key(key) {
                    assert(entry_sound(guard_keys@, rules@, key, e0));
                }
                assert forall|j: int| 0 <= j < e0.cond_set@.len() implies e0.cond_set@[j]
                    != at by {
                    assert(m0[key].cond_set@[j] == e0.cond_set@[j]);
                }
                assert(entry_sound(guard_keys@, rules@, key, e1)) by {
                    assert forall|j: int| 0 <= j < e1.cond_set@.len() implies names_cond(
                        guard_keys@,
                        #[trigger] e1.cond_set@[j],
                        key,
                    ) by {
                        if j < e0.cond_set@.len() {
                            assert(e1.cond_set@[j] == e0.cond_set@[j]);
                        }
                    }
                    assert(e1.cond_set@ =~= e0.cond_set@.push(at));
                    assert(e1.cond_set@.no_duplicates()) by {
                        assert forall|a: int, b: int|
                            0 <= a < e1.cond_set@.len() && 0 <= b < e1.cond_set@.len() && a
                                != b implies e1.cond_set@[a] != e1.cond_set@[b] by {
                            if a < e0.cond_set@.len() && b < e0.cond_set@.len() {
                                assert(e0.cond_set@[a] != e0.cond_set@[b]);
                            }
                        }
                    }
                }
                assert(unsets_before(key_map@, 0, 0)) by {
                    assert forall|k: KeyCode, j: int|
                        #![trigger key_map@[k].cond_unset@[j]]
                        key_map@.contains_key(k) && 0 <= j < key_map@[k].cond_unset@.len() implies before(
                        key_map@[k].cond_unset@[j].cb as int,
                        key_map@[k].cond_unset@[j].i as int,
                        0,
                        0,
                    ) by {
                        if k == key {
                            if m0.contains_key(key) {
                                assert(m0[k].cond_unset@[j] == key_map@[k].cond_unset@[j]);
                            }
                        } else {
                            assert(m0.contains_key(k));
                            assert(m0[k].cond_unset@[j] == key_map@[k].cond_unset@[j]);
                        }
                    }
                }
                assert(conds_before(key_map@, g as int, i + 1)) by {
                    assert forall|k: KeyCode, j: int|
                        #![trigger key_map@[k].cond_set@[j]]
                        key_map@.contains_key(k) && 0 <= j < key_map@[k].cond_set@.len() implies before(
                        key_map@[k].cond_set@[j].cb as int,
                        key_map@[k].cond_set@[j].i as int,
                        g as int,
                        i + 1,
                    ) by {
                        if k == key {
                            if j < e0.cond_set@.len() {
                                assert(m0[k].cond_set@[j] == key_map@[k].cond_set@[j]);
                            }
                        } else {
                            assert(m0.contains_key(k));
                            assert(m0[k].cond_set@[j] == key_map@[k].cond_set@[j]);
                        }
                    }
                }
                lemma_index_grows(guard_keys@, rules@, m0, key, e1, g as int, i as int, 0, 0, 0, 0);
                assert(e1.cond_set@[e1.cond_set@.len() - 1] == bit_ref(g as int, i as int));
                assert(conds_complete(guard_keys@, key_map@, g as int, i + 1)) by {
                    assert forall|h: int, j: int|
                        #![trigger guard_keys@[h].cond@[j]]
                        0 <= h < guard_keys@.len() && 0 <= j < guard_keys@[h].cond@.len()
                            && before(h, j, g as int, i + 1) implies key_map@.contains_key(
                        guard_keys@[h].cond@[j],
                    ) && key_map@[guard_keys@[h].cond@[j]].cond_set@.contains(bit_ref(h, j)) by {
                        if before(h, j, g as int, i as int) {
                        } else {
                            assert(h == g && j == i);
                        }
                    }
                }
            }
            i = i + 1;
        }
        proof {
            assert(conds_before(key_map@, g + 1, 0)) by {
                assert forall|k: KeyCode, j: int|
                    #![trigger key_map@[k].cond_set@[j]]
                    key_map@.contains_key(k) && 0 <= j < key_map@[k].cond_set@.len() implies before(
                    key_map@[k].cond_set@[j].cb as int,
                    key_map@[k].cond_set@[j].i as int,
                    g + 1,
                    0,
                ) by {
                    assert(before(
                        key_map@[k].cond_set@[j].cb as int,
                        key_map@[k].cond_set@[j].i as int,
                        g as int,
                        i as int,
                    ));
                }
            }
        }
        g = g + 1;
    }
}

/// Enters the `except` literals of every guard into the index.
fn index_excepts(
    guard_keys: &Vec<GuardKey>,
    rules: &Vec<RemapRule>,
    key_map: &mut HashMap<KeyCode, KeyEntry>,
)
    requires
        rules_ok(guard_keys@, rules@),
        index_sound(guard_keys@, rules@, old(key_map)@),
        no_triggers(old(key_map)@),
        conds_complete(guard_keys@, old(key_map)@, guard_keys@.len() as int, 0),
        unsets_before(old(key_map)@, 0, 0),
    ensures
        index_sound(guard_keys@, rules@, final(key_map)@),
        no_triggers(final(key_map)@),
        conds_complete(guard_keys@, final(key_map)@, guard_keys@.len() as int, 0),
        excepts_complete(guard_keys@, final(key_map)@, guard_keys@.len() as int, 0),
{
    let ghost all = guard_keys@.len() as int;
    let mut g: usize = 0;
    while g < guard_keys.len()
        invariant
            g <= guard_keys.len(),
            all == guard_keys@.len(),
            rules_ok(guard_keys@, rules@),
            index_sound(guard_keys@, rules@, key_map@),
            no_triggers(key_map@),
            conds_complete(guard_keys@, key_map@, all, 0),
            excepts_complete(guard_keys@, key_map@, g as int, 0),
            unsets_before(key_map@, g as int, 0),
        decreases guard_keys.len() - g,
    {
        let except = &guard_keys[g].except;
        let offset: usize = guard_keys[g].cond.len();
        let mut i: usize = 0;
        while i < except.len()
            invariant
                g < guard_keys.len(),
                i <= except.len(),
                all == guard_keys@.len(),
                *except == guard_keys@[g as int].except,
                offset == guard_keys@[g as int].cond@.len(),
                rules_ok(guard_keys@, rules@),
                index_sound(guard_keys@, rules@, key_map@),
                no_triggers(key_map@),
                conds_complete(guard_keys@, key_map@, all, 0),
                excepts_complete(guard_keys@, key_map@, g as int, i as int),
                unsets_before(key_map@, g as int, offset + i),
            decreases except.len() - i,
        {
            let key = except[i];
            let ghost m0 = key_map@;
            let mut e = take_entry(key_map, key);
            let ghost e0 = e;
            let at = CondBitRef { cb: g, i: offset + i };
            e.cond_unset.push(at);
            let ghost e1 = e;
            key_map.insert(key, e);
            proof {
                assert(key_map@ =~= m0.insert(key, e1));
                assert(names_except(guard_keys@, at, key));
                if m0.contains_key(key) {
                    assert(entry_sound(guard_keys@, rules@, key, e0));
                }
                assert forall|j: int| 0 <= j < e0.cond_unset@.len() implies e0.cond_unset@[j]
                    != at by {
                    assert(m0[key].cond_unset@[j] == e0.cond_unset@[j]);
                }
                assert(entry_sound(guard_keys@, rules@, key, e1)) by {
                    assert forall|j: int| 0 <= j < e1.cond_unset@.len() implies names_except(
                        guard_keys@,
                        #[trigger] e1.cond_unset@[j],
                        key,
                    ) by {
                        if j < e0.cond_unset@.len() {
                            assert(e1.cond_unset@[j] == e0.cond_unset@[j]);
                        }
                    }
                    assert(e1.cond_unset@ =~= e0.cond_unset@.push(at));
                    assert(e1.cond_unset@.no_duplicates()) by {
                        assert forall|a: int, b: int|
                            0 <= a < e1.cond_unset@.len() && 0 <= b < e1.cond_unset@.len() && a
                                != b implies e1.cond_unset@[a] != e1.cond_unset@[b] by {
                            if a < e0.cond_unset@.len() && b < e0.cond_unset@.len() {
                                assert(e0.cond_unset@[a] != e0.cond_unset@[b]);
                            }
                        }
                    }
                }
                assert(unsets_before(key_map@, g as int, offset + i + 1)) by {
                    assert forall|k: KeyCode, j: int|
                        #![trigger key_map@[k].cond_unset@[j]]
                        key_map@.contains_key(k) && 0 <= j < key_map@[k].cond_unset@.len() implies before(
                        key_map@[k].cond_unset@[j].cb as int,
                        key_map@[k].cond_unset@[j].i as int,
                        g as int,
                        offset + i + 1,
                    ) by {
                        if k == key {
                            if j < e0.cond_unset@.len() {
                                assert(m0[k].cond_unset@[j] == key_map@[k].cond_unset@[j]);
                            }
                        } else {
                            assert(m0.contains_key(k));
                            assert(m0[k].cond_unset@[j] == key_map@[k].cond_unset@[j]);
                        }
                    }
                }
                lemma_index_grows(
                    guard_keys@,
                    rules@,
                    m0,
                    key,
                    e1,
                    all,
                    0,
                    g as int,
                    i as int,
                    0,
                    0,
                );
                assert(e1.cond_unset@[e1.cond_unset@.len() - 1] == bit_ref(g as int, offset + i));
                assert(excepts_complete(guard_keys@, key_map@, g as int, i + 1)) by {
                    assert forall|h: int, j: int|
                        #![trigger guard_keys@[h].except@[j]]
                        0 <= h < guard_keys@.len() && 0 <= j < guard_keys@[h].except@.len()
                            && before(h, j, g as int, i + 1) implies key_map@.contains_key(
                        guard_keys@[h].except@[j],
                    ) && key_map@[guard_keys@[h].except@[j]].cond_unset@.contains(
                        bit_ref(h, guard_keys@[h].cond@.len() + j),
                    ) by {
                        if before(h, j, g as int, i as int) {
                        } else {
                            assert(h == g && j == i);
                        }
                    }
                }
            }
            i = i + 1;
        }
        proof {
            assert(unsets_before(key_map@, g + 1, 0)) by {
                assert forall|k: KeyCode, j: int|
                    #![trigger key_map@[k].cond_unset@[j]]
                    key_map@.contains_key(k) && 0 <= j < key_map@[k].cond_unset@.len() implies before(
                    key_map@[k].cond_unset@[j].cb as int,
                    key_map@[k].cond_unset@[j].i as int,
                    g + 1,
                    0,
                ) by {
                    assert(before(
                        key_map@[k].cond_unset@[j].cb as int,
                        key_map@[k].cond_unset@[j].i as int,
                        g as int,
                        offset + i,
                    ));
                }
            }
        }
        g = g + 1;
    }
}

/// Every rule that the index names comes before rule `r`, or is rule `r` and is named
/// for one of its first `w` triggers.
spec fn triggers_before(
    rules: Seq<RemapRule>,
    key_map: Map<KeyCode, KeyEntry>,
    r: int,
    w: int,
) -> bool {
    forall|key: KeyCode, j: int|
        #![trigger key_map[key].trigger@[j]]
        key_map.contains_key(key) && 0 <= j < key_map[key].trigger@.len() ==> {
            ||| key_map[key].trigger@[j] < r
            ||| key_map[key].trigger@[j] == r && rules[r].when@.take(w).contains(key)
        }
}

/// Enters the triggers of every rule into the index.
fn index_triggers(
    guard_keys: &Vec<GuardKey>,
    rules: &Vec<RemapRule>,
    key_map: &mut HashMap<KeyCode, KeyEntry>,
)
    requires
        rules_ok(guard_keys@, rules@),
        forall|r: int| 0 <= r < rules@.len() ==> (#[trigger] rules@[r]).when@.no_duplicates(),
        index_sound(guard_keys@, rules@, old(key_map)@),
        no_triggers(old(key_map)@),
        conds_complete(guard_keys@, old(key_map)@, guard_keys@.len() as int, 0),
        excepts_complete(guard_keys@, old(key_map)@, guard_keys@.len() as int, 0),
    ensures
        index_sound(guard_keys@, rules@, final(key_map)@),
        conds_complete(guard_keys@, final(key_map)@, guard_keys@.len() as int, 0),
        excepts_complete(guard_keys@, final(key_map)@, guard_keys@.len() as int, 0),
        triggers_complete(rules@, final(key_map)@, rules@.len() as int, 0),
{
    let ghost all = guard_keys@.len() as int;
    let mut r: usize = 0;
    while r < rules.len()
        invariant
            r <= rules.len(),
            all == guard_keys@.len(),
            rules_ok(guard_keys@, rules@),
            forall|q: int| 0 <= q < rules@.len() ==> (#[trigger] rules@[q]).when@.no_duplicates(),
            index_sound(guard_keys@, rules@, key_map@),
            conds_complete(guard_keys@, key_map@, all, 0),
            excepts_complete(guard_keys@, key_map@, all, 0),
            triggers_complete(rules@, key_map@, r as int, 0),
            triggers_before(rules@, key_map@, r as int, 0),
        decreases rules.len() - r,
    {
        let keys = &rules[r].when;
        let mut w: usize = 0;
        while w < keys.len()
            invariant
                r < rules.len(),
                w <= keys.len(),
                all == guard_keys@.len(),
                *keys == rules@[r as int].when,
                keys@.no_duplicates(),
                rules_ok(guard_keys@, rules@),
                index_sound(guard_keys@, rules@, key_map@),
                conds_complete(guard_keys@, key_map@, all, 0),
                excepts_complete(guard_keys@, key_map@, all, 0),
                triggers_complete(rules@, key_map@, r as int, w as int),
                triggers_before(rules@, key_map@, r as int, w as int),
            decreases keys.len() - w,
        {
            let key = keys[w];
            let ghost m0 = key_map@;
            let mut e = take_entry(key_map, key);
            let ghost e0 = e;
            e.trigger.push(r);
            let ghost e1 = e;
            key_map.insert(key, e);
            proof {
                assert(key_map@ =~= m0.insert(key, e1));
                if m0.contains_key(key) {
                    assert(entry_sound(guard_keys@, rules@, key, e0));
                }
                assert forall|j: int| 0 <= j < e0.trigger@.len() implies e0.trigger@[j] < r by {
                    assert(m0[key].trigger@[j] == e0.trigger@[j]);
                    if keys@.take(w as int).contains(key) {
                        let at = choose|at: int|
                            0 <= at < keys@.take(w as int).len() && keys@.take(w as int)[at]
                                == key;
                        assert(keys@[at] == keys@[w as int]);
                    }
                }
                assert(entry_sound(guard_keys@, rules@, key, e1)) by {
                    assert forall|j: int| 0 <= j < e1.trigger@.len() implies (
                    #[trigger] e1.trigger@[j]) < rules@.len() && rules@[e1.trigger@[j] as int].when@.contains(
                    key) by {
                        if j < e0.trigger@.len() {
                            assert(e1.trigger@[j] == e0.trigger@[j]);
                        } else {
                            assert(keys@[w as int] == key);
                        }
                    }
                    assert forall|a: int, b: int|
                        0 <= a < b < e1.trigger@.len() implies #[trigger] e1.trigger@[a]
                        < #[trigger] e1.trigger@[b] by {
                        assert(e1.trigger@[a] == e0.trigger@[a]);
                        if b < e0.trigger@.len() {
                            assert(e1.trigger@[b] == e0.trigger@[b]);
                        }
                    }
                }
                lemma_index_grows(
                    guard_keys@,
                    rules@,
                    m0,
                    key,
                    e1,
                    all,
                    0,
                    all,
                    0,
                    r as int,
                    w as int,
                );
                assert(e1.trigger@[e1.trigger@.len() - 1] == r);
                assert(triggers_complete(rules@, key_map@, r as int, w + 1)) by {
                    assert forall|q: int, v: int|
                        #![trigger rules@[q].when@[v]]
                        0 <= q < rules@.len() && 0 <= v < rules@[q].when@.len() && before(
                            q,
                            v,
                            r as int,
                            w + 1,
                        ) implies key_map@.contains_key(rules@[q].when@[v])
                        && key_map@[rules@[q].when@[v]].trigger@.contains(q as usize) by {
                        if before(q, v, r as int, w as int) {
                        } else {
                            assert(q == r && v == w);
                        }
                    }
                }
                assert(triggers_before(rules@, key_map@, r as int, w + 1)) by {
                    let seen = keys@.take(w as int);
                    let next = keys@.take(w + 1);
                    assert forall|k: KeyCode, j: int|
                        #![trigger key_map@[k].trigger@[j]]
                        key_map@.contains_key(k) && 0 <= j < key_map@[k].trigger@.len() implies {
                        ||| key_map@[k].trigger@[j] < r
                        ||| key_map@[k].trigger@[j] == r && next.contains(k)
                    } by {
                        if k == key {
                            assert(next[w as int] == key);
                            if j < e0.trigger@.len() {
                                assert(e1.trigger@[j] == e0.trigger@[j]);
                            }
                        } else {
                            assert(m0.contains_key(k));
                            assert(m0[k].trigger@[j] == key_map@[k].trigger@[j]);
                            if seen.contains(k) {
                                let at = choose|at: int| 0 <= at < seen.len() && seen[at] == k;
                                assert(next[at] == k);
                            }
                        }
                    }
                }
            }
            w = w + 1;
        }
        proof {
            assert(triggers_complete(rules@, key_map@, r + 1, 0)) by {
                assert forall|q: int, v: int|
                    #![trigger rules@[q].when@[v]]
                    0 <= q < rules@.len() && 0 <= v < rules@[q].when@.len() && before(
                        q,
                        v,
                        r + 1,
                        0,
                    ) implies key_map@.contains_key(rules@[q].when@[v])
                    && key_map@[rules@[q].when@[v]].trigger@.contains(q as usize) by {
                    assert(before(q, v, r as int, w as int));
                }
            }
        }
        r = r + 1;
    }
}

impl StateMachine {
    /// Compiles `mappings` into a machine in which no key is held.
    pub fn new(mappings: &[Mapping]) -> (sm: StateMachine)
        ensures
            sm.inv(),
            sm@.compiled_from(mappings_view(mappings@)),
            sm@.held.sound(),
            sm@.held.inverse(),
            sm@.held.rooted(sm@.rules),
            sm@.synced(),
    {
        let (guard_keys, cond_bits, rules) = compile_rules(mappings);
        let mut key_map: HashMap<KeyCode, KeyEntry> = HashMap::new();
        index_conds(&guard_keys, &rules, &mut key_map);
        index_excepts(&guard_keys, &rules, &mut key_map);
        index_triggers(&guard_keys, &rules, &mut key_map);
        let sm = StateMachine {
            guard_keys,
            cond_bits,
            rules,
            key_map,
            input_state: HashMap::new(),
            output_state: HashMap::new(),
        };
        proof {
            let view = sm@;
            let source = mappings_view(mappings@);
            assert(view.held.input =~= Map::<KeyCode, Seq<KeyCode>>::empty());
            assert(view.held.output =~= Map::<KeyCode, Set<KeyCode>>::empty());
            assert forall|g: int| 0 <= g < view.guards.len() implies {
                &&& strictly_sorted((#[trigger] view.guards[g]).cond)
                &&& strictly_sorted(view.guards[g].except)
                &&& view.guards[g].fresh()
                &&& exists|r: int| 0 <= r < view.rules.len() && (#[trigger] view.rules[r]).guard == g
            } by {
                assert(strictly_sorted(sm.guard_keys@[g].cond@));
                let r = choose|r: int|
                    0 <= r < sm.rules@.len() && (#[trigger] sm.rules@[r]).cond_bits == g;
                assert(view.rules[r].guard == g);
            }
            assert forall|g: int, h: int| 0 <= g < h < view.guards.len() implies !((
            #[trigger] view.guards[g]).cond == (#[trigger] view.guards[h]).cond
                && view.guards[g].except == view.guards[h].except) by {
                assert(!(sm.guard_keys@[g].cond@ == sm.guard_keys@[h].cond@
                    && sm.guard_keys@[g].except@ == sm.guard_keys@[h].except@));
            }
            assert forall|r: int, g: int|
                0 <= r < source.len() && 0 <= g < view.rules[r].guard implies #[trigger] view.needed_before(
                r,
                g,
            ) by {
                assert(needed_before(sm.rules@, r, g));
                let q = choose|q: int| 0 <= q < r && (#[trigger] sm.rules@[q]).cond_bits == g;
                assert(view.rules[q].guard == g);
            }
            assert forall|r: int| 0 <= r < source.len() implies {
                &&& (#[trigger] view.rules[r]).when == source[r].when
                &&& view.rules[r].mappings == source[r].mappings
                &&& view.guards[view.rules[r].guard].cond.to_set() == source[r].cond
                &&& view.guards[view.rules[r].guard].except.to_set() == source[r].except
            } by {
                assert(sm.rules@[r].when@.to_set() == mappings@[r]@.when);
            }
            view.lemma_compiled_holds_nothing(source);
            view.lemma_compiled_is_synced(source);
        }
        sm
    }
}

} // verus!
