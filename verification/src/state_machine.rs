//! The executable remap machine.
//!
//! The machine keeps, beside the rules, an index from each key to the guard
//! bits that an edge of the key changes and to the rules that a press of the
//! key may fire. An event then costs time in proportion to what the index
//! holds for its key. Every operation is proved to compute what the abstract
//! machine of [`crate::model`] says.
use vstd::prelude::*;
use std::collections::HashMap;
use std::collections::HashSet;
use crate::cond_bits::{CondBits, popcount};
use crate::event::{EventCode, InputEvent, KeyCode, KeyEventType, make_sync_event, push_key_events};
use crate::mapping::remaps_view;
use crate::model::{
    GuardView,
    Held,
    MachineView,
    Remap,
    RuleView,
    drain,
    engage,
    has_src,
    lemma_lookup_first,
    lookup,
    merge_onto,
    press_all,
    release_all,
    secondary,
    sources,
};
use crate::util::{copy_keys, distinct_keys, keys_without};

mod compile;
mod diagnose;

verus! {

broadcast use vstd::std_specs::hash::group_hash_axioms;

/// A reference to one bit of one guard: the guard's place in the pool and the bit's
/// place in the guard's bitmap.
#[derive(Clone, Copy, Debug, PartialEq, Eq, Structural)]
pub struct CondBitRef {
    pub cb: usize,
    pub i: usize,
}

impl CondBitRef {
    /// Sets the bit that this reference names, in the pool of bitmaps `pool`.
    pub fn set(&self, pool: &mut Vec<CondBits>, value: bool)
        requires
            self.cb < old(pool).len(),
            old(pool)[self.cb as int].wf(),
            self.i < old(pool)[self.cb as int]@.len(),
        ensures
            final(pool).len() == old(pool).len(),
            final(pool)[self.cb as int].wf(),
            final(pool)[self.cb as int]@ == old(pool)[self.cb as int]@.update(
                self.i as int,
                value,
            ),
            forall|g: int|
                0 <= g < old(pool).len() && g != self.cb ==> final(pool)[g] == old(pool)[g],
    {
        pool[self.cb].set(self.i, value);
    }
}

/// The literals of a guard: the keys that must be held and the keys that must not.
struct GuardKey {
    cond: Vec<KeyCode>,
    except: Vec<KeyCode>,
}

/// A compiled rule.
struct RemapRule {
    cond_bits: usize,
    when: Vec<KeyCode>,
    mappings: Vec<(KeyCode, Vec<KeyCode>)>,
}

/// What the index holds for one key.
struct KeyEntry {
    /// The bits of the `cond` literals that name the key.
    cond_set: Vec<CondBitRef>,
    /// The bits of the `except` literals that name the key.
    cond_unset: Vec<CondBitRef>,
    /// The rules that a press of the key may fire, in ascending order.
    trigger: Vec<usize>,
}

/// The remap machine.
pub struct StateMachine {
    guard_keys: Vec<GuardKey>,
    cond_bits: Vec<CondBits>,
    rules: Vec<RemapRule>,
    key_map: HashMap<KeyCode, KeyEntry>,
    input_state: HashMap<KeyCode, Vec<KeyCode>>,
    output_state: HashMap<KeyCode, HashSet<KeyCode>>,
}

/// The map from held physical keys to their virtual keys, as a plain value.
spec fn input_view(m: Map<KeyCode, Vec<KeyCode>>) -> Map<KeyCode, Seq<KeyCode>> {
    Map::new(|k: KeyCode| m.contains_key(k), |k: KeyCode| m[k]@)
}

/// The map from pressed virtual keys to the physical keys that hold them, as a plain
/// value.
spec fn output_view(m: Map<KeyCode, HashSet<KeyCode>>) -> Map<KeyCode, Set<KeyCode>> {
    Map::new(|k: KeyCode| m.contains_key(k), |k: KeyCode| m[k]@)
}

/// The physical key `src` lets go of the virtual keys `vs`.
fn drain_keys(
    output: &mut HashMap<KeyCode, HashSet<KeyCode>>,
    released: &mut Vec<KeyCode>,
    src: KeyCode,
    vs: &Vec<KeyCode>,
)
    ensures
        (output_view(final(output)@), final(released)@) == drain(
            output_view(old(output)@),
            old(released)@,
            src,
            vs@,
        ),
{
    let ghost o0 = output_view(output@);
    let ghost r0 = released@;
    let mut j: usize = 0;
    while j < vs.len()
        invariant
            j <= vs.len(),
            (output_view(output@), released@) == drain(o0, r0, src, vs@.take(j as int)),
        decreases vs.len() - j,
    {
        let v = vs[j];
        let ghost before = output@;
        proof {
            assert(vs@.take(j + 1).drop_last() =~= vs@.take(j as int));
        }
        match output.remove(&v) {
            None => {
                assert(output_view(output@) =~= output_view(before));
            },
            Some(owners) => {
                let mut owners = owners;
                owners.remove(&src);
                if owners.is_empty() {
                    released.push(v);
                    assert(output_view(output@) =~= output_view(before).remove(v));
                } else {
                    output.insert(v, owners);
                    assert(output_view(output@) =~= output_view(before).insert(v, owners@));
                }
            },
        }
        j = j + 1;
    }
    assert(vs@.take(vs.len() as int) =~= vs@);
}

/// The physical key `src` takes hold of the virtual keys `vs`.
fn engage_keys(
    output: &mut HashMap<KeyCode, HashSet<KeyCode>>,
    pressed: &mut Vec<KeyCode>,
    src: KeyCode,
    vs: &Vec<KeyCode>,
)
    ensures
        (output_view(final(output)@), final(pressed)@) == engage(
            output_view(old(output)@),
            old(pressed)@,
            src,
            vs@,
        ),
{
    let ghost o0 = output_view(output@);
    let ghost pressed0 = pressed@;
    let mut j: usize = 0;
    while j < vs.len()
        invariant
            j <= vs.len(),
            (output_view(output@), pressed@) == engage(o0, pressed0, src, vs@.take(j as int)),
        decreases vs.len() - j,
    {
        let v = vs[j];
        let ghost before = output@;
        proof {
            assert(vs@.take(j + 1).drop_last() =~= vs@.take(j as int));
        }
        match output.remove(&v) {
            None => {
                let mut owners: HashSet<KeyCode> = HashSet::new();
                owners.insert(src);
                output.insert(v, owners);
                pressed.push(v);
                assert(owners@ =~= set![src]);
                assert(output_view(output@) =~= output_view(before).insert(v, set![src]));
            },
            Some(owners) => {
                let mut owners = owners;
                owners.insert(src);
                output.insert(v, owners);
                assert(output_view(output@) =~= output_view(before).insert(
                    v,
                    before[v]@.insert(src),
                ));
            },
        }
        j = j + 1;
    }
    assert(vs@.take(vs.len() as int) =~= vs@);
}

/// Releases the physical keys `release` in turn.
fn release_keys(
    input: &mut HashMap<KeyCode, Vec<KeyCode>>,
    output: &mut HashMap<KeyCode, HashSet<KeyCode>>,
    release: &[KeyCode],
) -> (released: Vec<KeyCode>)
    ensures
        (Held { input: input_view(final(input)@), output: output_view(final(output)@) }, released@)
            == release_all(
            Held { input: input_view(old(input)@), output: output_view(old(output)@) },
            release@,
        ),
{
    let ghost h0 = Held { input: input_view(input@), output: output_view(output@) };
    let mut released: Vec<KeyCode> = Vec::new();
    let mut i: usize = 0;
    while i < release.len()
        invariant
            i <= release.len(),
            (Held { input: input_view(input@), output: output_view(output@) }, released@)
                == release_all(h0, release@.take(i as int)),
        decreases release.len() - i,
    {
        let src = release[i];
        let ghost before = input@;
        proof {
            assert(release@.take(i + 1).drop_last() =~= release@.take(i as int));
        }
        match input.remove(&src) {
            None => {
                assert(input_view(input@) =~= input_view(before));
            },
            Some(vs) => {
                drain_keys(output, &mut released, src, &vs);
                assert(input_view(input@) =~= input_view(before).remove(src));
            },
        }
        i = i + 1;
    }
    assert(release@.take(release.len() as int) =~= release@);
    released
}

/// Presses the entries of `press` in turn.
fn press_keys(
    input: &mut HashMap<KeyCode, Vec<KeyCode>>,
    output: &mut HashMap<KeyCode, HashSet<KeyCode>>,
    press: &[(KeyCode, Vec<KeyCode>)],
) -> (pressed: Vec<KeyCode>)
    ensures
        (Held { input: input_view(final(input)@), output: output_view(final(output)@) }, pressed@)
            == press_all(
            Held { input: input_view(old(input)@), output: output_view(old(output)@) },
            remaps_view(press@),
        ),
{
    let ghost h0 = Held { input: input_view(input@), output: output_view(output@) };
    let ghost table = remaps_view(press@);
    let mut pressed: Vec<KeyCode> = Vec::new();
    let mut i: usize = 0;
    while i < press.len()
        invariant
            i <= press.len(),
            table == remaps_view(press@),
            (Held { input: input_view(input@), output: output_view(output@) }, pressed@)
                == press_all(h0, table.take(i as int)),
        decreases press.len() - i,
    {
        let src = press[i].0;
        let vs = distinct_keys(&press[i].1);
        let ghost before = input@;
        proof {
            assert(table.take(i + 1).drop_last() =~= table.take(i as int));
            assert(table.take(i + 1).last() == (src, press@[i as int].1@));
        }
        engage_keys(output, &mut pressed, src, &vs);
        input.insert(src, vs);
        assert(input_view(input@) =~= input_view(before).insert(src, vs@));
        i = i + 1;
    }
    assert(table.take(press.len() as int) =~= table);
    pressed
}


/// The reference to bit `i` of guard `g`.
spec fn bit_ref(g: int, i: int) -> CondBitRef {
    CondBitRef { cb: g as usize, i: i as usize }
}

/// Sets every bit that `refs` names to `value`.
fn set_all(pool: &mut Vec<CondBits>, refs: &Vec<CondBitRef>, value: bool)
    requires
        forall|g: int| 0 <= g < old(pool).len() ==> (#[trigger] old(pool)[g]).wf(),
        forall|j: int|
            0 <= j < refs@.len() ==> (#[trigger] refs@[j]).cb < old(pool).len() && refs@[j].i
                < old(pool)[refs@[j].cb as int]@.len(),
    ensures
        final(pool).len() == old(pool).len(),
        forall|g: int|
            0 <= g < old(pool).len() ==> (#[trigger] final(pool)[g]).wf() && final(pool)[g]@.len()
                == old(pool)[g]@.len(),
        forall|g: int, p: int|
            0 <= g < old(pool).len() && 0 <= p < old(pool)[g]@.len() ==> {
                #[trigger] final(pool)[g]@[p] == (if refs@.contains(bit_ref(g, p)) {
                    value
                } else {
                    old(pool)[g]@[p]
                })
            },
{
    let mut j: usize = 0;
    while j < refs.len()
        invariant
            j <= refs.len(),
            pool.len() == old(pool).len(),
            forall|j: int|
                0 <= j < refs@.len() ==> (#[trigger] refs@[j]).cb < old(pool).len() && refs@[j].i
                    < old(pool)[refs@[j].cb as int]@.len(),
            forall|g: int|
                0 <= g < old(pool).len() ==> {
                    &&& (#[trigger] pool[g]).wf()
                    &&& pool[g]@.len() == old(pool)[g]@.len()
                },
            forall|g: int, p: int|
                0 <= g < old(pool).len() && 0 <= p < old(pool)[g]@.len() ==> #[trigger] pool[g]@[p]
                    == (if refs@.take(j as int).contains(bit_ref(g, p)) {
                    value
                } else {
                    old(pool)[g]@[p]
                }),
        decreases refs.len() - j,
    {
        let r = refs[j];
        let ghost before = pool@;
        r.set(pool, value);
        proof {
            let done = refs@.take(j as int);
            let next = refs@.take(j + 1);
            assert(next =~= done.push(r));
            assert forall|g: int, p: int|
                0 <= g < old(pool).len() && 0 <= p < old(pool)[g]@.len() implies #[trigger] pool[g]@[p]
                == (if next.contains(bit_ref(g, p)) {
                value
            } else {
                old(pool)[g]@[p]
            }) by {
                let here = bit_ref(g, p);
                before[g].lemma_len_fits();
                if here == r {
                    assert(next[j as int] == here);
                } else {
                    assert(before[g]@[p] == pool[g]@[p]);
                    if next.contains(here) {
                        let at = choose|at: int| 0 <= at < next.len() && next[at] == here;
                        assert(done[at] == here);
                    }
                    if done.contains(here) {
                        let at = choose|at: int| 0 <= at < done.len() && done[at] == here;
                        assert(next[at] == here);
                    }
                }
            }
        }
        j = j + 1;
    }
    assert(refs@.take(refs.len() as int) =~= refs@);
}

/// The bitmaps fit the guards: one well-formed bitmap for each guard, with one bit for
/// each literal.
spec fn bits_ok(guard_keys: Seq<GuardKey>, cond_bits: Seq<CondBits>) -> bool {
    &&& guard_keys.len() == cond_bits.len()
    &&& forall|g: int|
        0 <= g < cond_bits.len() ==> {
            &&& (#[trigger] cond_bits[g]).wf()
            &&& cond_bits[g]@.len() == guard_keys[g].cond@.len() + guard_keys[g].except@.len()
        }
}

/// The reference names a `cond` literal of `key`.
spec fn names_cond(guard_keys: Seq<GuardKey>, r: CondBitRef, key: KeyCode) -> bool {
    &&& r.cb < guard_keys.len()
    &&& r.i < guard_keys[r.cb as int].cond@.len()
    &&& guard_keys[r.cb as int].cond@[r.i as int] == key
}

/// The reference names an `except` literal of `key`.
spec fn names_except(guard_keys: Seq<GuardKey>, r: CondBitRef, key: KeyCode) -> bool {
    &&& r.cb < guard_keys.len()
    &&& guard_keys[r.cb as int].cond@.len() <= r.i < guard_keys[r.cb as int].cond@.len()
        + guard_keys[r.cb as int].except@.len()
    &&& guard_keys[r.cb as int].except@[r.i - guard_keys[r.cb as int].cond@.len()] == key
}

/// What the index holds for `key` is true of the rules, and it holds nothing twice.
spec fn entry_sound(
    guard_keys: Seq<GuardKey>,
    rules: Seq<RemapRule>,
    key: KeyCode,
    e: KeyEntry,
) -> bool {
    &&& forall|j: int|
        0 <= j < e.cond_set@.len() ==> names_cond(guard_keys, #[trigger] e.cond_set@[j], key)
    &&& forall|j: int|
        0 <= j < e.cond_unset@.len() ==> names_except(guard_keys, #[trigger] e.cond_unset@[j], key)
    &&& forall|j: int|
        0 <= j < e.trigger@.len() ==> (#[trigger] e.trigger@[j]) < rules.len()
            && rules[e.trigger@[j] as int].when@.contains(key)
    &&& forall|a: int, b: int|
        0 <= a < b < e.trigger@.len() ==> #[trigger] e.trigger@[a] < #[trigger] e.trigger@[b]
    &&& e.cond_set@.no_duplicates()
    &&& e.cond_unset@.no_duplicates()
    &&& e.cond_set@.len() + e.cond_unset@.len() + e.trigger@.len() > 0
}

/// The index holds only what is true of the rules.
spec fn index_sound(
    guard_keys: Seq<GuardKey>,
    rules: Seq<RemapRule>,
    key_map: Map<KeyCode, KeyEntry>,
) -> bool {
    forall|key: KeyCode| #[trigger]
        key_map.contains_key(key) ==> entry_sound(guard_keys, rules, key, key_map[key])
}

/// Whether the place `(a, b)` comes before the place `(to_a, to_b)`, row by row.
spec fn before(a: int, b: int, to_a: int, to_b: int) -> bool {
    a < to_a || (a == to_a && b < to_b)
}

/// The index holds every `cond` literal that comes before literal `to_i` of guard `to_g`.
spec fn conds_complete(
    guard_keys: Seq<GuardKey>,
    key_map: Map<KeyCode, KeyEntry>,
    to_g: int,
    to_i: int,
) -> bool {
    forall|g: int, i: int|
        #![trigger guard_keys[g].cond@[i]]
        0 <= g < guard_keys.len() && 0 <= i < guard_keys[g].cond@.len() && before(g, i, to_g, to_i)
            ==> {
            &&& key_map.contains_key(guard_keys[g].cond@[i])
            &&& key_map[guard_keys[g].cond@[i]].cond_set@.contains(bit_ref(g, i))
        }
}

/// The index holds every `except` literal that comes before literal `to_i` of guard
/// `to_g`.
spec fn excepts_complete(
    guard_keys: Seq<GuardKey>,
    key_map: Map<KeyCode, KeyEntry>,
    to_g: int,
    to_i: int,
) -> bool {
    forall|g: int, i: int|
        #![trigger guard_keys[g].except@[i]]
        0 <= g < guard_keys.len() && 0 <= i < guard_keys[g].except@.len() && before(
            g,
            i,
            to_g,
            to_i,
        ) ==> {
            &&& key_map.contains_key(guard_keys[g].except@[i])
            &&& key_map[guard_keys[g].except@[i]].cond_unset@.contains(
                bit_ref(g, guard_keys[g].cond@.len() + i),
            )
        }
}

/// The index holds every trigger that comes before trigger `to_w` of rule `to_r`.
spec fn triggers_complete(
    rules: Seq<RemapRule>,
    key_map: Map<KeyCode, KeyEntry>,
    to_r: int,
    to_w: int,
) -> bool {
    forall|r: int, w: int|
        #![trigger rules[r].when@[w]]
        0 <= r < rules.len() && 0 <= w < rules[r].when@.len() && before(r, w, to_r, to_w) ==> {
            &&& key_map.contains_key(rules[r].when@[w])
            &&& key_map[rules[r].when@[w]].trigger@.contains(r as usize)
        }
}

/// The index holds every literal of every guard and every trigger of every rule.
spec fn index_complete(
    guard_keys: Seq<GuardKey>,
    rules: Seq<RemapRule>,
    key_map: Map<KeyCode, KeyEntry>,
) -> bool {
    &&& conds_complete(guard_keys, key_map, guard_keys.len() as int, 0)
    &&& excepts_complete(guard_keys, key_map, guard_keys.len() as int, 0)
    &&& triggers_complete(rules, key_map, rules.len() as int, 0)
}

/// The rules name guards of the pool, and all sizes fit the machine.
spec fn rules_ok(guard_keys: Seq<GuardKey>, rules: Seq<RemapRule>) -> bool {
    &&& guard_keys.len() <= usize::MAX
    &&& rules.len() <= usize::MAX
    &&& forall|g: int|
        0 <= g < guard_keys.len() ==> (#[trigger] guard_keys[g]).cond@.len()
            + guard_keys[g].except@.len() <= usize::MAX
    &&& forall|r: int| 0 <= r < rules.len() ==> (#[trigger] rules[r]).cond_bits < guard_keys.len()
}

/// A remap table whose lists are borrowed from the rules, as a plain value.
spec fn table_view(table: Seq<(KeyCode, &Vec<KeyCode>)>) -> Seq<Remap> {
    Seq::new(table.len(), |i: int| (table[i].0, table[i].1@))
}

/// The list of the first entry of `table` for `src`, if there is one.
fn table_find<'a>(table: &Vec<(KeyCode, &'a Vec<KeyCode>)>, src: KeyCode) -> (found: Option<
    &'a Vec<KeyCode>,
>)
    ensures
        found is Some <==> has_src(table_view(table@), src),
        found is Some ==> found.unwrap()@ == lookup(table_view(table@), src),
{
    let ghost tv = table_view(table@);
    let mut i: usize = 0;
    while i < table.len()
        invariant
            i <= table.len(),
            tv == table_view(table@),
            forall|j: int| 0 <= j < i ==> tv[j].0 != src,
        decreases table.len() - i,
    {
        if table[i].0 == src {
            proof {
                assert(tv[i as int].0 == src);
                lemma_lookup_first(tv, i as int, src);
            }
            return Some(table[i].1);
        }
        i = i + 1;
    }
    None
}

/// Adds to `table` those entries of `mappings` whose physical key has no entry yet.
fn merge_rule<'a>(
    table: &mut Vec<(KeyCode, &'a Vec<KeyCode>)>,
    mappings: &'a Vec<(KeyCode, Vec<KeyCode>)>,
)
    ensures
        table_view(final(table)@) == merge_onto(
            table_view(old(table)@),
            remaps_view(mappings@),
        ),
{
    let ghost t0 = table_view(table@);
    let ghost more = remaps_view(mappings@);
    let mut m: usize = 0;
    while m < mappings.len()
        invariant
            m <= mappings.len(),
            more == remaps_view(mappings@),
            table_view(table@) == merge_onto(t0, more.take(m as int)),
        decreases mappings.len() - m,
    {
        let src = mappings[m].0;
        let ghost before = table_view(table@);
        proof {
            assert(more.take(m + 1).drop_last() =~= more.take(m as int));
            assert(more.take(m + 1).last() == more[m as int]);
        }
        if table_find(table, src).is_none() {
            table.push((src, &mappings[m].1));
            assert(table_view(table@) =~= before.push(more[m as int]));
        }
        m = m + 1;
    }
    assert(more.take(mappings.len() as int) =~= more);
}

/// The state of the machine that the given parts make up.
spec fn machine_view(
    guard_keys: Seq<GuardKey>,
    cond_bits: Seq<CondBits>,
    rules: Seq<RemapRule>,
    input_state: Map<KeyCode, Vec<KeyCode>>,
    output_state: Map<KeyCode, HashSet<KeyCode>>,
) -> MachineView {
    MachineView {
        guards: Seq::new(
            guard_keys.len(),
            |g: int|
                GuardView {
                    cond: guard_keys[g].cond@,
                    except: guard_keys[g].except@,
                    bits: cond_bits[g]@,
                },
        ),
        rules: Seq::new(
            rules.len(),
            |r: int|
                RuleView {
                    guard: rules[r].cond_bits as int,
                    when: rules[r].when@.to_set(),
                    mappings: remaps_view(rules[r].mappings@),
                },
        ),
        held: Held { input: input_view(input_state), output: output_view(output_state) },
    }
}

impl View for StateMachine {
    type V = MachineView;

    closed spec fn view(&self) -> MachineView {
        machine_view(
            self.guard_keys@,
            self.cond_bits@,
            self.rules@,
            self.input_state@,
            self.output_state@,
        )
    }
}

impl StateMachine {
    /// The index agrees with the rules and holds each reference once, every bitmap
    /// counts its set bits, and the maps of held keys are sound.
    pub closed spec fn inv(&self) -> bool {
        &&& rules_ok(self.guard_keys@, self.rules@)
        &&& bits_ok(self.guard_keys@, self.cond_bits@)
        &&& index_sound(self.guard_keys@, self.rules@, self.key_map@)
        &&& index_complete(self.guard_keys@, self.rules@, self.key_map@)
        &&& self@.held.sound()
    }

    /// In a machine whose invariant holds, every virtual key that stands for a physical
    /// key is held by it and stands for it once, and every pressed virtual key is held
    /// by some key.
    pub proof fn lemma_inv_sound(&self)
        requires
            self.inv(),
        ensures
            self@.wf(),
            self@.held.sound(),
    {
    }

    /// The counter of guard `g`: what the guard takes for the number of its literals
    /// that are not satisfied.
    pub closed spec fn counter(&self, g: int) -> nat {
        self.cond_bits@[g].spec_unsatisfied()
    }

    /// The counter of every guard is the number of set bits of its bitmap.
    pub proof fn lemma_guard_consistency(&self, g: int)
        requires
            self.inv(),
            0 <= g < self@.guards.len(),
        ensures
            self.counter(g) == popcount(self@.guards[g].bits),
    {
        self.cond_bits@[g].lemma_counter();
    }

    /// The state of a machine whose invariant holds is well formed.
    pub proof fn lemma_view_wf(&self)
        requires
            self.inv(),
        ensures
            self@.wf(),
    {
    }

    /// The index has an entry for exactly the keys that the rules speak of.
    proof fn lemma_has_entry(&self, key: KeyCode)
        requires
            self.inv(),
        ensures
            self@.has_entry(key) == self.key_map@.contains_key(key),
    {
        let view = self@;
        if self.key_map@.contains_key(key) {
            let e = self.key_map@[key];
            assert(entry_sound(self.guard_keys@, self.rules@, key, e));
            if e.cond_set@.len() > 0 {
                let r = e.cond_set@[0];
                assert(names_cond(self.guard_keys@, r, key));
                assert(view.guards[r.cb as int].literal(r.i as int) == key);
            } else if e.cond_unset@.len() > 0 {
                let r = e.cond_unset@[0];
                assert(names_except(self.guard_keys@, r, key));
                assert(view.guards[r.cb as int].literal(r.i as int) == key);
            } else {
                let r = e.trigger@[0];
                assert(view.rules[r as int].when.contains(key));
            }
            assert(view.has_entry(key));
        }
        if view.has_entry(key) {
            if exists|g: int, i: int|
                0 <= g < view.guards.len() && 0 <= i < view.guards[g].bits.len()
                    && #[trigger] view.guards[g].literal(i) == key {
                let (g, i) = choose|g: int, i: int|
                    0 <= g < view.guards.len() && 0 <= i < view.guards[g].bits.len()
                        && #[trigger] view.guards[g].literal(i) == key;
                let cond = self.guard_keys@[g].cond@;
                if i < cond.len() {
                    assert(self.key_map@.contains_key(self.guard_keys@[g].cond@[i]));
                } else {
                    assert(self.key_map@.contains_key(self.guard_keys@[g].except@[i - cond.len()]));
                }
            } else {
                let r = choose|r: int|
                    0 <= r < view.rules.len() && (#[trigger] view.rules[r]).when.contains(key);
                let when = self.rules@[r].when@;
                let w = choose|w: int| 0 <= w < when.len() && when[w] == key;
                assert(self.key_map@.contains_key(self.rules@[r].when@[w]));
            }
        }
    }

    /// The guards take note of an edge of `code`.
    fn note_edge(&mut self, code: KeyCode, press: bool)
        requires
            old(self).inv(),
        ensures
            final(self).inv(),
            final(self)@ == old(self)@.touch(code, press),
    {
        let ghost keys = self.guard_keys@;
        proof {
            old(self).lemma_has_entry(code);
        }
        match self.key_map.get(&code) {
            None => {},
            Some(e) => {
                assert(entry_sound(self.guard_keys@, self.rules@, code, *e));
                set_all(&mut self.cond_bits, &e.cond_set, !press);
                set_all(&mut self.cond_bits, &e.cond_unset, press);
            },
        }
        proof {
            let after = self.cond_bits@;
            let goal = old(self)@.touch(code, press);
            assert forall|g: int| 0 <= g < keys.len() implies #[trigger] self@.guards[g]
                == goal.guards[g] by {
                let guard = old(self)@.guards[g];
                assert(after[g]@ =~= guard.touch(code, press).bits) by {
                    assert forall|p: int| 0 <= p < guard.bits.len() implies after[g]@[p]
                        == guard.touch(code, press).bits[p] by {
                        let here = bit_ref(g, p);
                        let cond = keys[g].cond@;
                        let except = keys[g].except@;
                        if self.key_map@.contains_key(code) {
                            let e = self.key_map@[code];
                            if e.cond_set@.contains(here) {
                                let j = choose|j: int|
                                    0 <= j < e.cond_set@.len() && e.cond_set@[j] == here;
                                assert(names_cond(keys, e.cond_set@[j], code));
                            }
                            if e.cond_unset@.contains(here) {
                                let j = choose|j: int|
                                    0 <= j < e.cond_unset@.len() && e.cond_unset@[j] == here;
                                assert(names_except(keys, e.cond_unset@[j], code));
                            }
                            if p < cond.len() {
                                if cond[p] == code {
                                    assert(self.key_map@[keys[g].cond@[p]].cond_set@.contains(
                                        here,
                                    ));
                                }
                            } else {
                                if except[p - cond.len()] == code {
                                    assert(self.key_map@[keys[g].except@[p
                                        - cond.len()]].cond_unset@.contains(
                                        bit_ref(g, cond.len() + (p - cond.len())),
                                    ));
                                }
                            }
                        } else {
                            if p < cond.len() {
                                if cond[p] == code {
                                    assert(self.key_map@.contains_key(keys[g].cond@[p]));
                                }
                            } else {
                                if except[p - cond.len()] == code {
                                    assert(self.key_map@.contains_key(
                                        keys[g].except@[p - cond.len()],
                                    ));
                                }
                            }
                        }
                    }
                }
            }
            assert(self@.guards =~= goal.guards);
            assert(self@.rules =~= goal.rules);
        }
    }

    /// What an edge of `code` asks for: the physical keys to release and the entries to
    /// press.
    pub fn remap(&self, code: KeyCode, release: bool) -> (r: (
        Vec<KeyCode>,
        Vec<(KeyCode, Vec<KeyCode>)>,
    ))
        requires
            self.inv(),
        ensures
            (r.0@, remaps_view(r.1@)) == self@.remap(code, release),
    {
        let mut rel: Vec<KeyCode> = Vec::new();
        let mut press: Vec<(KeyCode, Vec<KeyCode>)> = Vec::new();
        let mut own: Vec<KeyCode> = Vec::new();
        own.push(code);
        if release {
            if self.input_state.contains_key(&code) {
                rel.push(code);
            } else if !self.output_state.contains_key(&code) {
                rel.push(code);
                press.push((code, own));
            }
            proof {
                let goal = self@.remap(code, release);
                assert(rel@ =~= goal.0);
                assert(remaps_view(press@) =~= goal.1);
            }
            return (rel, press);
        }
        proof {
            self.lemma_has_entry(code);
        }
        match self.key_map.get(&code) {
            None => {
                if self.input_state.contains_key(&code) {
                    rel.push(code);
                }
                press.push((code, own));
                proof {
                    let goal = self@.remap(code, release);
                    assert(rel@ =~= goal.0);
                    assert(remaps_view(press@) =~= goal.1);
                }
                (rel, press)
            },
            Some(e) => {
                let table = self.table_for(code, e);
                let ghost tv = table_view(table@);
                let ghost input = self@.held.input;
                let mut i: usize = 0;
                while i < table.len()
                    invariant
                        i <= table.len(),
                        tv == table_view(table@),
                        input == input_view(self.input_state@),
                        remaps_view(press@) == secondary(input, tv.take(i as int), code),
                        rel@ == sources(remaps_view(press@)),
                    decreases table.len() - i,
                {
                    let src = table[i].0;
                    let ghost before = remaps_view(press@);
                    proof {
                        assert(tv.take(i + 1).drop_last() =~= tv.take(i as int));
                        assert(tv.take(i + 1).last() == tv[i as int]);
                    }
                    if src != code && self.input_state.contains_key(&src) {
                        rel.push(src);
                        press.push((src, copy_keys(table[i].1)));
                        assert(remaps_view(press@) =~= before.push(tv[i as int]));
                        assert(rel@ =~= sources(remaps_view(press@)));
                    }
                    i = i + 1;
                }
                proof {
                    assert(tv.take(table.len() as int) =~= tv);
                }
                match table_find(&table, code) {
                    Some(dst) => {
                        if self.input_state.contains_key(&code) {
                            rel.push(code);
                        }
                        press.push((code, copy_keys(dst)));
                        proof {
                            let goal = self@.remap(code, release);
                            assert(rel@ =~= goal.0);
                            assert(remaps_view(press@) =~= goal.1);
                        }
                    },
                    None => {
                        press.push((code, own));
                        proof {
                            let goal = self@.remap(code, release);
                            assert(rel@ =~= goal.0);
                            assert(remaps_view(press@) =~= goal.1);
                        }
                    },
                }
                (rel, press)
            },
        }
    }

    /// The remap table that a press of `code` puts into effect, from the rules that the
    /// index names for it.
    fn table_for<'a>(&'a self, code: KeyCode, e: &'a KeyEntry) -> (table: Vec<
        (KeyCode, &'a Vec<KeyCode>),
    >)
        requires
            self.inv(),
            self.key_map@.contains_key(code),
            self.key_map@[code] == *e,
        ensures
            table_view(table@) == self@.table(code),
    {
        let ghost view = self@;
        let ghost bound: int = 0;
        let mut table: Vec<(KeyCode, &'a Vec<KeyCode>)> = Vec::new();
        let mut t: usize = 0;
        assert(entry_sound(self.guard_keys@, self.rules@, code, *e));
        assert(table_view(table@) =~= view.table_upto(code, 0));
        while t < e.trigger.len()
            invariant
                t <= e.trigger.len(),
                self.inv(),
                view == self@,
                self.key_map@.contains_key(code),
                self.key_map@[code] == *e,
                entry_sound(self.guard_keys@, self.rules@, code, *e),
                0 <= bound <= self.rules@.len(),
                forall|j: int| 0 <= j < t ==> e.trigger@[j] < bound,
                forall|j: int| t <= j < e.trigger@.len() ==> bound <= e.trigger@[j],
                table_view(table@) == view.table_upto(code, bound),
            decreases e.trigger.len() - t,
        {
            let r = e.trigger[t];
            proof {
                self.lemma_no_trigger_between(code, bound, r as int);
                view.lemma_table_skip(code, bound, r as int);
                assert(view.rules[r as int].when.contains(code));
            }
            let rule = &self.rules[r];
            if self.cond_bits[rule.cond_bits].is_eligible() {
                merge_rule(&mut table, &rule.mappings);
            }
            proof {
                bound = r + 1;
                assert forall|j: int| t + 1 <= j < e.trigger@.len() implies bound
                    <= e.trigger@[j] by {
                    assert(e.trigger@[t as int] < e.trigger@[j]);
                }
            }
            t = t + 1;
        }
        proof {
            self.lemma_no_trigger_between(code, bound, self.rules@.len() as int);
            view.lemma_table_skip(code, bound, self.rules@.len() as int);
        }
        table
    }

    /// A rule that the index does not name for `code` is not triggered by it.
    proof fn lemma_no_trigger_between(&self, code: KeyCode, a: int, b: int)
        requires
            self.inv(),
            self.key_map@.contains_key(code),
            0 <= a <= b <= self.rules@.len(),
            forall|j: int|
                0 <= j < self.key_map@[code].trigger@.len() ==> {
                    ||| self.key_map@[code].trigger@[j] < a
                    ||| b <= self.key_map@[code].trigger@[j]
                },
        ensures
            forall|r: int| a <= r < b ==> !(#[trigger] self@.rules[r]).when.contains(code),
    {
        let e = self.key_map@[code];
        assert forall|r: int| a <= r < b implies !(#[trigger] self@.rules[r]).when.contains(
            code,
        ) by {
            let when = self.rules@[r].when@;
            if when.contains(code) {
                let w = choose|w: int| 0 <= w < when.len() && when[w] == code;
                assert(self.key_map@[self.rules@[r].when@[w]].trigger@.contains(r as usize));
                let j = choose|j: int| 0 <= j < e.trigger@.len() && e.trigger@[j] == r as usize;
                assert(e.trigger@[j] < a || b <= e.trigger@[j]);
            }
        }
    }

    /// Releases the physical keys `release`, then presses the entries of `press`. Gives
    /// the virtual keys that fell and the virtual keys that went down.
    fn apply(&mut self, release: &[KeyCode], press: &[(KeyCode, Vec<KeyCode>)]) -> (r: (
        Vec<KeyCode>,
        Vec<KeyCode>,
    ))
        requires
            old(self).inv(),
            old(self)@.can_release(release@),
        ensures
            final(self).inv(),
            (final(self)@, r.0@, r.1@) == old(self)@.apply(release@, remaps_view(press@)),
    {
        proof {
            self@.lemma_update_keeps_sound(release@, remaps_view(press@));
        }
        let fell = release_keys(&mut self.input_state, &mut self.output_state, release);
        let rose = press_keys(&mut self.input_state, &mut self.output_state, press);
        proof {
            assert(self@.guards =~= old(self)@.guards);
            assert(self@.rules =~= old(self)@.rules);
        }
        (fell, rose)
    }

    /// Releases the physical keys `release`, then presses the entries of `press`. Gives
    /// the virtual keys to release and the virtual keys to press; a virtual key that
    /// fell and went down again is in neither list. Every key to release must be held
    /// and be named once.
    pub fn update(&mut self, release: &[KeyCode], press: &[(KeyCode, Vec<KeyCode>)]) -> (r: (
        Vec<KeyCode>,
        Vec<KeyCode>,
    ))
        requires
            old(self).inv(),
            old(self)@.can_release(release@),
        ensures
            final(self).inv(),
            (final(self)@, r.0@, r.1@) == old(self)@.update(release@, remaps_view(press@)),
    {
        let (fell, rose) = self.apply(release, press);
        (keys_without(&fell, &rose), keys_without(&rose, &fell))
    }

    /// Takes note of an event of the key `code` and gives what the virtual device is to
    /// be sent for it.
    pub fn update_with_event(&mut self, event: &InputEvent, code: KeyCode) -> (out: Vec<
        InputEvent,
    >)
        requires
            old(self).inv(),
        ensures
            final(self).inv(),
            (final(self)@, out@) == old(self)@.step_key(*event, code),
    {
        let mut out: Vec<InputEvent> = Vec::new();
        match KeyEventType::from_value(event.value) {
            KeyEventType::Press => {
                self.edge(event, code, false, &mut out);
            },
            KeyEventType::Release => {
                self.edge(event, code, true, &mut out);
            },
            KeyEventType::Repeat => {
                match self.input_state.get(&code) {
                    Some(target_keys) => {
                        push_key_events(&mut out, target_keys, &event.time, KeyEventType::Repeat);
                        out.push(make_sync_event(&event.time));
                    },
                    None => {
                        out.push(*event);
                    },
                }
                assert(out@ =~= self@.repeat(*event, code));
            },
            KeyEventType::Unknown(_) => {
                out.push(*event);
                assert(out@ =~= seq![*event]);
            },
        }
        out
    }

    /// A press or a release of `code`: the guards take note, the edge is remapped, and
    /// the maps are brought up to date. The batch is appended to the empty `out`; a
    /// release that is dropped leaves it empty.
    fn edge(&mut self, event: &InputEvent, code: KeyCode, release: bool, out: &mut Vec<InputEvent>)
        requires
            old(self).inv(),
            old(out)@.len() == 0,
        ensures
            final(self).inv(),
            (final(self)@, final(out)@) == old(self)@.edge(*event, code, release),
    {
        self.note_edge(code, !release);
        let (rel, press) = self.remap(code, release);
        if release && press.len() > 0 {
            out.push(*event);
            out.push(make_sync_event(&event.time));
            assert(out@ =~= seq![*event, crate::event::sync_event(event.time)]);
            return ;
        }
        if release && rel.len() == 0 {
            assert(out@ =~= Seq::<InputEvent>::empty());
            return ;
        }
        proof {
            self.lemma_has_entry(code);
            self@.lemma_remap_press(code);
            self@.lemma_remap_release(code);
        }
        let known = self.key_map.contains_key(&code);
        let (fell, rose) = self.apply(rel.as_slice(), press.as_slice());
        let released = keys_without(&fell, &rose);
        let shown = if known {
            keys_without(&rose, &fell)
        } else {
            rose
        };
        push_key_events(out, &released, &event.time, KeyEventType::Release);
        push_key_events(out, &shown, &event.time, KeyEventType::Press);
        out.push(make_sync_event(&event.time));
        assert(out@ =~= crate::model::batch(event.time, released@, shown@));
    }

    /// The number of guards in the pool.
    pub fn guard_count(&self) -> (n: usize)
        requires
            self.inv(),
        ensures
            n == self@.guards.len(),
    {
        self.cond_bits.len()
    }

    /// The counter of guard `guard`: the number of its literals that are not satisfied.
    /// It is the number of set bits of the guard's bitmap.
    pub fn unsatisfied(&self, guard: usize) -> (n: usize)
        requires
            self.inv(),
            guard < self@.guards.len(),
        ensures
            n == self.counter(guard as int),
            n == popcount(self@.guards[guard as int].bits),
    {
        self.cond_bits[guard].unsatisfied()
    }

    /// The virtual keys that stand for the physical key `key`, if it is held.
    pub fn virtual_keys(&self, key: KeyCode) -> (keys: Option<Vec<KeyCode>>)
        ensures
            keys is Some <==> self@.held.input.contains_key(key),
            keys is Some ==> keys.unwrap()@ == self@.held.input[key],
    {
        match self.input_state.get(&key) {
            Some(keys) => Some(copy_keys(keys)),
            None => None,
        }
    }

    /// Whether the virtual key `key` is pressed.
    pub fn is_pressed(&self, key: KeyCode) -> (pressed: bool)
        ensures
            pressed == self@.held.output.contains_key(key),
    {
        self.output_state.contains_key(&key)
    }

    /// Whether the physical key `physical` holds the virtual key `key`.
    pub fn is_held_by(&self, key: KeyCode, physical: KeyCode) -> (held: bool)
        ensures
            held == (self@.held.output.contains_key(key) && self@.held.output[key].contains(
                physical,
            )),
    {
        match self.output_state.get(&key) {
            Some(owners) => owners.contains(&physical),
            None => false,
        }
    }

    /// Takes note of `event` and gives what the virtual device is to be sent for it. An
    /// event that is not about a key passes through unchanged.
    pub fn send(&mut self, event: &InputEvent) -> (out: Vec<InputEvent>)
        requires
            old(self).inv(),
        ensures
            final(self).inv(),
            (final(self)@, out@) == old(self)@.send(*event),
            final(self)@.held.sound(),
            old(self)@.synced() ==> final(self)@.synced(),
            old(self)@.held.rooted(old(self)@.rules) ==> final(self)@.held.rooted(
                final(self)@.rules,
            ),
            old(self)@.held.inverse() && !old(self)@.strands(*event)
                ==> final(self)@.held.inverse(),
    {
        proof {
            let before = self@;
            self.lemma_view_wf();
            if before.held.rooted(before.rules) {
                before.lemma_send_keeps_rooted(*event);
            }
            before.lemma_send_keeps_sound(*event);
            if before.held.inverse() && !before.strands(*event) {
                before.lemma_send_keeps_inverse(*event);
            }
            if before.synced() {
                before.lemma_send_keeps_synced(*event);
            }
        }
        match event.event_code {
            EventCode::Key(key) => self.update_with_event(event, key),
            _ => {
                let mut out: Vec<InputEvent> = Vec::new();
                out.push(*event);
                assert(out@ =~= seq![*event]);
                out
            },
        }
    }
}

} // verus!
