//! The abstract remap machine.
//!
//! The machine holds the guards with their bitmaps, the rules, and two maps:
//! `input`, from each physical key that is held to the virtual keys that stand
//! for it, and `output`, from each virtual key that is pressed to the physical
//! keys that hold it. Everything here is a specification function; the
//! executable machine is proved to compute exactly what these functions say.
//!
//! Where the order of events is otherwise open, this machine fixes it: rules
//! are consulted in the order in which they were given, the entries of a
//! remap table keep the order of the rules they came from, and the virtual
//! keys of a physical key keep the order in which the rule lists them.
//!
//! A virtual key that falls and goes down again within one event is not seen
//! to toggle: it is neither released nor pressed. The press of a key that no
//! rule speaks of is the one exception. It is always handed on, also while
//! the key is held, so that a machine without rules changes nothing.
use vstd::prelude::*;
use crate::cond_bits::{leading_ones, popcount};
use crate::mapping::MappingView;
use crate::util::strictly_sorted;
use crate::warning::WarningView;
use crate::event::{EventCode, InputEvent, KeyCode, KeyEventType, TimeVal, key_events, sync_event};

verus! {

/// One entry of a remap table: a physical key and the virtual keys that stand for it.
pub type Remap = (KeyCode, Seq<KeyCode>);

/// A guard: the keys that must be held, the keys that must not be held, and one bit for
/// each of them, first those of `cond`, then those of `except`. A set bit says that the
/// literal is not satisfied.
pub struct GuardView {
    pub cond: Seq<KeyCode>,
    pub except: Seq<KeyCode>,
    pub bits: Seq<bool>,
}

impl GuardView {
    /// There is one bit for each literal.
    pub open spec fn wf(self) -> bool {
        self.bits.len() == self.cond.len() + self.except.len()
    }

    /// The key that the literal at position `i` names.
    pub open spec fn literal(self, i: int) -> KeyCode {
        if i < self.cond.len() {
            self.cond[i]
        } else {
            self.except[i - self.cond.len()]
        }
    }

    /// The guard holds: no literal is counted as unsatisfied.
    pub open spec fn eligible(self) -> bool {
        popcount(self.bits) == 0
    }

    /// The bits are as they are while no key is held: every `cond` literal is unsatisfied
    /// and every `except` literal is satisfied.
    pub open spec fn fresh(self) -> bool {
        self.bits == leading_ones(self.cond.len(), self.cond.len() + self.except.len())
    }

    /// The guard after an edge of `key`. A press satisfies the `cond` literals that name
    /// the key and violates the `except` literals that name it; a release does the
    /// opposite. All other bits stay.
    pub open spec fn touch(self, key: KeyCode, press: bool) -> GuardView {
        GuardView {
            bits: Seq::new(
                self.bits.len(),
                |i: int|
                    if self.literal(i) == key {
                        (i < self.cond.len()) != press
                    } else {
                        self.bits[i]
                    },
            ),
            ..self
        }
    }

    /// The bits say which literals are unsatisfied when exactly the keys of `held` are
    /// held: a `cond` bit is set while its key is not held, an `except` bit while its key
    /// is held.
    pub open spec fn tracks(self, held: Set<KeyCode>) -> bool {
        forall|i: int|
            0 <= i < self.bits.len() ==> #[trigger] self.bits[i] == ((i < self.cond.len())
                != held.contains(self.literal(i)))
    }
}

/// A rule: the guard it waits for, the keys whose press may fire it, and what it remaps.
pub struct RuleView {
    pub guard: int,
    pub when: Set<KeyCode>,
    pub mappings: Seq<Remap>,
}

/// Which keys are held, seen from both sides.
pub struct Held {
    /// For each physical key that is held, the virtual keys that stand for it.
    pub input: Map<KeyCode, Seq<KeyCode>>,
    /// For each virtual key that is pressed, the physical keys that hold it.
    pub output: Map<KeyCode, Set<KeyCode>>,
}

/// `keys` without repetitions: of each key the first occurrence stays.
pub open spec fn distinct(keys: Seq<KeyCode>) -> Seq<KeyCode>
    decreases keys.len(),
{
    if keys.len() == 0 {
        seq![]
    } else {
        let front = distinct(keys.drop_last());
        if front.contains(keys.last()) {
            front
        } else {
            front.push(keys.last())
        }
    }
}

/// The keys of `keys` that do not occur in `dropped`, in their order.
pub open spec fn without(keys: Seq<KeyCode>, dropped: Seq<KeyCode>) -> Seq<KeyCode>
    decreases keys.len(),
{
    if keys.len() == 0 {
        seq![]
    } else {
        let front = without(keys.drop_last(), dropped);
        if dropped.contains(keys.last()) {
            front
        } else {
            front.push(keys.last())
        }
    }
}

/// Whether `table` has an entry for `src`.
pub open spec fn has_src(table: Seq<Remap>, src: KeyCode) -> bool {
    exists|i: int| 0 <= i < table.len() && (#[trigger] table[i]).0 == src
}

/// The virtual keys of the first entry of `table` for `src`.
pub open spec fn lookup(table: Seq<Remap>, src: KeyCode) -> Seq<KeyCode>
    decreases table.len(),
{
    if table.len() == 0 {
        seq![]
    } else if table[0].0 == src {
        table[0].1
    } else {
        lookup(table.drop_first(), src)
    }
}

/// `front` with those entries of `more` added whose physical key has no entry yet. Where
/// two entries speak of one key, the first one wins.
pub open spec fn merge_onto(front: Seq<Remap>, more: Seq<Remap>) -> Seq<Remap>
    decreases more.len(),
{
    if more.len() == 0 {
        front
    } else {
        let table = merge_onto(front, more.drop_last());
        if has_src(table, more.last().0) {
            table
        } else {
            table.push(more.last())
        }
    }
}

/// The entries of `more` that are ignored when `more` is merged onto `front`, each with
/// the entry that is kept in its place.
pub open spec fn clashes(front: Seq<Remap>, more: Seq<Remap>) -> Seq<WarningView>
    decreases more.len(),
{
    if more.len() == 0 {
        seq![]
    } else {
        let earlier = clashes(front, more.drop_last());
        let table = merge_onto(front, more.drop_last());
        let entry = more.last();
        if has_src(table, entry.0) {
            earlier.push(
                WarningView::AmbiguousRules {
                    src: entry.0,
                    kept: lookup(table, entry.0),
                    ignored: entry.1,
                },
            )
        } else {
            earlier
        }
    }
}

/// Where the first entry of `table` for `src` stands at `i`, looking `src` up gives the
/// virtual keys of that entry.
pub proof fn lemma_lookup_first(table: Seq<Remap>, i: int, src: KeyCode)
    requires
        0 <= i < table.len(),
        table[i].0 == src,
        forall|j: int| 0 <= j < i ==> table[j].0 != src,
    ensures
        lookup(table, src) == table[i].1,
    decreases i,
{
    if i > 0 {
        let rest = table.drop_first();
        assert(table[0].0 != src);
        assert(rest[i - 1] == table[i]);
        assert forall|j: int| 0 <= j < i - 1 implies rest[j].0 != src by {
            assert(rest[j] == table[j + 1]);
        }
        lemma_lookup_first(rest, i - 1, src);
    }
}

/// The physical keys of `table`, in its order.
pub open spec fn sources(table: Seq<Remap>) -> Seq<KeyCode> {
    Seq::new(table.len(), |i: int| table[i].0)
}

/// The entries of `table` for keys other than `key` that are held in `input`.
pub open spec fn secondary(
    input: Map<KeyCode, Seq<KeyCode>>,
    table: Seq<Remap>,
    key: KeyCode,
) -> Seq<Remap>
    decreases table.len(),
{
    if table.len() == 0 {
        seq![]
    } else {
        let front = secondary(input, table.drop_last(), key);
        let entry = table.last();
        if entry.0 != key && input.contains_key(entry.0) {
            front.push(entry)
        } else {
            front
        }
    }
}

/// The physical key `src` lets go of the virtual keys `vs`, one after the other. A
/// virtual key that no physical key holds any more leaves `output` and is appended to
/// `released`.
pub open spec fn drain(
    output: Map<KeyCode, Set<KeyCode>>,
    released: Seq<KeyCode>,
    src: KeyCode,
    vs: Seq<KeyCode>,
) -> (Map<KeyCode, Set<KeyCode>>, Seq<KeyCode>)
    decreases vs.len(),
{
    if vs.len() == 0 {
        (output, released)
    } else {
        let (o, r) = drain(output, released, src, vs.drop_last());
        let v = vs.last();
        if !o.contains_key(v) {
            (o, r)
        } else {
            let owners = o[v].remove(src);
            if owners.is_empty() {
                (o.remove(v), r.push(v))
            } else {
                (o.insert(v, owners), r)
            }
        }
    }
}

/// The physical keys `release` are released in turn. Gives the maps afterwards and the
/// virtual keys that fell, in the order in which they fell.
pub open spec fn release_all(held: Held, release: Seq<KeyCode>) -> (Held, Seq<KeyCode>)
    decreases release.len(),
{
    if release.len() == 0 {
        (held, seq![])
    } else {
        let (h, r) = release_all(held, release.drop_last());
        let src = release.last();
        if !h.input.contains_key(src) {
            (h, r)
        } else {
            let (o, r2) = drain(h.output, r, src, h.input[src]);
            (Held { input: h.input.remove(src), output: o }, r2)
        }
    }
}

/// The physical key `src` takes hold of the virtual keys `vs`, one after the other. A
/// virtual key that nothing held before enters `output` and is appended to `pressed`.
pub open spec fn engage(
    output: Map<KeyCode, Set<KeyCode>>,
    pressed: Seq<KeyCode>,
    src: KeyCode,
    vs: Seq<KeyCode>,
) -> (Map<KeyCode, Set<KeyCode>>, Seq<KeyCode>)
    decreases vs.len(),
{
    if vs.len() == 0 {
        (output, pressed)
    } else {
        let (o, p) = engage(output, pressed, src, vs.drop_last());
        let v = vs.last();
        if o.contains_key(v) {
            (o.insert(v, o[v].insert(src)), p)
        } else {
            (o.insert(v, set![src]), p.push(v))
        }
    }
}

/// The entries of `press` are pressed in turn: each physical key is mapped to the
/// distinct virtual keys of its entry. Gives the maps afterwards and the virtual keys
/// that went down, in the order in which they went down.
pub open spec fn press_all(held: Held, press: Seq<Remap>) -> (Held, Seq<KeyCode>)
    decreases press.len(),
{
    if press.len() == 0 {
        (held, seq![])
    } else {
        let (h, earlier) = press_all(held, press.drop_last());
        let src = press.last().0;
        let vs = distinct(press.last().1);
        let (o, pressed) = engage(h.output, earlier, src, vs);
        (Held { input: h.input.insert(src, vs), output: o }, pressed)
    }
}

/// The batch that tells of the keys that fell and of the keys that went down: the
/// releases, then the presses, then the synchronization event.
pub open spec fn batch(time: TimeVal, released: Seq<KeyCode>, pressed: Seq<KeyCode>) -> Seq<
    InputEvent,
> {
    key_events(released, time, KeyEventType::Release) + key_events(
        pressed,
        time,
        KeyEventType::Press,
    ) + seq![sync_event(time)]
}

/// The state of the machine.
pub struct MachineView {
    pub guards: Seq<GuardView>,
    pub rules: Seq<RuleView>,
    pub held: Held,
}

impl MachineView {
    /// Every guard has its bits and every rule names a guard.
    pub open spec fn wf(self) -> bool {
        &&& forall|g: int| 0 <= g < self.guards.len() ==> (#[trigger] self.guards[g]).wf()
        &&& forall|r: int|
            0 <= r < self.rules.len() ==> 0 <= (#[trigger] self.rules[r]).guard < self.guards.len()
    }

    /// Whether a rule before rule `r` needs guard `g`.
    pub open spec fn needed_before(self, r: int, g: int) -> bool {
        exists|q: int| 0 <= q < r && (#[trigger] self.rules[q]).guard == g
    }

    /// The machine is what compiling `rules` gives. It has one rule for each of `rules`,
    /// in their order, with the same triggers and mappings, and with a guard that holds
    /// the rule's `cond` and `except` keys. Every guard lists its keys in ascending order
    /// and is fresh; no two guards list the same keys, so rules with the same `cond` and
    /// `except` share one guard. The guards stand in the order in which the rules first
    /// need them, and there is no guard that no rule needs. No key is held.
    pub open spec fn compiled_from(self, rules: Seq<MappingView>) -> bool {
        &&& self.wf()
        &&& self.rules.len() == rules.len()
        &&& forall|r: int|
            0 <= r < rules.len() ==> {
                &&& (#[trigger] self.rules[r]).when == rules[r].when
                &&& self.rules[r].mappings == rules[r].mappings
                &&& self.guards[self.rules[r].guard].cond.to_set() == rules[r].cond
                &&& self.guards[self.rules[r].guard].except.to_set() == rules[r].except
            }
        &&& forall|r: int, g: int|
            0 <= r < rules.len() && 0 <= g < self.rules[r].guard ==> #[trigger] self.needed_before(
                r,
                g,
            )
        &&& forall|g: int|
            0 <= g < self.guards.len() ==> {
                &&& strictly_sorted((#[trigger] self.guards[g]).cond)
                &&& strictly_sorted(self.guards[g].except)
                &&& self.guards[g].fresh()
                &&& exists|r: int|
                    0 <= r < self.rules.len() && (#[trigger] self.rules[r]).guard == g
            }
        &&& forall|g: int, h: int|
            0 <= g < h < self.guards.len() ==> !((#[trigger] self.guards[g]).cond == (
            #[trigger] self.guards[h]).cond && self.guards[g].except == self.guards[h].except)
        &&& self.held.input == Map::<KeyCode, Seq<KeyCode>>::empty()
        &&& self.held.output == Map::<KeyCode, Set<KeyCode>>::empty()
    }

    /// Whether any rule speaks of `key`, in a guard or as a trigger.
    pub open spec fn has_entry(self, key: KeyCode) -> bool {
        ||| exists|g: int, i: int|
            0 <= g < self.guards.len() && 0 <= i < self.guards[g].bits.len()
                && #[trigger] self.guards[g].literal(i) == key
        ||| exists|r: int|
            0 <= r < self.rules.len() && (#[trigger] self.rules[r]).when.contains(key)
    }

    /// The machine after the guards have taken note of an edge of `key`.
    pub open spec fn touch(self, key: KeyCode, press: bool) -> MachineView {
        MachineView {
            guards: Seq::new(self.guards.len(), |g: int| self.guards[g].touch(key, press)),
            ..self
        }
    }

    /// Taking note of an edge changes nothing about which keys the rules speak of.
    pub proof fn lemma_touch_has_entry(self, edge: KeyCode, press: bool, key: KeyCode)
        ensures
            self.touch(edge, press).has_entry(key) == self.has_entry(key),
    {
        let noted = self.touch(edge, press);
        if self.has_entry(key) {
            if exists|g: int, i: int|
                0 <= g < self.guards.len() && 0 <= i < self.guards[g].bits.len()
                    && #[trigger] self.guards[g].literal(i) == key {
                let (g, i) = choose|g: int, i: int|
                    0 <= g < self.guards.len() && 0 <= i < self.guards[g].bits.len()
                        && #[trigger] self.guards[g].literal(i) == key;
                assert(noted.guards[g].literal(i) == key);
            } else {
                let r = choose|r: int|
                    0 <= r < self.rules.len() && (#[trigger] self.rules[r]).when.contains(key);
                assert(noted.rules[r].when.contains(key));
            }
        }
        if noted.has_entry(key) {
            if exists|g: int, i: int|
                0 <= g < noted.guards.len() && 0 <= i < noted.guards[g].bits.len()
                    && #[trigger] noted.guards[g].literal(i) == key {
                let (g, i) = choose|g: int, i: int|
                    0 <= g < noted.guards.len() && 0 <= i < noted.guards[g].bits.len()
                        && #[trigger] noted.guards[g].literal(i) == key;
                assert(self.guards[g].literal(i) == key);
            } else {
                let r = choose|r: int|
                    0 <= r < noted.rules.len() && (#[trigger] noted.rules[r]).when.contains(key);
                assert(self.rules[r].when.contains(key));
            }
        }
    }

    /// Whether the guard of rule `r` holds.
    pub open spec fn rule_active(self, r: int) -> bool {
        self.guards[self.rules[r].guard].eligible()
    }

    /// Whether a press of `key` fires rule `r`: the key is one of its triggers and its
    /// guard holds.
    pub open spec fn fires(self, r: int, key: KeyCode) -> bool {
        self.rules[r].when.contains(key) && self.rule_active(r)
    }

    /// The remap table that the first `n` rules give for a press of `key`. The rules are
    /// taken in their order, and a rule adds an entry only for a key that has none yet.
    pub open spec fn table_upto(self, key: KeyCode, n: int) -> Seq<Remap>
        decreases n,
    {
        if n <= 0 {
            seq![]
        } else {
            let front = self.table_upto(key, n - 1);
            if self.fires(n - 1, key) {
                merge_onto(front, self.rules[n - 1].mappings)
            } else {
                front
            }
        }
    }

    /// The remap table that a press of `key` puts into effect.
    pub open spec fn table(self, key: KeyCode) -> Seq<Remap> {
        self.table_upto(key, self.rules.len() as int)
    }

    /// The entries that the first `n` rules give for a press of `key` and that are
    /// ignored because an earlier entry remaps the same key.
    pub open spec fn clashes_upto(self, key: KeyCode, n: int) -> Seq<WarningView>
        decreases n,
    {
        if n <= 0 {
            seq![]
        } else {
            let front = self.clashes_upto(key, n - 1);
            if self.fires(n - 1, key) {
                front + clashes(self.table_upto(key, n - 1), self.rules[n - 1].mappings)
            } else {
                front
            }
        }
    }

    /// Rules that `key` does not trigger clash with nothing.
    pub proof fn lemma_clashes_skip(self, key: KeyCode, a: int, b: int)
        requires
            0 <= a <= b,
            forall|r: int| a <= r < b ==> !(#[trigger] self.rules[r]).when.contains(key),
        ensures
            self.clashes_upto(key, b) == self.clashes_upto(key, a),
        decreases b - a,
    {
        if a < b {
            assert(!self.rules[b - 1].when.contains(key));
            self.lemma_clashes_skip(key, a, b - 1);
        }
    }

    /// What is worth telling of a press of `key`, in a machine whose guards have taken
    /// note of the press: the entries that are ignored, and that the key is held already
    /// where it is released first.
    pub open spec fn press_warnings(self, key: KeyCode) -> Seq<WarningView> {
        let again: Seq<WarningView> = if self.held.input.contains_key(key) {
            seq![WarningView::DoublePress(key)]
        } else {
            seq![]
        };
        if !self.has_entry(key) {
            again
        } else if has_src(self.table(key), key) {
            self.clashes_upto(key, self.rules.len() as int) + again
        } else {
            self.clashes_upto(key, self.rules.len() as int)
        }
    }

    /// What is worth telling of `event`, before the machine takes note of it.
    pub open spec fn warnings(self, event: InputEvent) -> Seq<WarningView> {
        match event.event_code {
            EventCode::Key(key) => match KeyEventType::spec_from_value(event.value) {
                KeyEventType::Press => self.touch(key, true).press_warnings(key),
                KeyEventType::Release => if self.held.input.contains_key(key) {
                    seq![]
                } else {
                    seq![WarningView::UnpressedRelease(key)]
                },
                KeyEventType::Repeat => if self.held.input.contains_key(key) {
                    seq![]
                } else {
                    seq![WarningView::UnpressedRepeat(key)]
                },
                KeyEventType::Unknown(value) => seq![
                    WarningView::UnknownEventType { value, key },
                ],
            },
            _ => seq![],
        }
    }

    /// Rules that `key` does not trigger add nothing to its table.
    pub proof fn lemma_table_skip(self, key: KeyCode, a: int, b: int)
        requires
            0 <= a <= b,
            forall|r: int| a <= r < b ==> !(#[trigger] self.rules[r]).when.contains(key),
        ensures
            self.table_upto(key, b) == self.table_upto(key, a),
        decreases b - a,
    {
        if a < b {
            assert(!self.rules[b - 1].when.contains(key));
            self.lemma_table_skip(key, a, b - 1);
        }
    }

    /// What a press of `key` asks for: the physical keys to release, and the entries to
    /// press. Held keys that the table remaps come first, `key` itself comes last.
    pub open spec fn remap_press(self, key: KeyCode) -> (Seq<KeyCode>, Seq<Remap>) {
        let again: Seq<KeyCode> = if self.held.input.contains_key(key) {
            seq![key]
        } else {
            seq![]
        };
        if !self.has_entry(key) {
            (again, seq![(key, seq![key])])
        } else {
            let table = self.table(key);
            let others = secondary(self.held.input, table, key);
            if has_src(table, key) {
                (sources(others) + again, others.push((key, lookup(table, key))))
            } else {
                (sources(others), others.push((key, seq![key])))
            }
        }
    }

    /// What a release of `key` asks for. A key that is held is released. The release of
    /// a key that is not held is dropped where another key holds it as a virtual key,
    /// and is marked to pass through, by a press entry, where nothing does.
    pub open spec fn remap_release(self, key: KeyCode) -> (Seq<KeyCode>, Seq<Remap>) {
        if self.held.input.contains_key(key) {
            (seq![key], seq![])
        } else if self.held.output.contains_key(key) {
            (seq![], seq![])
        } else {
            (seq![key], seq![(key, seq![key])])
        }
    }

    /// What an edge of `key` asks for.
    pub open spec fn remap(self, key: KeyCode, release: bool) -> (Seq<KeyCode>, Seq<Remap>) {
        if release {
            self.remap_release(key)
        } else {
            self.remap_press(key)
        }
    }

    /// Whether the keys of `release` can be released: each is held, and none is named
    /// twice.
    pub open spec fn can_release(self, release: Seq<KeyCode>) -> bool {
        &&& release.no_duplicates()
        &&& forall|i: int|
            0 <= i < release.len() ==> self.held.input.contains_key(#[trigger] release[i])
    }

    /// Releases `release`, then presses `press`. Gives the machine afterwards, the
    /// virtual keys that fell and the virtual keys that went down, each in the order in
    /// which it happened.
    pub open spec fn apply(self, release: Seq<KeyCode>, press: Seq<Remap>) -> (
        MachineView,
        Seq<KeyCode>,
        Seq<KeyCode>,
    ) {
        let (h1, fell) = release_all(self.held, release);
        let (h2, rose) = press_all(h1, press);
        (MachineView { held: h2, ..self }, fell, rose)
    }

    /// Releases `release`, then presses `press`. Gives the machine afterwards, the
    /// virtual keys to release and the virtual keys to press. A virtual key that fell
    /// and went down again within the update is in neither list: it must not be seen
    /// to toggle.
    pub open spec fn update(self, release: Seq<KeyCode>, press: Seq<Remap>) -> (
        MachineView,
        Seq<KeyCode>,
        Seq<KeyCode>,
    ) {
        let (next, fell, rose) = self.apply(release, press);
        (next, without(fell, rose), without(rose, fell))
    }

    /// The virtual keys that a press or release of `key` shows as pressed, of those that
    /// went down. A key that fell and went down again is not shown. The one exception is
    /// a key that no rule speaks of: its press is always shown, so that a machine
    /// without rules hands every press on.
    pub open spec fn shown(self, key: KeyCode, fell: Seq<KeyCode>, rose: Seq<KeyCode>) -> Seq<
        KeyCode,
    > {
        if self.has_entry(key) {
            without(rose, fell)
        } else {
            rose
        }
    }

    /// The machine after a press or a release of `key`, and the batch it emits. The
    /// release of a key that is not held passes through, with a synchronization event,
    /// where the key is not pressed as a virtual key either, and is dropped without any
    /// output where another key holds it.
    pub open spec fn edge(self, event: InputEvent, key: KeyCode, release: bool) -> (
        MachineView,
        Seq<InputEvent>,
    ) {
        let noted = self.touch(key, !release);
        let (rel, prs) = noted.remap(key, release);
        if release && prs.len() > 0 {
            (noted, seq![event, sync_event(event.time)])
        } else if release && rel.len() == 0 {
            (noted, Seq::empty())
        } else {
            let (next, fell, rose) = noted.apply(rel, prs);
            (next, batch(event.time, without(fell, rose), noted.shown(key, fell, rose)))
        }
    }

    /// What a repeat of `key` emits: a repeat of each virtual key that stands for it, or
    /// the event itself where the key is not held.
    pub open spec fn repeat(self, event: InputEvent, key: KeyCode) -> Seq<InputEvent> {
        if self.held.input.contains_key(key) {
            key_events(self.held.input[key], event.time, KeyEventType::Repeat) + seq![
                sync_event(event.time),
            ]
        } else {
            seq![event]
        }
    }

    /// The machine after an event of `key`, and what it emits.
    pub open spec fn step_key(self, event: InputEvent, key: KeyCode) -> (
        MachineView,
        Seq<InputEvent>,
    ) {
        match KeyEventType::spec_from_value(event.value) {
            KeyEventType::Release => self.edge(event, key, true),
            KeyEventType::Press => self.edge(event, key, false),
            KeyEventType::Repeat => (self, self.repeat(event, key)),
            KeyEventType::Unknown(_) => (self, seq![event]),
        }
    }

    /// The machine after `event`, and what it emits. An event that is not about a key
    /// passes through.
    pub open spec fn send(self, event: InputEvent) -> (MachineView, Seq<InputEvent>) {
        match event.event_code {
            EventCode::Key(key) => self.step_key(event, key),
            _ => (self, seq![event]),
        }
    }

    /// The machine after the events of `events`, one after the other, and everything it
    /// emits for them.
    pub open spec fn run(self, events: Seq<InputEvent>) -> (MachineView, Seq<InputEvent>)
        decreases events.len(),
    {
        if events.len() == 0 {
            (self, seq![])
        } else {
            let (machine, emitted) = self.run(events.drop_last());
            let (next, out) = machine.send(events.last());
            (next, emitted + out)
        }
    }
}

} // verus!
