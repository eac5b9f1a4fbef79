//! The machine emits no key out of the blue.
//!
//! A key that the machine emits is the key of the event that came in, a key
//! that came in earlier and still holds itself, or a key that a rule lists as
//! a target. A virtual device that supports the keys of the input device and
//! the targets of the rules can therefore emit whatever the machine asks for.
use vstd::prelude::*;
use crate::event::{EventCode, InputEvent, KeyCode, KeyEventType, key_events};
use crate::laws::maps::{
    lemma_distinct_contains,
    lemma_drain,
    lemma_engage,
    lemma_press_all,
    lemma_release_all,
    lemma_tally_contains,
    owns,
    stands,
};
use crate::laws::batch::lemma_without_contains;
use crate::mapping::{Mapping, mappings_view};
use crate::model::{
    Held,
    MachineView,
    Remap,
    RuleView,
    distinct,
    lookup,
    merge_onto,
    press_all,
    release_all,
    secondary,
    without,
};
use crate::remapper::{output_keys_of, table_keys};

verus! {

/// Whether some rule lists `v` among the virtual keys of one of its entries.
pub open spec fn is_target(rules: Seq<RuleView>, v: KeyCode) -> bool {
    exists|r: int, e: int|
        0 <= r < rules.len() && 0 <= e < rules[r].mappings.len() && (
        #[trigger] rules[r].mappings[e]).1.contains(v)
}

/// Every virtual key of every entry of `table` is a target of `rules`.
pub open spec fn targets_only(table: Seq<Remap>, rules: Seq<RuleView>) -> bool {
    forall|i: int, v: KeyCode|
        0 <= i < table.len() && #[trigger] table[i].1.contains(v) ==> is_target(rules, v)
}

/// Some entry of `press` for the physical key `q` lists the virtual key `v`.
pub open spec fn feeds(press: Seq<Remap>, q: KeyCode, v: KeyCode) -> bool {
    exists|i: int| 0 <= i < press.len() && (#[trigger] press[i]).0 == q && press[i].1.contains(v)
}

impl Held {
    /// Every pressed virtual key is held by itself or is a target of `rules`.
    pub open spec fn rooted(self, rules: Seq<RuleView>) -> bool {
        forall|v: KeyCode, p: KeyCode| #[trigger]
            owns(self.output, v, p) ==> v == p || is_target(rules, v)
    }
}

/// Merging tables of targets gives a table of targets.
proof fn lemma_merge_targets(front: Seq<Remap>, more: Seq<Remap>, rules: Seq<RuleView>)
    requires
        targets_only(front, rules),
        targets_only(more, rules),
    ensures
        targets_only(merge_onto(front, more), rules),
    decreases more.len(),
{
    if more.len() > 0 {
        let rest = more.drop_last();
        assert(targets_only(rest, rules)) by {
            assert forall|i: int, v: KeyCode|
                0 <= i < rest.len() && #[trigger] rest[i].1.contains(v) implies is_target(
                rules,
                v,
            ) by {
                assert(more[i].1.contains(v));
            }
        }
        lemma_merge_targets(front, rest, rules);
        let table = merge_onto(front, rest);
        let out = merge_onto(front, more);
        assert forall|i: int, v: KeyCode|
            0 <= i < out.len() && #[trigger] out[i].1.contains(v) implies is_target(rules, v) by {
            if i < table.len() {
                assert(table[i].1.contains(v));
            } else {
                assert(more[more.len() - 1].1.contains(v));
            }
        }
    }
}

/// The held keys that a table of targets remaps are remapped to targets.
proof fn lemma_secondary_targets(
    input: Map<KeyCode, Seq<KeyCode>>,
    table: Seq<Remap>,
    key: KeyCode,
    rules: Seq<RuleView>,
)
    requires
        targets_only(table, rules),
    ensures
        targets_only(secondary(input, table, key), rules),
    decreases table.len(),
{
    if table.len() > 0 {
        let rest = table.drop_last();
        assert(targets_only(rest, rules)) by {
            assert forall|i: int, v: KeyCode|
                0 <= i < rest.len() && #[trigger] rest[i].1.contains(v) implies is_target(
                rules,
                v,
            ) by {
                assert(table[i].1.contains(v));
            }
        }
        lemma_secondary_targets(input, rest, key, rules);
        let others = secondary(input, rest, key);
        let out = secondary(input, table, key);
        assert forall|i: int, v: KeyCode|
            0 <= i < out.len() && #[trigger] out[i].1.contains(v) implies is_target(rules, v) by {
            if i < others.len() {
                assert(others[i].1.contains(v));
            } else {
                assert(table[table.len() - 1].1.contains(v));
            }
        }
    }
}

/// What is looked up in a table of targets are targets.
proof fn lemma_lookup_targets(table: Seq<Remap>, key: KeyCode, rules: Seq<RuleView>, v: KeyCode)
    requires
        targets_only(table, rules),
        lookup(table, key).contains(v),
    ensures
        is_target(rules, v),
    decreases table.len(),
{
    if table.len() > 0 {
        if table[0].0 == key {
            assert(table[0].1.contains(v));
        } else {
            let rest = table.drop_first();
            assert forall|i: int, w: KeyCode|
                0 <= i < rest.len() && #[trigger] rest[i].1.contains(w) implies is_target(
                rules,
                w,
            ) by {
                assert(table[i + 1].1.contains(w));
            }
            lemma_lookup_targets(rest, key, rules, v);
        }
    }
}

/// In `output` after releasing, a key holds only what it held before.
proof fn lemma_release_owns(held: Held, release: Seq<KeyCode>)
    ensures
        forall|v: KeyCode, p: KeyCode| #[trigger]
            owns(release_all(held, release).0.output, v, p) ==> owns(held.output, v, p),
    decreases release.len(),
{
    if release.len() > 0 {
        let front = release.drop_last();
        let src = release.last();
        lemma_release_owns(held, front);
        let (h1, r1) = release_all(held, front);
        let h2 = release_all(held, release).0;
        if h1.input.contains_key(src) {
            lemma_drain(h1.output, r1, src, h1.input[src]);
            assert forall|v: KeyCode, p: KeyCode| #[trigger]
                owns(h2.output, v, p) implies owns(held.output, v, p) by {
                assert(owns(h1.output, v, p));
            }
        }
    }
}

/// In `output` after pressing, a key holds what it held before and what an entry for it
/// lists.
proof fn lemma_press_owns(held: Held, press: Seq<Remap>)
    ensures
        forall|v: KeyCode, q: KeyCode| #[trigger]
            owns(press_all(held, press).0.output, v, q) ==> owns(held.output, v, q) || feeds(
                press,
                q,
                v,
            ),
    decreases press.len(),
{
    if press.len() > 0 {
        let front = press.drop_last();
        let src = press.last().0;
        let dst = press.last().1;
        let vs = distinct(dst);
        lemma_press_owns(held, front);
        let (h1, earlier) = press_all(held, front);
        let h2 = press_all(held, press).0;
        lemma_engage(h1.output, earlier, src, vs);
        assert forall|v: KeyCode, q: KeyCode| #[trigger]
            owns(h2.output, v, q) implies owns(held.output, v, q) || feeds(press, q, v) by {
            if owns(h1.output, v, q) {
                if feeds(front, q, v) {
                    let i = choose|i: int|
                        0 <= i < front.len() && (#[trigger] front[i]).0 == q
                            && front[i].1.contains(v);
                    assert(press[i] == front[i]);
                }
            } else {
                assert(q == src && vs.contains(v));
                lemma_distinct_contains(dst, v);
                assert(press[press.len() - 1].1.contains(v));
            }
        }
    }
}

impl MachineView {
    /// The table that a press puts into effect remaps to targets only.
    proof fn lemma_table_targets(self, key: KeyCode, n: int)
        requires
            0 <= n <= self.rules.len(),
        ensures
            targets_only(self.table_upto(key, n), self.rules),
        decreases n,
    {
        if n > 0 {
            self.lemma_table_targets(key, n - 1);
            let more = self.rules[n - 1].mappings;
            assert(targets_only(more, self.rules)) by {
                assert forall|i: int, v: KeyCode|
                    0 <= i < more.len() && #[trigger] more[i].1.contains(v) implies is_target(
                    self.rules,
                    v,
                ) by {
                    assert(self.rules[n - 1].mappings[i].1.contains(v));
                }
            }
            lemma_merge_targets(self.table_upto(key, n - 1), more, self.rules);
        }
    }

    /// What an edge asks to press stands for the key of the edge or for targets.
    proof fn lemma_remap_targets(self, key: KeyCode, release: bool)
        ensures
            forall|q: KeyCode, v: KeyCode| #[trigger]
                feeds(self.remap(key, release).1, q, v) ==> v == key || is_target(self.rules, v),
    {
        let prs = self.remap(key, release).1;
        assert forall|q: KeyCode, v: KeyCode| #[trigger] feeds(prs, q, v) implies v == key
            || is_target(self.rules, v) by {
            let i = choose|i: int|
                0 <= i < prs.len() && (#[trigger] prs[i]).0 == q && prs[i].1.contains(v);
            if !release && self.has_entry(key) {
                let table = self.table(key);
                let others = secondary(self.held.input, table, key);
                self.lemma_table_targets(key, self.rules.len() as int);
                lemma_secondary_targets(self.held.input, table, key, self.rules);
                if i < others.len() {
                    assert(others[i].1.contains(v));
                } else if lookup(table, key).contains(v) {
                    lemma_lookup_targets(table, key, self.rules, v);
                } else {
                    assert(seq![key][0] == key);
                }
            } else {
                assert(seq![key][0] == key);
            }
        }
    }

    /// Whatever comes in, every pressed virtual key stays held by itself or a target.
    pub proof fn lemma_send_keeps_rooted(self, event: InputEvent)
        requires
            self.held.rooted(self.rules),
        ensures
            self.send(event).0.rules == self.rules,
            self.send(event).0.held.rooted(self.rules),
    {
        match event.event_code {
            EventCode::Key(key) => {
                match KeyEventType::spec_from_value(event.value) {
                    KeyEventType::Release => self.lemma_edge_keeps_rooted(event, key, true),
                    KeyEventType::Press => self.lemma_edge_keeps_rooted(event, key, false),
                    _ => {},
                }
            },
            _ => {},
        }
    }

    /// A press or a release keeps every pressed virtual key held by itself or a target.
    proof fn lemma_edge_keeps_rooted(self, event: InputEvent, key: KeyCode, release: bool)
        requires
            self.held.rooted(self.rules),
        ensures
            self.edge(event, key, release).0.rules == self.rules,
            self.edge(event, key, release).0.held.rooted(self.rules),
    {
        let noted = self.touch(key, !release);
        let (rel, prs) = noted.remap(key, release);
        let (h1, raw) = release_all(noted.held, rel);
        let next = self.edge(event, key, release).0;
        lemma_release_owns(noted.held, rel);
        lemma_press_owns(h1, prs);
        noted.lemma_remap_targets(key, release);
        assert forall|v: KeyCode, p: KeyCode| #[trigger]
            owns(next.held.output, v, p) implies v == p || is_target(self.rules, v) by {
            if !(release && prs.len() > 0) {
                if owns(h1.output, v, p) {
                    assert(owns(self.held.output, v, p));
                } else {
                    assert(feeds(prs, p, v));
                    if v == key && p != key {
                        noted.lemma_feeds_key(key, release, p);
                    }
                }
            }
        }
    }

    /// An entry that an edge of `key` asks to press for another key lists targets only.
    proof fn lemma_feeds_key(self, key: KeyCode, release: bool, q: KeyCode)
        requires
            q != key,
            feeds(self.remap(key, release).1, q, key),
        ensures
            is_target(self.rules, key),
    {
        let prs = self.remap(key, release).1;
        let i = choose|i: int|
            0 <= i < prs.len() && (#[trigger] prs[i]).0 == q && prs[i].1.contains(key);
        if !release && self.has_entry(key) {
            let table = self.table(key);
            let others = secondary(self.held.input, table, key);
            self.lemma_table_targets(key, self.rules.len() as int);
            lemma_secondary_targets(self.held.input, table, key, self.rules);
            assert(i < others.len());
            assert(others[i].1.contains(key));
        }
    }

    /// Every key event that the machine emits is for the key of the event that came in,
    /// for a key that holds itself, or for a target of a rule.
    pub proof fn lemma_emits_known_keys(self, event: InputEvent, i: int)
        requires
            self.held.sound(),
            self.held.rooted(self.rules),
            0 <= i < self.send(event).1.len(),
        ensures
            match self.send(event).1[i].event_code {
                EventCode::Key(v) => {
                    ||| event.event_code == EventCode::Key(v)
                    ||| owns(self.held.output, v, v)
                    ||| is_target(self.rules, v)
                },
                _ => true,
            },
    {
        let out = self.send(event).1;
        match event.event_code {
            EventCode::Key(key) => {
                match KeyEventType::spec_from_value(event.value) {
                    KeyEventType::Release => self.lemma_edge_emits_known_keys(event, key, true, i),
                    KeyEventType::Press => self.lemma_edge_emits_known_keys(event, key, false, i),
                    KeyEventType::Repeat => {
                        if self.held.input.contains_key(key) {
                            let vs = self.held.input[key];
                            let repeats = key_events(vs, event.time, KeyEventType::Repeat);
                            if i < vs.len() {
                                assert(out[i] == repeats[i]);
                                assert(stands(self.held.input, key, vs[i]));
                                assert(owns(self.held.output, vs[i], key));
                            }
                        }
                    },
                    _ => {},
                }
            },
            _ => {},
        }
    }

    /// Every key event in the batch of a press or a release is for a known key.
    proof fn lemma_edge_emits_known_keys(
        self,
        event: InputEvent,
        key: KeyCode,
        release: bool,
        i: int,
    )
        requires
            self.held.sound(),
            self.held.rooted(self.rules),
            event.event_code == EventCode::Key(key),
            0 <= i < self.edge(event, key, release).1.len(),
        ensures
            match self.edge(event, key, release).1[i].event_code {
                EventCode::Key(v) => {
                    ||| v == key
                    ||| owns(self.held.output, v, v)
                    ||| is_target(self.rules, v)
                },
                _ => true,
            },
    {
        let out = self.edge(event, key, release).1;
        let noted = self.touch(key, !release);
        let (rel, prs) = noted.remap(key, release);
        if !(release && prs.len() > 0) && !(release && rel.len() == 0) {
            let (h1, fell) = release_all(noted.held, rel);
            let (h2, rose) = press_all(h1, prs);
            let released = without(fell, rose);
            let pressed = noted.shown(key, fell, rose);
            let ups = key_events(released, event.time, KeyEventType::Release);
            let downs = key_events(pressed, event.time, KeyEventType::Press);
            assert(out == ups + downs + seq![crate::event::sync_event(event.time)]);
            lemma_release_all(noted.held, rel);
            lemma_press_all(h1, prs);
            lemma_release_owns(noted.held, rel);
            lemma_press_owns(h1, prs);
            noted.lemma_remap_targets(key, release);
            if i < ups.len() {
                let v = released[i];
                assert(out[i] == ups[i]);
                lemma_without_contains(fell, rose, v);
                lemma_tally_contains(fell, v);
                assert(self.held.output.contains_key(v));
                let p = choose|p: KeyCode| #[trigger] self.held.output[v].contains(p);
                assert(owns(self.held.output, v, p));
            } else if i < ups.len() + downs.len() {
                let v = pressed[i - ups.len()];
                assert(out[i] == downs[i - ups.len()]);
                lemma_without_contains(rose, fell, v);
                assert(rose.contains(v));
                lemma_tally_contains(rose, v);
                assert(h2.output.contains_key(v));
                assert(!h1.output.contains_key(v));
                let q = choose|q: KeyCode| #[trigger] h2.output[v].contains(q);
                assert(owns(h2.output, v, q));
                assert(feeds(prs, q, v));
            }
        }
    }
}

/// The keys that `table_keys` lists are the keys that the entries of the table list.
proof fn lemma_table_keys(table: Seq<Remap>, v: KeyCode)
    ensures
        table_keys(table).contains(v) <==> exists|e: int|
            0 <= e < table.len() && (#[trigger] table[e]).1.contains(v),
    decreases table.len(),
{
    if table.len() == 0 {
        assert(!table_keys(table).contains(v));
    } else {
        let front = table.drop_last();
        let last = table.last();
        lemma_table_keys(front, v);
        let a = table_keys(front);
        let all = table_keys(table);
        assert(all == a + last.1);
        if all.contains(v) {
            let i = choose|i: int| 0 <= i < all.len() && all[i] == v;
            if i < a.len() {
                assert(a[i] == v);
                let e = choose|e: int| 0 <= e < front.len() && (#[trigger] front[e]).1.contains(v);
                assert(table[e].1.contains(v));
            } else {
                assert(last.1[i - a.len()] == v);
                assert(table[table.len() - 1].1.contains(v));
            }
        }
        if exists|e: int| 0 <= e < table.len() && (#[trigger] table[e]).1.contains(v) {
            let e = choose|e: int| 0 <= e < table.len() && (#[trigger] table[e]).1.contains(v);
            if e < front.len() {
                assert(front[e].1.contains(v));
                let i = choose|i: int| 0 <= i < a.len() && a[i] == v;
                assert(all[i] == v);
            } else {
                let j = choose|j: int| 0 <= j < last.1.len() && last.1[j] == v;
                assert(all[a.len() + j] == v);
            }
        }
    }
}

/// The keys that a virtual device is asked to support for `rules` are the targets of
/// the rules.
pub proof fn lemma_output_keys_are_targets(rules: Seq<Mapping>, v: KeyCode)
    ensures
        output_keys_of(rules).contains(v) <==> exists|r: int, e: int|
            0 <= r < rules.len() && 0 <= e < rules[r]@.mappings.len() && (
            #[trigger] rules[r]@.mappings[e]).1.contains(v),
    decreases rules.len(),
{
    if rules.len() == 0 {
        assert(!output_keys_of(rules).contains(v));
    } else {
        let front = rules.drop_last();
        let last = rules.last();
        lemma_output_keys_are_targets(front, v);
        lemma_table_keys(last@.mappings, v);
        let a = output_keys_of(front);
        let b = table_keys(last@.mappings);
        let all = output_keys_of(rules);
        assert(all == a + b);
        if all.contains(v) {
            let i = choose|i: int| 0 <= i < all.len() && all[i] == v;
            if i < a.len() {
                assert(a[i] == v);
                let (r, e) = choose|r: int, e: int|
                    0 <= r < front.len() && 0 <= e < front[r]@.mappings.len() && (
                    #[trigger] front[r]@.mappings[e]).1.contains(v);
                assert(rules[r]@.mappings[e].1.contains(v));
            } else {
                assert(b[i - a.len()] == v);
                let e = choose|e: int|
                    0 <= e < last@.mappings.len() && (#[trigger] last@.mappings[e]).1.contains(v);
                assert(rules[rules.len() - 1]@.mappings[e].1.contains(v));
            }
        }
        if exists|r: int, e: int|
            0 <= r < rules.len() && 0 <= e < rules[r]@.mappings.len() && (
            #[trigger] rules[r]@.mappings[e]).1.contains(v) {
            let (r, e) = choose|r: int, e: int|
                0 <= r < rules.len() && 0 <= e < rules[r]@.mappings.len() && (
                #[trigger] rules[r]@.mappings[e]).1.contains(v);
            if r < front.len() {
                assert(front[r]@.mappings[e].1.contains(v));
                let i = choose|i: int| 0 <= i < a.len() && a[i] == v;
                assert(all[i] == v);
            } else {
                assert(last@.mappings[e].1.contains(v));
                let j = choose|j: int| 0 <= j < b.len() && b[j] == v;
                assert(all[a.len() + j] == v);
            }
        }
    }
}

impl MachineView {
    /// The targets of a compiled machine are the keys that a virtual device is asked to
    /// support for its rules.
    pub proof fn lemma_targets_are_output_keys(self, rules: Seq<Mapping>, v: KeyCode)
        requires
            self.compiled_from(mappings_view(rules)),
        ensures
            is_target(self.rules, v) <==> output_keys_of(rules).contains(v),
            self.held.rooted(self.rules),
    {
        lemma_output_keys_are_targets(rules, v);
        if is_target(self.rules, v) {
            let (r, e) = choose|r: int, e: int|
                0 <= r < self.rules.len() && 0 <= e < self.rules[r].mappings.len() && (
                #[trigger] self.rules[r].mappings[e]).1.contains(v);
            assert(self.rules[r].mappings == mappings_view(rules)[r].mappings);
            assert(rules[r]@.mappings[e].1.contains(v));
        }
        if output_keys_of(rules).contains(v) {
            let (r, e) = choose|r: int, e: int|
                0 <= r < rules.len() && 0 <= e < rules[r]@.mappings.len() && (
                #[trigger] rules[r]@.mappings[e]).1.contains(v);
            assert(self.rules[r].mappings == mappings_view(rules)[r].mappings);
            assert(self.rules[r].mappings[e].1.contains(v));
        }
    }
}

} // verus!
