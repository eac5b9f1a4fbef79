//! Presses and releases of a virtual key balance.
use vstd::prelude::*;
use crate::event::{EventCode, InputEvent, KeyCode, KeyEventType, TimeVal, key_events, sync_event};
use crate::laws::maps::{
    lemma_press_all,
    lemma_release_all,
    lemma_tally_contains,
    pressed_now,
    tally,
};
use crate::model::{MachineView, press_all, release_all, without};

verus! {

/// How many events of `out` are events of the key `key` with the value `value`.
pub open spec fn tally_events(out: Seq<InputEvent>, key: KeyCode, value: i32) -> nat
    decreases out.len(),
{
    if out.len() == 0 {
        0
    } else {
        tally_events(out.drop_last(), key, value) + if out.last().event_code == EventCode::Key(key)
            && out.last().value == value {
            1nat
        } else {
            0nat
        }
    }
}

/// How many presses of `key` are in `out`.
pub open spec fn presses(out: Seq<InputEvent>, key: KeyCode) -> nat {
    tally_events(out, key, 1)
}

/// How many releases of `key` are in `out`.
pub open spec fn releases(out: Seq<InputEvent>, key: KeyCode) -> nat {
    tally_events(out, key, 0)
}

/// The events of two sequences, one after the other, are tallied as the sum.
pub proof fn lemma_tally_events_add(a: Seq<InputEvent>, b: Seq<InputEvent>, key: KeyCode, value: i32)
    ensures
        tally_events(a + b, key, value) == tally_events(a, key, value) + tally_events(
            b,
            key,
            value,
        ),
    decreases b.len(),
{
    if b.len() == 0 {
        assert(a + b =~= a);
    } else {
        lemma_tally_events_add(a, b.drop_last(), key, value);
        assert((a + b).drop_last() =~= a + b.drop_last());
    }
}

/// The events made for a list of keys are tallied as the keys are, where the value is
/// that of their kind, and not at all where it is another.
pub proof fn lemma_tally_key_events(
    keys: Seq<KeyCode>,
    time: TimeVal,
    event_type: KeyEventType,
    key: KeyCode,
    value: i32,
)
    ensures
        tally_events(key_events(keys, time, event_type), key, value) == if event_type.spec_value()
            == value {
            tally(keys, key)
        } else {
            0
        },
    decreases keys.len(),
{
    if keys.len() > 0 {
        lemma_tally_key_events(keys.drop_last(), time, event_type, key, value);
        assert(key_events(keys, time, event_type).drop_last() =~= key_events(
            keys.drop_last(),
            time,
            event_type,
        ));
    }
}

/// A single event is tallied once or not at all.
pub proof fn lemma_tally_one_event(event: InputEvent, key: KeyCode, value: i32)
    ensures
        tally_events(seq![event], key, value) == if event.event_code == EventCode::Key(key)
            && event.value == value {
            1nat
        } else {
            0nat
        },
{
    let one = seq![event];
    assert(one.drop_last() =~= Seq::<InputEvent>::empty());
    assert(tally_events(one.drop_last(), key, value) == 0);
    assert(one.last() == event);
}

/// A key is tallied in what is left without `dropped` as before, unless it is dropped.
pub proof fn lemma_tally_without(keys: Seq<KeyCode>, dropped: Seq<KeyCode>, key: KeyCode)
    ensures
        tally(without(keys, dropped), key) == if dropped.contains(key) {
            0
        } else {
            tally(keys, key)
        },
    decreases keys.len(),
{
    if keys.len() > 0 {
        lemma_tally_without(keys.drop_last(), dropped, key);
        let front = without(keys.drop_last(), dropped);
        if !dropped.contains(keys.last()) {
            assert(front.push(keys.last()).drop_last() =~= front);
        }
    }
}

impl MachineView {
    /// Whether `event` upsets the balance of the virtual key `key`. One way is the
    /// release of a key that neither is held nor is pressed as a virtual key: it passes
    /// through, and so releases a key that was not pressed. The other is the press of a
    /// key that no rule speaks of while the key is held and pressed as itself: its press
    /// is handed on once more.
    pub open spec fn unbalances(self, event: InputEvent, key: KeyCode) -> bool {
        match event.event_code {
            EventCode::Key(code) => match KeyEventType::spec_from_value(event.value) {
                KeyEventType::Press => self.edge_unbalances(code, false, key),
                KeyEventType::Release => self.edge_unbalances(code, true, key),
                _ => false,
            },
            _ => false,
        }
    }

    /// Whether a press or a release of `code` upsets the balance of the virtual key
    /// `key`.
    pub open spec fn edge_unbalances(self, code: KeyCode, release: bool, key: KeyCode) -> bool {
        let noted = self.touch(code, !release);
        let (rel, prs) = noted.remap(code, release);
        if release {
            prs.len() > 0 && code == key
        } else {
            let (next, fell, rose) = noted.apply(rel, prs);
            !noted.has_entry(code) && fell.contains(key) && rose.contains(key)
        }
    }

    /// What a press or a release emits balances for `key`, unless the edge upsets it.
    proof fn lemma_edge_balanced(self, event: InputEvent, code: KeyCode, release: bool, key: KeyCode)
        requires
            event.event_code == EventCode::Key(code),
            KeyEventType::spec_from_value(event.value) == (if release {
                KeyEventType::Release
            } else {
                KeyEventType::Press
            }),
            !self.edge_unbalances(code, release, key),
        ensures
            ({
                let (next, out) = self.edge(event, code, release);
                presses(out, key) + pressed_now(self.held.output, key) == releases(out, key)
                    + pressed_now(next.held.output, key)
            }),
    {
        let (next, out) = self.edge(event, code, release);
        let noted = self.touch(code, !release);
        let (rel, prs) = noted.remap(code, release);
        let sync = seq![sync_event(event.time)];
        lemma_tally_one_event(sync_event(event.time), key, 0);
        lemma_tally_one_event(sync_event(event.time), key, 1);
        if release && prs.len() > 0 {
            lemma_tally_one_event(event, key, 0);
            lemma_tally_one_event(event, key, 1);
            assert(out =~= seq![event] + sync);
            lemma_tally_events_add(seq![event], sync, key, 0);
            lemma_tally_events_add(seq![event], sync, key, 1);
        } else if release && rel.len() == 0 {
            assert(out =~= Seq::<InputEvent>::empty());
        } else {
            let (h1, fell) = release_all(noted.held, rel);
            let (h2, rose) = press_all(h1, prs);
            let released = without(fell, rose);
            let pressed = noted.shown(code, fell, rose);
            let ups = key_events(released, event.time, KeyEventType::Release);
            let downs = key_events(pressed, event.time, KeyEventType::Press);
            lemma_release_all(noted.held, rel);
            lemma_press_all(h1, prs);
            lemma_tally_contains(fell, key);
            lemma_tally_contains(rose, key);
            lemma_tally_without(fell, rose, key);
            lemma_tally_without(rose, fell, key);
            lemma_tally_key_events(released, event.time, KeyEventType::Release, key, 0);
            lemma_tally_key_events(released, event.time, KeyEventType::Release, key, 1);
            lemma_tally_key_events(pressed, event.time, KeyEventType::Press, key, 0);
            lemma_tally_key_events(pressed, event.time, KeyEventType::Press, key, 1);
            assert(out == (ups + downs) + sync);
            lemma_tally_events_add(ups + downs, sync, key, 0);
            lemma_tally_events_add(ups + downs, sync, key, 1);
            lemma_tally_events_add(ups, downs, key, 0);
            lemma_tally_events_add(ups, downs, key, 1);
            assert(tally(fell, key) + pressed_now(h1.output, key) == pressed_now(
                noted.held.output,
                key,
            ));
            assert(tally(rose, key) + pressed_now(h1.output, key) == pressed_now(
                h2.output,
                key,
            ));
        }
    }

    /// What one event emits balances for `key`: the presses it adds, together with the
    /// key being pressed before, equal the releases it adds, together with the key
    /// being pressed after. The events that upset the balance are left out.
    pub proof fn lemma_send_balanced(self, event: InputEvent, key: KeyCode)
        requires
            !self.unbalances(event, key),
        ensures
            ({
                let (next, out) = self.send(event);
                presses(out, key) + pressed_now(self.held.output, key) == releases(out, key)
                    + pressed_now(next.held.output, key)
            }),
    {
        let (next, out) = self.send(event);
        lemma_tally_one_event(event, key, 0);
        lemma_tally_one_event(event, key, 1);
        match event.event_code {
            EventCode::Key(code) => {
                match KeyEventType::spec_from_value(event.value) {
                    KeyEventType::Press => self.lemma_edge_balanced(event, code, false, key),
                    KeyEventType::Release => self.lemma_edge_balanced(event, code, true, key),
                    KeyEventType::Repeat => {
                        if self.held.input.contains_key(code) {
                            let repeats = key_events(
                                self.held.input[code],
                                event.time,
                                KeyEventType::Repeat,
                            );
                            let sync = seq![sync_event(event.time)];
                            lemma_tally_one_event(sync_event(event.time), key, 0);
                            lemma_tally_one_event(sync_event(event.time), key, 1);
                            lemma_tally_key_events(
                                self.held.input[code],
                                event.time,
                                KeyEventType::Repeat,
                                key,
                                0,
                            );
                            lemma_tally_key_events(
                                self.held.input[code],
                                event.time,
                                KeyEventType::Repeat,
                                key,
                                1,
                            );
                            lemma_tally_events_add(repeats, sync, key, 0);
                            lemma_tally_events_add(repeats, sync, key, 1);
                        }
                    },
                    _ => {},
                }
            },
            _ => {},
        }
    }

    /// Over everything that a run of events emits, the presses of a virtual key equal
    /// its releases, plus one while the key is pressed, where the key was not pressed
    /// at the start. In general the key being pressed at the start counts as a press.
    /// The runs in which an event upsets the balance of the key are left out.
    pub proof fn lemma_run_balanced(self, events: Seq<InputEvent>, key: KeyCode)
        requires
            forall|n: int|
                0 <= n < events.len() ==> !(#[trigger] self.run(events.take(n))).0.unbalances(
                    events[n],
                    key,
                ),
        ensures
            ({
                let (last, emitted) = self.run(events);
                presses(emitted, key) + pressed_now(self.held.output, key) == releases(
                    emitted,
                    key,
                ) + pressed_now(last.held.output, key)
            }),
        decreases events.len(),
    {
        if events.len() > 0 {
            let front = events.drop_last();
            assert forall|n: int| 0 <= n < front.len() implies !(#[trigger] self.run(
                front.take(n),
            )).0.unbalances(front[n], key) by {
                assert(front.take(n) =~= events.take(n));
                assert(!self.run(events.take(n)).0.unbalances(events[n], key));
            }
            self.lemma_run_balanced(front, key);
            let (machine, emitted) = self.run(front);
            let (next, out) = machine.send(events.last());
            assert(front =~= events.take(events.len() - 1));
            assert(!self.run(events.take(events.len() - 1)).0.unbalances(
                events[events.len() - 1],
                key,
            ));
            machine.lemma_send_balanced(events.last(), key);
            lemma_tally_events_add(emitted, out, key, 0);
            lemma_tally_events_add(emitted, out, key, 1);
        }
    }
}

} // verus!
