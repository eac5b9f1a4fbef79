//! A machine without rules changes nothing.
use vstd::prelude::*;
use crate::event::{EventCode, InputEvent, KeyCode, KeyEventType, sync_event};
use crate::laws::steps::{
    lemma_batch_small,
    lemma_distinct_one,
    lemma_drain_one,
    lemma_engage_one,
    lemma_press_none,
    lemma_press_one,
    lemma_release_none,
    lemma_release_one,
    lemma_without_one,
};
use crate::model::{Held, MachineView, press_all, release_all, without};

verus! {

impl Held {
    /// Every held key stands for itself and for nothing else.
    pub open spec fn plain(self) -> bool {
        &&& forall|p: KeyCode| #[trigger] self.input.contains_key(p) ==> self.input[p] == seq![p]
        &&& forall|v: KeyCode| #[trigger]
            self.output.contains_key(v) ==> self.output[v] == set![v]
        &&& forall|k: KeyCode| self.input.contains_key(k) <==> self.output.contains_key(k)
    }
}

impl MachineView {
    /// Whether a machine without rules answers `event` with the event itself and a
    /// synchronization event: the event is a press or a release of a key, or the repeat
    /// of a key that is held.
    pub open spec fn echoes(self, event: InputEvent) -> bool {
        match event.event_code {
            EventCode::Key(key) => match KeyEventType::spec_from_value(event.value) {
                KeyEventType::Press => true,
                KeyEventType::Release => true,
                KeyEventType::Repeat => self.held.input.contains_key(key),
                KeyEventType::Unknown(_) => false,
            },
            _ => false,
        }
    }

    /// A machine without rules is the identity: a press, a release and the repeat of a
    /// held key come out as they came in, followed by a synchronization event, and every
    /// other event comes out alone. Every held key keeps standing for itself.
    pub proof fn lemma_no_rules_identity(self, event: InputEvent)
        requires
            self.rules.len() == 0,
            self.guards.len() == 0,
            self.held.plain(),
        ensures
            self.send(event).0.rules.len() == 0,
            self.send(event).0.guards.len() == 0,
            self.send(event).0.held.plain(),
            self.send(event).1 == if self.echoes(event) {
                seq![event, sync_event(event.time)]
            } else {
                seq![event]
            },
    {
        match event.event_code {
            EventCode::Key(key) => {
                match KeyEventType::spec_from_value(event.value) {
                    KeyEventType::Press => self.lemma_plain_edge(event, key, false),
                    KeyEventType::Release => self.lemma_plain_edge(event, key, true),
                    KeyEventType::Repeat => {
                        if self.held.input.contains_key(key) {
                            let out = self.send(event).1;
                            assert(self.held.input[key] == seq![key]);
                            assert(out =~= seq![event, sync_event(event.time)]);
                        }
                    },
                    _ => {},
                }
            },
            _ => {},
        }
    }

    /// A press or a release on a machine without rules.
    proof fn lemma_plain_edge(self, event: InputEvent, key: KeyCode, release: bool)
        requires
            self.rules.len() == 0,
            self.guards.len() == 0,
            self.held.plain(),
            event.event_code == EventCode::Key(key),
            KeyEventType::spec_from_value(event.value) == (if release {
                KeyEventType::Release
            } else {
                KeyEventType::Press
            }),
        ensures
            self.edge(event, key, release).0.rules.len() == 0,
            self.edge(event, key, release).0.guards.len() == 0,
            self.edge(event, key, release).0.held.plain(),
            self.edge(event, key, release).1 == seq![event, sync_event(event.time)],
    {
        let noted = self.touch(key, !release);
        let held = self.held;
        let (rel, prs) = noted.remap(key, release);
        let none = Seq::<KeyCode>::empty();
        assert(!noted.has_entry(key));
        lemma_release_none(held);
        lemma_release_one(held, key);
        lemma_distinct_one(key);
        if held.input.contains_key(key) {
            assert(held.input[key] == seq![key]);
            assert(held.output[key] == set![key]);
            lemma_drain_one(held.output, none, key, key);
            assert(held.output[key].remove(key) =~= Set::<KeyCode>::empty());
        }
        if release {
            if held.input.contains_key(key) {
                assert(rel =~= seq![key]);
                assert(prs =~= Seq::empty());
                let (h1, raw) = release_all(held, rel);
                lemma_press_none(h1);
                assert(raw =~= seq![key]);
                lemma_without_one(key, none);
                assert(!none.contains(key));
                lemma_batch_small(event.time, seq![key], none);
                let next = self.edge(event, key, release).0;
                assert(next.held == h1);
            }
        } else {
            assert(prs =~= seq![(key, seq![key])]);
            let (h1, raw) = release_all(held, rel);
            if held.input.contains_key(key) {
                assert(rel =~= seq![key]);
                assert(raw =~= seq![key]);
            } else {
                assert(rel =~= none);
                assert(raw =~= none);
            }
            assert(!h1.output.contains_key(key));
            lemma_press_one(h1, (key, seq![key]));
            lemma_engage_one(h1.output, none, key, key);
            let (h2, pressed) = press_all(h1, prs);
            assert(pressed =~= seq![key]);
            assert(pressed[0] == key);
            lemma_without_one(key, pressed);
            assert(without(none, pressed) =~= none);
            assert(without(raw, pressed) =~= none);
            lemma_batch_small(event.time, none, pressed);
            let next = self.edge(event, key, release).0;
            assert(next.held == h2);
            assert(h2.output[key] =~= set![key]);
        }
    }
}

} // verus!
