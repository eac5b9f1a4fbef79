//! The guards know which keys are held.
//!
//! A guard keeps a bit for each of its literals. The laws here say that the
//! bits always tell the truth about the keys that are held, so that a guard
//! holds exactly when all its `cond` keys are held and none of its `except`
//! keys is.
use vstd::prelude::*;
use crate::cond_bits::lemma_popcount_zero;
use crate::event::{EventCode, InputEvent, KeyCode, KeyEventType, TimeVal, key_event};
use crate::laws::maps::{
    lemma_drain,
    lemma_engage,
    lemma_press_all,
    lemma_release_all,
    lemma_secondary,
    owns,
};
use crate::laws::steps::{lemma_press_one, lemma_release_none, lemma_release_one};
use crate::mapping::MappingView;
use crate::model::{
    GuardView,
    MachineView,
    distinct,
    drain,
    engage,
    has_src,
    release_all,
    secondary,
    sources,
};

verus! {

impl GuardView {
    /// An edge of a key keeps the bits true: after a press they tell of the held keys
    /// with the key among them, after a release of the held keys without it.
    pub proof fn lemma_touch_tracks(self, held: Set<KeyCode>, key: KeyCode, press: bool)
        requires
            self.wf(),
            self.tracks(held),
        ensures
            self.touch(key, press).wf(),
            self.touch(key, press).tracks(
                if press {
                    held.insert(key)
                } else {
                    held.remove(key)
                },
            ),
    {
        let after = self.touch(key, press);
        let now = if press {
            held.insert(key)
        } else {
            held.remove(key)
        };
        assert forall|i: int| 0 <= i < after.bits.len() implies #[trigger] after.bits[i] == ((i
            < after.cond.len()) != now.contains(after.literal(i))) by {
            assert(self.bits[i] == ((i < self.cond.len()) != held.contains(self.literal(i))));
        }
    }

    /// A guard whose bits are true holds exactly when all its `cond` keys are held and
    /// none of its `except` keys is.
    pub proof fn lemma_eligible_means(self, held: Set<KeyCode>)
        requires
            self.wf(),
            self.tracks(held),
        ensures
            self.eligible() <==> {
                &&& forall|i: int| 0 <= i < self.cond.len() ==> held.contains(self.cond[i])
                &&& forall|j: int| 0 <= j < self.except.len() ==> !held.contains(self.except[j])
            },
    {
        lemma_popcount_zero(self.bits);
        if self.eligible() {
            assert forall|i: int| 0 <= i < self.cond.len() implies held.contains(self.cond[i]) by {
                assert(!self.bits[i]);
            }
            assert forall|j: int| 0 <= j < self.except.len() implies !held.contains(
                self.except[j],
            ) by {
                assert(!self.bits[self.cond.len() + j]);
                assert(self.literal(self.cond.len() + j) == self.except[j]);
            }
        }
        if (forall|i: int| 0 <= i < self.cond.len() ==> held.contains(self.cond[i])) && (forall|
            j: int,
        | 0 <= j < self.except.len() ==> !held.contains(self.except[j])) {
            assert forall|i: int| 0 <= i < self.bits.len() implies !self.bits[i] by {
                if i >= self.cond.len() {
                    assert(!held.contains(self.except[i - self.cond.len()]));
                }
            }
        }
    }

    /// Bits that are true of the same held keys are the same bits.
    pub proof fn lemma_tracks_unique(self, other: GuardView, held: Set<KeyCode>)
        requires
            self.wf(),
            other.wf(),
            self.cond == other.cond,
            self.except == other.except,
            self.tracks(held),
            other.tracks(held),
        ensures
            self == other,
    {
        assert(self.bits =~= other.bits);
    }
}

impl MachineView {
    /// The bits of every guard are true of the keys that are held.
    pub open spec fn synced(self) -> bool {
        forall|g: int|
            0 <= g < self.guards.len() ==> (#[trigger] self.guards[g]).tracks(
                self.held.input.dom(),
            )
    }

    /// In a machine that was just compiled the bits are true: no key is held.
    pub proof fn lemma_compiled_is_synced(self, rules: Seq<MappingView>)
        requires
            self.compiled_from(rules),
        ensures
            self.synced(),
    {
        assert forall|g: int| 0 <= g < self.guards.len() implies (#[trigger] self.guards[g]).tracks(
            self.held.input.dom(),
        ) by {
            assert(self.guards[g].fresh());
        }
    }

    /// After a press the pressed key is held beside those that were; after a release
    /// the released key is not held any more.
    pub proof fn lemma_edge_held(self, event: InputEvent, key: KeyCode, release: bool)
        ensures
            self.edge(event, key, release).0.held.input.dom() == if release {
                self.held.input.dom().remove(key)
            } else {
                self.held.input.dom().insert(key)
            },
    {
        let noted = self.touch(key, !release);
        let (rel, prs) = noted.remap(key, release);
        let before = self.held.input.dom();
        let after = self.edge(event, key, release).0.held.input.dom();
        let (h1, raw) = release_all(noted.held, rel);
        lemma_release_all(noted.held, rel);
        lemma_press_all(h1, prs);
        if release {
            if self.held.input.contains_key(key) {
                assert(rel[0] == key);
                assert(sources(prs) =~= Seq::<KeyCode>::empty());
            } else if self.held.output.contains_key(key) {
                assert(sources(prs) =~= Seq::<KeyCode>::empty());
            }
            assert(after =~= before.remove(key));
        } else {
            noted.lemma_remap_press(key);
            assert forall|q: KeyCode| after.contains(q) == before.insert(key).contains(q) by {
                if rel.contains(q) {
                    assert(sources(prs).contains(q));
                }
            }
            assert(after =~= before.insert(key));
        }
    }

    /// Whatever comes in, the bits of every guard stay true of the keys that are held.
    pub proof fn lemma_send_keeps_synced(self, event: InputEvent)
        requires
            self.wf(),
            self.synced(),
        ensures
            self.send(event).0.wf(),
            self.send(event).0.synced(),
    {
        match event.event_code {
            EventCode::Key(key) => {
                match KeyEventType::spec_from_value(event.value) {
                    KeyEventType::Release => self.lemma_edge_keeps_synced(event, key, true),
                    KeyEventType::Press => self.lemma_edge_keeps_synced(event, key, false),
                    _ => {},
                }
            },
            _ => {},
        }
    }

    /// After every event of a run the bits of every guard are true of the keys that are
    /// held, where they were at the start.
    pub proof fn lemma_run_keeps_synced(self, events: Seq<InputEvent>)
        requires
            self.wf(),
            self.synced(),
        ensures
            self.run(events).0.wf(),
            self.run(events).0.synced(),
        decreases events.len(),
    {
        if events.len() > 0 {
            self.lemma_run_keeps_synced(events.drop_last());
            self.run(events.drop_last()).0.lemma_send_keeps_synced(events.last());
        }
    }

    /// A press or a release keeps the bits true.
    proof fn lemma_edge_keeps_synced(self, event: InputEvent, key: KeyCode, release: bool)
        requires
            self.wf(),
            self.synced(),
        ensures
            self.edge(event, key, release).0.wf(),
            self.edge(event, key, release).0.synced(),
    {
        let next = self.edge(event, key, release).0;
        let before = self.held.input.dom();
        self.lemma_edge_held(event, key, release);
        assert forall|g: int| 0 <= g < next.guards.len() implies (#[trigger] next.guards[g]).wf()
            && next.guards[g].tracks(next.held.input.dom()) by {
            assert(self.guards[g].wf());
            self.guards[g].lemma_touch_tracks(before, key, !release);
        }
        assert forall|r: int| 0 <= r < next.rules.len() implies 0 <= (#[trigger] next.rules[r]).guard
            < next.guards.len() by {
            assert(next.rules[r] == self.rules[r]);
        }
    }

    /// A guard of a machine whose bits are true holds exactly when all its `cond` keys
    /// are held and none of its `except` keys is.
    pub proof fn lemma_rule_active_means(self, r: int)
        requires
            self.wf(),
            self.synced(),
            0 <= r < self.rules.len(),
        ensures
            self.rule_active(r) <==> {
                let guard = self.guards[self.rules[r].guard];
                &&& forall|i: int|
                    0 <= i < guard.cond.len() ==> self.held.input.contains_key(guard.cond[i])
                &&& forall|j: int|
                    0 <= j < guard.except.len() ==> !self.held.input.contains_key(guard.except[j])
            },
    {
        let guard = self.guards[self.rules[r].guard];
        guard.lemma_eligible_means(self.held.input.dom());
    }

    /// While no key is held, a press of a key followed by its release leaves no key
    /// held and no virtual key pressed, and brings every guard back to the bits it had.
    pub proof fn lemma_press_release_round_trip(
        self,
        key: KeyCode,
        pressed_at: TimeVal,
        released_at: TimeVal,
    )
        requires
            self.wf(),
            self.synced(),
            self.held.input == Map::<KeyCode, Seq<KeyCode>>::empty(),
            self.held.output == Map::<KeyCode, Set<KeyCode>>::empty(),
        ensures
            ({
                let press = key_event(key, pressed_at, KeyEventType::Press);
                let release = key_event(key, released_at, KeyEventType::Release);
                self.send(press).0.send(release).0 == self
            }),
    {
        let press = key_event(key, pressed_at, KeyEventType::Press);
        let release = key_event(key, released_at, KeyEventType::Release);
        let none = Seq::<KeyCode>::empty();
        // The press: nothing is held, so nothing is released and the key alone is pressed.
        let noted = self.touch(key, true);
        let (rel, prs) = noted.remap(key, false);
        let down = self.send(press).0;
        assert(down == self.edge(press, key, false).0);
        if noted.has_entry(key) {
            let table = noted.table(key);
            noted.lemma_table_unique(key, noted.rules.len() as int);
            lemma_secondary(self.held.input, table, key);
            let others = secondary(self.held.input, table, key);
            if others.len() > 0 {
                assert(has_src(others, others[0].0));
            }
            assert(others =~= Seq::empty());
        }
        assert(rel =~= none);
        assert(prs.len() == 1);
        let entry = prs[0];
        assert(entry.0 == key);
        assert(prs =~= seq![entry]);
        lemma_release_none(self.held);
        lemma_press_one(self.held, entry);
        let vs = distinct(entry.1);
        let (o1, pressed1) = engage(self.held.output, none, key, vs);
        lemma_engage(self.held.output, none, key, vs);
        assert(down.held.input == self.held.input.insert(key, vs));
        assert(down.held.output == o1);
        // The release: the key is held, so it lets go of what it took hold of.
        let renoted = down.touch(key, false);
        let up = down.send(release).0;
        assert(up == down.edge(release, key, true).0);
        lemma_release_one(down.held, key);
        let (o2, r2) = drain(o1, none, key, vs);
        lemma_drain(o1, none, key, vs);
        assert(o2 =~= Map::<KeyCode, Set<KeyCode>>::empty()) by {
            assert forall|v: KeyCode| !o2.contains_key(v) by {
                if o2.contains_key(v) {
                    let p = choose|p: KeyCode| #[trigger] o2[v].contains(p);
                    assert(owns(o2, v, p));
                    if p == key {
                        assert(owns(o1, v, key) && !vs.contains(v));
                        assert(owns(self.held.output, v, key) || vs.contains(v));
                    } else {
                        assert(owns(o1, v, p));
                        assert(owns(self.held.output, v, p));
                    }
                }
            }
        }
        assert(up.held.input =~= self.held.input);
        assert(up.held.output =~= self.held.output);
        // The guards: the bits were true before and are true after, of the same keys.
        let empty = self.held.input.dom();
        assert(up.guards =~= self.guards) by {
            assert forall|g: int| 0 <= g < self.guards.len() implies up.guards[g]
                == self.guards[g] by {
                let guard = self.guards[g];
                assert(guard.wf());
                guard.lemma_touch_tracks(empty, key, true);
                let touched = guard.touch(key, true);
                touched.lemma_touch_tracks(empty.insert(key), key, false);
                assert(empty.insert(key).remove(key) =~= empty);
                touched.touch(key, false).lemma_tracks_unique(guard, empty);
            }
        }
    }
}

} // verus!
