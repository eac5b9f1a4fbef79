//! The shape of what one event emits.
use vstd::prelude::*;
use crate::event::{EventCode, InputEvent, KeyCode, KeyEventType, key_events, sync_event};
use crate::model::{MachineView, batch, press_all, release_all, without};

verus! {

/// `event` says that the key `key` went down.
pub open spec fn is_press_of(event: InputEvent, key: KeyCode) -> bool {
    event.event_code == EventCode::Key(key) && event.value == 1
}

/// `event` says that the key `key` came up.
pub open spec fn is_release_of(event: InputEvent, key: KeyCode) -> bool {
    event.event_code == EventCode::Key(key) && event.value == 0
}

/// What is left of `keys` without `dropped` are the keys of `keys` that are not in
/// `dropped`.
pub proof fn lemma_without_contains(keys: Seq<KeyCode>, dropped: Seq<KeyCode>, key: KeyCode)
    ensures
        without(keys, dropped).contains(key) <==> (keys.contains(key) && !dropped.contains(key)),
    decreases keys.len(),
{
    if keys.len() > 0 {
        let front = keys.drop_last();
        let w = without(front, dropped);
        lemma_without_contains(front, dropped, key);
        if front.contains(key) {
            let i = choose|i: int| 0 <= i < front.len() && front[i] == key;
            assert(keys[i] == key);
        }
        if keys.contains(key) {
            let i = choose|i: int| 0 <= i < keys.len() && keys[i] == key;
            if i < front.len() {
                assert(front[i] == key);
            }
        }
        assert(keys[keys.len() - 1] == keys.last());
        if !dropped.contains(keys.last()) {
            let w2 = w.push(keys.last());
            assert(w2[w.len() as int] == keys.last());
            if w.contains(key) {
                let i = choose|i: int| 0 <= i < w.len() && w[i] == key;
                assert(w2[i] == key);
            }
            if w2.contains(key) {
                let i = choose|i: int| 0 <= i < w2.len() && w2[i] == key;
                if i < w.len() {
                    assert(w[i] == key);
                }
            }
        }
    }
}

impl MachineView {
    /// Whether `event` passes through as it is: it is not about a key, or it is an
    /// event of a key that is neither a press nor a release nor the repeat of a held
    /// key.
    pub open spec fn passes_through(self, event: InputEvent) -> bool {
        match event.event_code {
            EventCode::Key(key) => match KeyEventType::spec_from_value(event.value) {
                KeyEventType::Press => false,
                KeyEventType::Release => false,
                KeyEventType::Repeat => !self.held.input.contains_key(key),
                KeyEventType::Unknown(_) => true,
            },
            _ => true,
        }
    }

    /// Whether `event` is dropped without any output: it is the release of a key that is
    /// not held, while another key holds it as a virtual key.
    pub open spec fn drops(self, event: InputEvent) -> bool {
        match event.event_code {
            EventCode::Key(key) => {
                &&& KeyEventType::spec_from_value(event.value) == KeyEventType::Release
                &&& !self.held.input.contains_key(key)
                &&& self.held.output.contains_key(key)
            },
            _ => false,
        }
    }

    /// Within what one event emits, no key is both released and pressed.
    pub proof fn lemma_no_toggle(self, event: InputEvent, key: KeyCode)
        ensures
            ({
                let out = self.send(event).1;
                forall|i: int, j: int|
                    0 <= i < out.len() && 0 <= j < out.len() ==> !(is_release_of(out[i], key)
                        && is_press_of(out[j], key))
            }),
    {
        let out = self.send(event).1;
        match event.event_code {
            EventCode::Key(code) => {
                match KeyEventType::spec_from_value(event.value) {
                    KeyEventType::Release => self.lemma_edge_no_toggle(event, code, true, key),
                    KeyEventType::Press => self.lemma_edge_no_toggle(event, code, false, key),
                    _ => {},
                }
            },
            _ => {},
        }
    }

    /// Within the batch of a press or a release, no key is both released and pressed.
    proof fn lemma_edge_no_toggle(self, event: InputEvent, code: KeyCode, release: bool, key: KeyCode)
        requires
            KeyEventType::spec_from_value(event.value) == (if release {
                KeyEventType::Release
            } else {
                KeyEventType::Press
            }),
        ensures
            ({
                let out = self.edge(event, code, release).1;
                forall|i: int, j: int|
                    0 <= i < out.len() && 0 <= j < out.len() ==> !(is_release_of(out[i], key)
                        && is_press_of(out[j], key))
            }),
    {
        let out = self.edge(event, code, release).1;
        let noted = self.touch(code, !release);
        let (rel, prs) = noted.remap(code, release);
        if !(release && prs.len() > 0) && !(release && rel.len() == 0) {
            let (h1, fell) = release_all(noted.held, rel);
            let (h2, rose) = press_all(h1, prs);
            let released = without(fell, rose);
            let pressed = noted.shown(code, fell, rose);
            let ups = key_events(released, event.time, KeyEventType::Release);
            let downs = key_events(pressed, event.time, KeyEventType::Press);
            assert(out == ups + downs + seq![sync_event(event.time)]);
            assert forall|i: int, j: int|
                0 <= i < out.len() && 0 <= j < out.len() implies !(is_release_of(out[i], key)
                && is_press_of(out[j], key)) by {
                if is_release_of(out[i], key) && is_press_of(out[j], key) {
                    assert(i < ups.len());
                    assert(ups.len() <= j < ups.len() + downs.len());
                    assert(released[i] == key);
                    assert(pressed[j - ups.len()] == key);
                    lemma_without_contains(fell, rose, key);
                    lemma_without_contains(rose, fell, key);
                }
            }
        }
    }

    /// What an event emits is nothing at all, where the event is dropped; the event
    /// itself, where it passes through; and otherwise a batch that ends with its one
    /// synchronization event, after nothing but key events.
    pub proof fn lemma_sync_discipline(self, event: InputEvent)
        ensures
            ({
                let out = self.send(event).1;
                if self.drops(event) {
                    out == Seq::<InputEvent>::empty()
                } else if self.passes_through(event) {
                    out == seq![event]
                } else {
                    &&& out.len() > 0
                    &&& out.last() == sync_event(event.time)
                    &&& forall|i: int| 0 <= i < out.len() - 1 ==> (#[trigger] out[i]).event_code is Key
                }
            }),
    {
        let out = self.send(event).1;
        match event.event_code {
            EventCode::Key(code) => {
                match KeyEventType::spec_from_value(event.value) {
                    KeyEventType::Release => self.lemma_edge_ends_in_sync(event, code, true),
                    KeyEventType::Press => self.lemma_edge_ends_in_sync(event, code, false),
                    KeyEventType::Repeat => {
                        if self.held.input.contains_key(code) {
                            let repeats = key_events(
                                self.held.input[code],
                                event.time,
                                KeyEventType::Repeat,
                            );
                            assert(out == repeats + seq![sync_event(event.time)]);
                            assert forall|i: int| 0 <= i < out.len() - 1 implies (
                            #[trigger] out[i]).event_code is Key by {
                                assert(out[i] == repeats[i]);
                            }
                        }
                    },
                    _ => {},
                }
            },
            _ => {},
        }
    }

    /// The batch of a press or a release ends with its one synchronization event, unless
    /// the edge is a release that is dropped.
    proof fn lemma_edge_ends_in_sync(self, event: InputEvent, code: KeyCode, release: bool)
        requires
            event.event_code == EventCode::Key(code),
        ensures
            ({
                let out = self.edge(event, code, release).1;
                if release && !self.held.input.contains_key(code) && self.held.output.contains_key(
                    code,
                ) {
                    out == Seq::<InputEvent>::empty()
                } else {
                    &&& out.len() > 0
                    &&& out.last() == sync_event(event.time)
                    &&& forall|i: int| 0 <= i < out.len() - 1 ==> (#[trigger] out[i]).event_code is Key
                }
            }),
    {
        let out = self.edge(event, code, release).1;
        let noted = self.touch(code, !release);
        let (rel, prs) = noted.remap(code, release);
        if !(release && prs.len() > 0) && !(release && rel.len() == 0) {
            let (h1, fell) = release_all(noted.held, rel);
            let (h2, rose) = press_all(h1, prs);
            let released = without(fell, rose);
            let pressed = noted.shown(code, fell, rose);
            let ups = key_events(released, event.time, KeyEventType::Release);
            let downs = key_events(pressed, event.time, KeyEventType::Press);
            assert(out == ups + downs + seq![sync_event(event.time)]);
            assert forall|i: int| 0 <= i < out.len() - 1 implies (#[trigger] out[i]).event_code is Key by {
                if i < ups.len() {
                    assert(out[i] == ups[i]);
                } else {
                    assert(out[i] == downs[i - ups.len()]);
                }
            }
        }
    }
}

} // verus!
