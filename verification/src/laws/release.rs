//! A physical release produces the matching virtual releases.
use vstd::prelude::*;
use crate::event::{EventCode, InputEvent, KeyCode, KeyEventType};
use crate::laws::maps::{lemma_drain, owns, stands};
use crate::laws::steps::{lemma_press_none, lemma_release_one};
use crate::model::{MachineView, batch, drain, without};

verus! {

/// The keys of `vs` that the physical key `key` alone holds in `output`, in their order.
pub open spec fn held_alone(
    output: Map<KeyCode, Set<KeyCode>>,
    key: KeyCode,
    vs: Seq<KeyCode>,
) -> Seq<KeyCode>
    decreases vs.len(),
{
    if vs.len() == 0 {
        seq![]
    } else {
        let front = held_alone(output, key, vs.drop_last());
        if output.contains_key(vs.last()) && output[vs.last()] == set![key] {
            front.push(vs.last())
        } else {
            front
        }
    }
}

/// Nothing is left out where nothing is dropped.
pub proof fn lemma_without_nothing(keys: Seq<KeyCode>)
    ensures
        without(keys, Seq::<KeyCode>::empty()) == keys,
    decreases keys.len(),
{
    if keys.len() > 0 {
        lemma_without_nothing(keys.drop_last());
        assert(keys.drop_last().push(keys.last()) =~= keys);
    }
}

/// A key that lets go of the virtual keys it holds, each once, releases exactly those
/// that it alone held.
pub proof fn lemma_drain_alone(
    output: Map<KeyCode, Set<KeyCode>>,
    released: Seq<KeyCode>,
    key: KeyCode,
    vs: Seq<KeyCode>,
)
    requires
        vs.no_duplicates(),
        forall|i: int| 0 <= i < vs.len() ==> owns(output, #[trigger] vs[i], key),
    ensures
        drain(output, released, key, vs).1 == released + held_alone(output, key, vs),
    decreases vs.len(),
{
    if vs.len() == 0 {
        assert(released + held_alone(output, key, vs) =~= released);
    } else {
        let front = vs.drop_last();
        let last = vs.last();
        assert forall|i: int| 0 <= i < front.len() implies owns(output, #[trigger] front[i], key) by {
            assert(front[i] == vs[i]);
        }
        lemma_drain_alone(output, released, key, front);
        lemma_drain(output, released, key, front);
        let (o1, r1) = drain(output, released, key, front);
        assert(!front.contains(last)) by {
            if front.contains(last) {
                let i = choose|i: int| 0 <= i < front.len() && front[i] == last;
                assert(vs[i] == vs[vs.len() - 1]);
            }
        }
        assert(owns(output, vs[vs.len() - 1], key));
        assert(owns(o1, last, key));
        assert(o1[last] =~= output[last]) by {
            assert forall|p: KeyCode| o1[last].contains(p) == output[last].contains(p) by {
                if p != key {
                    assert(owns(o1, last, p) <==> owns(output, last, p));
                }
            }
        }
        let owners = o1[last].remove(key);
        if owners.is_empty() {
            assert(output[last] =~= set![key]);
            assert(released + held_alone(output, key, vs) =~= r1.push(last));
        } else {
            let p = choose|p: KeyCode| owners.contains(p);
            assert(output[last].contains(p) && p != key);
            assert(!(output[last] == set![key]));
        }
    }
}

impl MachineView {
    /// The release of a held key releases exactly the virtual keys that the key alone
    /// held, in the order in which they stand for it, and nothing else happens: the key
    /// is not held any more and holds no virtual key.
    pub proof fn lemma_release_frees(self, event: InputEvent, key: KeyCode)
        requires
            self.held.sound(),
            self.held.inverse(),
            self.held.input.contains_key(key),
            event.event_code == EventCode::Key(key),
            KeyEventType::spec_from_value(event.value) == KeyEventType::Release,
        ensures
            ({
                let (next, out) = self.send(event);
                &&& out == batch(
                    event.time,
                    held_alone(self.held.output, key, self.held.input[key]),
                    Seq::<KeyCode>::empty(),
                )
                &&& !next.held.input.contains_key(key)
                &&& forall|v: KeyCode| !owns(next.held.output, v, key)
                &&& forall|p: KeyCode, v: KeyCode|
                    p != key ==> (stands(next.held.input, p, v) <==> stands(self.held.input, p, v))
            }),
    {
        let noted = self.touch(key, false);
        let held = self.held;
        let vs = held.input[key];
        let none = Seq::<KeyCode>::empty();
        let (rel, prs) = noted.remap(key, true);
        assert(rel =~= seq![key]);
        assert(prs =~= Seq::empty());
        lemma_release_one(held, key);
        let (o1, raw) = drain(held.output, none, key, vs);
        assert forall|i: int| 0 <= i < vs.len() implies owns(held.output, #[trigger] vs[i], key) by {
            assert(stands(held.input, key, vs[i]));
        }
        lemma_drain_alone(held.output, none, key, vs);
        lemma_drain(held.output, none, key, vs);
        assert(raw =~= held_alone(held.output, key, vs));
        let next = self.send(event).0;
        lemma_press_none(next.held);
        lemma_without_nothing(raw);
        assert forall|v: KeyCode| !owns(next.held.output, v, key) by {
            if owns(held.output, v, key) {
                assert(stands(held.input, key, v));
            }
        }
    }
}

} // verus!
