//! What the folds of the model give for lists of one or no element.
use vstd::prelude::*;
use crate::event::{KeyCode, KeyEventType, TimeVal, key_event, sync_event};
use crate::model::{Held, Remap, batch, distinct, drain, engage, press_all, release_all, without};

verus! {

/// A single key is distinct.
pub proof fn lemma_distinct_one(key: KeyCode)
    ensures
        distinct(seq![key]) == seq![key],
{
    let keys = seq![key];
    assert(keys.drop_last() =~= Seq::<KeyCode>::empty());
    assert(distinct(keys.drop_last()) =~= Seq::<KeyCode>::empty());
    assert(distinct(keys) =~= seq![key]);
}

/// What is left of one key without others.
pub proof fn lemma_without_one(key: KeyCode, dropped: Seq<KeyCode>)
    ensures
        without(seq![key], dropped) == if dropped.contains(key) {
            Seq::<KeyCode>::empty()
        } else {
            seq![key]
        },
{
    let keys = seq![key];
    assert(keys.drop_last() =~= Seq::<KeyCode>::empty());
    assert(without(keys.drop_last(), dropped) =~= Seq::<KeyCode>::empty());
    assert(without(keys, dropped) =~= if dropped.contains(key) {
        Seq::<KeyCode>::empty()
    } else {
        seq![key]
    });
}

/// Letting go of one virtual key.
pub proof fn lemma_drain_one(
    output: Map<KeyCode, Set<KeyCode>>,
    released: Seq<KeyCode>,
    src: KeyCode,
    v: KeyCode,
)
    ensures
        drain(output, released, src, seq![v]) == if !output.contains_key(v) {
            (output, released)
        } else if output[v].remove(src).is_empty() {
            (output.remove(v), released.push(v))
        } else {
            (output.insert(v, output[v].remove(src)), released)
        },
{
    let vs = seq![v];
    assert(vs.drop_last() =~= Seq::<KeyCode>::empty());
    assert(drain(output, released, src, vs.drop_last()) == (output, released));
}

/// Taking hold of one virtual key.
pub proof fn lemma_engage_one(
    output: Map<KeyCode, Set<KeyCode>>,
    pressed: Seq<KeyCode>,
    src: KeyCode,
    v: KeyCode,
)
    ensures
        engage(output, pressed, src, seq![v]) == if output.contains_key(v) {
            (output.insert(v, output[v].insert(src)), pressed)
        } else {
            (output.insert(v, set![src]), pressed.push(v))
        },
{
    let vs = seq![v];
    assert(vs.drop_last() =~= Seq::<KeyCode>::empty());
    assert(engage(output, pressed, src, vs.drop_last()) == (output, pressed));
}

/// Releasing no key changes nothing.
pub proof fn lemma_release_none(held: Held)
    ensures
        release_all(held, Seq::<KeyCode>::empty()) == (held, Seq::<KeyCode>::empty()),
{
}

/// Releasing one physical key.
pub proof fn lemma_release_one(held: Held, src: KeyCode)
    ensures
        release_all(held, seq![src]) == if !held.input.contains_key(src) {
            (held, Seq::<KeyCode>::empty())
        } else {
            let (o, r) = drain(held.output, Seq::<KeyCode>::empty(), src, held.input[src]);
            (Held { input: held.input.remove(src), output: o }, r)
        },
{
    let release = seq![src];
    assert(release.drop_last() =~= Seq::<KeyCode>::empty());
    assert(release_all(held, release.drop_last()) == (held, Seq::<KeyCode>::empty()));
}

/// Pressing no entry changes nothing.
pub proof fn lemma_press_none(held: Held)
    ensures
        press_all(held, Seq::<Remap>::empty()) == (held, Seq::<KeyCode>::empty()),
{
}

/// Pressing one entry.
pub proof fn lemma_press_one(held: Held, entry: Remap)
    ensures
        press_all(held, seq![entry]) == ({
            let vs = distinct(entry.1);
            let (o, p) = engage(held.output, Seq::<KeyCode>::empty(), entry.0, vs);
            (Held { input: held.input.insert(entry.0, vs), output: o }, p)
        }),
{
    let press = seq![entry];
    assert(press.drop_last() =~= Seq::<Remap>::empty());
    assert(press_all(held, press.drop_last()) == (held, Seq::<KeyCode>::empty()));
}

/// The batch for the given released and pressed keys, written out for up to one key
/// of each.
pub proof fn lemma_batch_small(time: TimeVal, released: Seq<KeyCode>, pressed: Seq<KeyCode>)
    requires
        released.len() <= 1,
        pressed.len() <= 1,
    ensures
        released.len() == 0 && pressed.len() == 0 ==> batch(time, released, pressed) == seq![
            sync_event(time),
        ],
        released.len() == 1 && pressed.len() == 0 ==> batch(time, released, pressed) == seq![
            key_event(released[0], time, KeyEventType::Release),
            sync_event(time),
        ],
        released.len() == 0 && pressed.len() == 1 ==> batch(time, released, pressed) == seq![
            key_event(pressed[0], time, KeyEventType::Press),
            sync_event(time),
        ],
        released.len() == 1 && pressed.len() == 1 ==> batch(time, released, pressed) == seq![
            key_event(released[0], time, KeyEventType::Release),
            key_event(pressed[0], time, KeyEventType::Press),
            sync_event(time),
        ],
{
    let out = batch(time, released, pressed);
    if released.len() == 0 && pressed.len() == 0 {
        assert(out =~= seq![sync_event(time)]);
    } else if released.len() == 1 && pressed.len() == 0 {
        assert(out =~= seq![key_event(released[0], time, KeyEventType::Release), sync_event(time)]);
    } else if released.len() == 0 && pressed.len() == 1 {
        assert(out =~= seq![key_event(pressed[0], time, KeyEventType::Press), sync_event(time)]);
    } else {
        assert(out =~= seq![
            key_event(released[0], time, KeyEventType::Release),
            key_event(pressed[0], time, KeyEventType::Press),
            sync_event(time),
        ]);
    }
}

} // verus!
