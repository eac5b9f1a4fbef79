//! The two maps of the machine stay in step.
//!
//! `input` says which virtual keys stand for each held physical key, and
//! `output` says which physical keys hold each pressed virtual key. The laws
//! here say how a release and a press change the two, and that they stay
//! inverse to each other.
use vstd::prelude::*;
use crate::event::{EventCode, InputEvent, KeyCode, KeyEventType};
use crate::model::{
    Held,
    MachineView,
    Remap,
    distinct,
    drain,
    engage,
    has_src,
    merge_onto,
    press_all,
    release_all,
    secondary,
    sources,
};

verus! {

/// In `output`, the physical key `p` holds the virtual key `v`.
pub open spec fn owns(output: Map<KeyCode, Set<KeyCode>>, v: KeyCode, p: KeyCode) -> bool {
    output.contains_key(v) && output[v].contains(p)
}

/// In `input`, the virtual key `v` stands for the physical key `p`.
pub open spec fn stands(input: Map<KeyCode, Seq<KeyCode>>, p: KeyCode, v: KeyCode) -> bool {
    input.contains_key(p) && input[p].contains(v)
}

/// Every virtual key of `output` is held by some physical key.
pub open spec fn all_owned(output: Map<KeyCode, Set<KeyCode>>) -> bool {
    forall|v: KeyCode| #[trigger]
        output.contains_key(v) ==> exists|p: KeyCode| #[trigger] output[v].contains(p)
}

/// No physical key of `input` has a virtual key twice.
pub open spec fn all_distinct(input: Map<KeyCode, Seq<KeyCode>>) -> bool {
    forall|p: KeyCode| #[trigger] input.contains_key(p) ==> input[p].no_duplicates()
}

impl Held {
    /// Every virtual key that stands for a physical key is held by it and stands for it
    /// once, and every pressed virtual key is held by some key.
    pub open spec fn sound(self) -> bool {
        &&& forall|p: KeyCode, v: KeyCode| #[trigger]
            stands(self.input, p, v) ==> owns(self.output, v, p)
        &&& all_owned(self.output)
        &&& all_distinct(self.input)
    }

    /// The two maps are inverse to each other: a virtual key stands for a physical key
    /// exactly when the physical key holds it.
    pub open spec fn inverse(self) -> bool {
        forall|p: KeyCode, v: KeyCode|
            #![trigger stands(self.input, p, v)]
            #![trigger owns(self.output, v, p)]
            stands(self.input, p, v) <==> owns(self.output, v, p)
    }
}

/// How often `key` occurs in `keys`.
pub open spec fn tally(keys: Seq<KeyCode>, key: KeyCode) -> nat
    decreases keys.len(),
{
    if keys.len() == 0 {
        0
    } else {
        tally(keys.drop_last(), key) + if keys.last() == key {
            1nat
        } else {
            0nat
        }
    }
}

/// One if `key` is pressed in `output`, zero if it is not.
pub open spec fn pressed_now(output: Map<KeyCode, Set<KeyCode>>, key: KeyCode) -> nat {
    if output.contains_key(key) {
        1
    } else {
        0
    }
}

/// A key is tallied exactly when it occurs.
pub proof fn lemma_tally_contains(keys: Seq<KeyCode>, key: KeyCode)
    ensures
        tally(keys, key) > 0 <==> keys.contains(key),
    decreases keys.len(),
{
    if keys.len() > 0 {
        let front = keys.drop_last();
        lemma_tally_contains(front, key);
        if front.contains(key) {
            let i = choose|i: int| 0 <= i < front.len() && front[i] == key;
            assert(keys[i] == key);
        }
        if keys.contains(key) {
            let i = choose|i: int| 0 <= i < keys.len() && keys[i] == key;
            if i < front.len() {
                assert(front[i] == key);
            }
        }
        if keys.last() == key {
            assert(keys[keys.len() - 1] == key);
        }
    }
}

/// `distinct` keeps what a sequence holds.
pub proof fn lemma_distinct_contains(keys: Seq<KeyCode>, key: KeyCode)
    ensures
        distinct(keys).contains(key) <==> keys.contains(key),
    decreases keys.len(),
{
    if keys.len() > 0 {
        let front = keys.drop_last();
        let d = distinct(front);
        lemma_distinct_contains(front, key);
        if front.contains(key) {
            let i = choose|i: int| 0 <= i < front.len() && front[i] == key;
            assert(keys[i] == key);
        }
        if keys.contains(key) {
            let i = choose|i: int| 0 <= i < keys.len() && keys[i] == key;
            if i < front.len() {
                assert(front[i] == key);
            }
        }
        if !d.contains(keys.last()) {
            let d2 = d.push(keys.last());
            assert(d2[d.len() as int] == keys.last());
            if d.contains(key) {
                let i = choose|i: int| 0 <= i < d.len() && d[i] == key;
                assert(d2[i] == key);
            }
            if d2.contains(key) {
                let i = choose|i: int| 0 <= i < d2.len() && d2[i] == key;
                if i < d.len() {
                    assert(d[i] == key);
                }
            }
        }
        assert(keys[keys.len() - 1] == keys.last());
    }
}

/// `distinct` gives a sequence without repetitions.
pub proof fn lemma_distinct_no_duplicates(keys: Seq<KeyCode>)
    ensures
        distinct(keys).no_duplicates(),
    decreases keys.len(),
{
    if keys.len() > 0 {
        let d = distinct(keys.drop_last());
        lemma_distinct_no_duplicates(keys.drop_last());
        if !d.contains(keys.last()) {
            let d2 = d.push(keys.last());
            assert forall|i: int, j: int| 0 <= i < d2.len() && 0 <= j < d2.len() && i
                != j implies d2[i] != d2[j] by {
                if i < d.len() && j < d.len() {
                    assert(d[i] != d[j]);
                } else if i < d.len() {
                    assert(d[i] == d2[i]);
                } else {
                    assert(d[j] == d2[j]);
                }
            }
        }
    }
}

/// What letting go of virtual keys does to `output`: the key that lets go holds none of
/// them any more, nothing else changes hands, and exactly the virtual keys that leave
/// `output` are reported as released.
pub proof fn lemma_drain(
    output: Map<KeyCode, Set<KeyCode>>,
    released: Seq<KeyCode>,
    src: KeyCode,
    vs: Seq<KeyCode>,
)
    ensures
        ({
            let (o2, r2) = drain(output, released, src, vs);
            &&& forall|v: KeyCode, p: KeyCode|
                p != src ==> (#[trigger] owns(o2, v, p) <==> owns(output, v, p))
            &&& forall|v: KeyCode| #[trigger]
                owns(o2, v, src) <==> (owns(output, v, src) && !vs.contains(v))
            &&& forall|v: KeyCode| #[trigger] o2.contains_key(v) ==> output.contains_key(v)
            &&& all_owned(output) ==> all_owned(o2)
            &&& forall|v: KeyCode|
                #[trigger] tally(r2, v) + pressed_now(o2, v) == tally(released, v) + pressed_now(
                    output,
                    v,
                )
        }),
    decreases vs.len(),
{
    if vs.len() > 0 {
        let front = vs.drop_last();
        let last = vs.last();
        lemma_drain(output, released, src, front);
        let (o1, r1) = drain(output, released, src, front);
        let (o2, r2) = drain(output, released, src, vs);
        assert forall|v: KeyCode| vs.contains(v) <==> (front.contains(v) || v == last) by {
            if front.contains(v) {
                let i = choose|i: int| 0 <= i < front.len() && front[i] == v;
                assert(vs[i] == v);
            }
            if vs.contains(v) {
                let i = choose|i: int| 0 <= i < vs.len() && vs[i] == v;
                if i < front.len() {
                    assert(front[i] == v);
                }
            }
            assert(vs[vs.len() - 1] == last);
        }
        if o1.contains_key(last) {
            let owners = o1[last].remove(src);
            assert forall|v: KeyCode, p: KeyCode| p != src implies (#[trigger] owns(o2, v, p)
                <==> owns(output, v, p)) by {
                assert(owns(o1, v, p) <==> owns(output, v, p));
                if v == last && owns(o1, v, p) {
                    assert(owners.contains(p));
                }
            }
            assert forall|v: KeyCode| #[trigger] owns(o2, v, src) <==> (owns(output, v, src)
                && !vs.contains(v)) by {
                assert(owns(o1, v, src) <==> (owns(output, v, src) && !front.contains(v)));
            }
            if all_owned(output) {
                assert forall|v: KeyCode| #[trigger] o2.contains_key(v) implies exists|p: KeyCode|
                 #[trigger] o2[v].contains(p) by {
                    if v == last {
                        assert(!owners.is_empty());
                        let p = choose|p: KeyCode| owners.contains(p);
                        assert(o2[v].contains(p));
                    } else {
                        assert(o1.contains_key(v));
                        let p = choose|p: KeyCode| #[trigger] o1[v].contains(p);
                        assert(o2[v].contains(p));
                    }
                }
            }
            assert forall|v: KeyCode|
                #[trigger] tally(r2, v) + pressed_now(o2, v) == tally(released, v) + pressed_now(
                    output,
                    v,
                ) by {
                assert(tally(r1, v) + pressed_now(o1, v) == tally(released, v) + pressed_now(
                    output,
                    v,
                ));
                if owners.is_empty() {
                    assert(r2.drop_last() =~= r1);
                }
            }
        } else {
            assert forall|v: KeyCode| #[trigger] owns(o2, v, src) <==> (owns(output, v, src)
                && !vs.contains(v)) by {
                assert(owns(o1, v, src) <==> (owns(output, v, src) && !front.contains(v)));
            }
        }
    }
}

/// What taking hold of virtual keys does to `output`: the key that takes hold holds all
/// of them, nothing else changes hands, and exactly the virtual keys that enter `output`
/// are reported as pressed.
pub proof fn lemma_engage(
    output: Map<KeyCode, Set<KeyCode>>,
    pressed: Seq<KeyCode>,
    src: KeyCode,
    vs: Seq<KeyCode>,
)
    ensures
        ({
            let (o2, pressed2) = engage(output, pressed, src, vs);
            &&& forall|v: KeyCode, p: KeyCode|
                p != src ==> (#[trigger] owns(o2, v, p) <==> owns(output, v, p))
            &&& forall|v: KeyCode| #[trigger]
                owns(o2, v, src) <==> (owns(output, v, src) || vs.contains(v))
            &&& forall|v: KeyCode| #[trigger] output.contains_key(v) ==> o2.contains_key(v)
            &&& all_owned(output) ==> all_owned(o2)
            &&& forall|v: KeyCode|
                #[trigger] tally(pressed2, v) + pressed_now(output, v) == tally(pressed, v)
                    + pressed_now(o2, v)
        }),
    decreases vs.len(),
{
    if vs.len() > 0 {
        let front = vs.drop_last();
        let last = vs.last();
        lemma_engage(output, pressed, src, front);
        let (o1, pressed1) = engage(output, pressed, src, front);
        let (o2, pressed2) = engage(output, pressed, src, vs);
        assert forall|v: KeyCode| vs.contains(v) <==> (front.contains(v) || v == last) by {
            if front.contains(v) {
                let i = choose|i: int| 0 <= i < front.len() && front[i] == v;
                assert(vs[i] == v);
            }
            if vs.contains(v) {
                let i = choose|i: int| 0 <= i < vs.len() && vs[i] == v;
                if i < front.len() {
                    assert(front[i] == v);
                }
            }
            assert(vs[vs.len() - 1] == last);
        }
        assert forall|v: KeyCode, p: KeyCode| p != src implies (#[trigger] owns(o2, v, p)
            <==> owns(output, v, p)) by {
            assert(owns(o1, v, p) <==> owns(output, v, p));
        }
        assert forall|v: KeyCode| #[trigger] owns(o2, v, src) <==> (owns(output, v, src)
            || vs.contains(v)) by {
            assert(owns(o1, v, src) <==> (owns(output, v, src) || front.contains(v)));
        }
        if all_owned(output) {
            assert forall|v: KeyCode| #[trigger] o2.contains_key(v) implies exists|p: KeyCode|
             #[trigger] o2[v].contains(p) by {
                if v == last {
                    assert(o2[v].contains(src));
                } else {
                    assert(o1.contains_key(v));
                    let p = choose|p: KeyCode| #[trigger] o1[v].contains(p);
                    assert(o2[v].contains(p));
                }
            }
        }
        assert forall|v: KeyCode|
            #[trigger] tally(pressed2, v) + pressed_now(output, v) == tally(pressed, v) + pressed_now(
                o2,
                v,
            ) by {
            assert(tally(pressed1, v) + pressed_now(output, v) == tally(pressed, v) + pressed_now(
                o1,
                v,
            ));
            if !o1.contains_key(last) {
                assert(pressed2.drop_last() =~= pressed1);
            }
        }
    }
}

/// A key of a sequence with its last key set apart occurs in the front or is the last.
proof fn lemma_contains_last(keys: Seq<KeyCode>, key: KeyCode)
    requires
        keys.len() > 0,
    ensures
        keys.contains(key) <==> (keys.drop_last().contains(key) || keys.last() == key),
{
    let front = keys.drop_last();
    if front.contains(key) {
        let i = choose|i: int| 0 <= i < front.len() && front[i] == key;
        assert(keys[i] == key);
    }
    if keys.contains(key) {
        let i = choose|i: int| 0 <= i < keys.len() && keys[i] == key;
        if i < front.len() {
            assert(front[i] == key);
        }
    }
    assert(keys[keys.len() - 1] == keys.last());
}

/// What releasing physical keys does: exactly the released keys leave `input`, the maps
/// stay sound and inverse, and exactly the virtual keys that leave `output` are
/// reported.
pub proof fn lemma_release_all(held: Held, release: Seq<KeyCode>)
    ensures
        ({
            let (h2, r) = release_all(held, release);
            &&& forall|p: KeyCode| #[trigger]
                h2.input.contains_key(p) <==> (held.input.contains_key(p) && !release.contains(p))
            &&& forall|p: KeyCode|
                h2.input.contains_key(p) ==> #[trigger] h2.input[p] == held.input[p]
            &&& forall|v: KeyCode| #[trigger]
                h2.output.contains_key(v) ==> held.output.contains_key(v)
            &&& held.sound() ==> h2.sound()
            &&& held.sound() && held.inverse() ==> h2.inverse()
            &&& forall|v: KeyCode|
                #[trigger] tally(r, v) + pressed_now(h2.output, v) == pressed_now(held.output, v)
        }),
    decreases release.len(),
{
    if release.len() > 0 {
        let front = release.drop_last();
        let src = release.last();
        lemma_release_all(held, front);
        let (h1, r1) = release_all(held, front);
        let (h2, r2) = release_all(held, release);
        assert forall|p: KeyCode| release.contains(p) <==> (front.contains(p) || p == src) by {
            lemma_contains_last(release, p);
        }
        if h1.input.contains_key(src) {
            let vs = h1.input[src];
            lemma_drain(h1.output, r1, src, vs);
            if held.sound() {
                assert forall|p: KeyCode, v: KeyCode| #[trigger]
                    stands(h2.input, p, v) implies owns(h2.output, v, p) by {
                    assert(stands(h1.input, p, v));
                    assert(owns(h1.output, v, p));
                }
                assert forall|p: KeyCode| #[trigger]
                    h2.input.contains_key(p) implies h2.input[p].no_duplicates() by {
                    assert(h1.input.contains_key(p));
                }
            }
            if held.sound() && held.inverse() {
                assert forall|p: KeyCode, v: KeyCode|
                    #![trigger stands(h2.input, p, v)]
                    #![trigger owns(h2.output, v, p)]
                    stands(h2.input, p, v) <==> owns(h2.output, v, p) by {
                    assert(stands(h1.input, p, v) <==> owns(h1.output, v, p));
                    if p == src {
                        assert(owns(h2.output, v, src) <==> (owns(h1.output, v, src)
                            && !vs.contains(v)));
                    } else {
                        assert(owns(h2.output, v, p) <==> owns(h1.output, v, p));
                    }
                }
            }
            assert forall|v: KeyCode|
                #[trigger] tally(r2, v) + pressed_now(h2.output, v) == pressed_now(
                    held.output,
                    v,
                ) by {
                assert(tally(r1, v) + pressed_now(h1.output, v) == pressed_now(held.output, v));
                assert(tally(r2, v) + pressed_now(h2.output, v) == tally(r1, v) + pressed_now(
                    h1.output,
                    v,
                ));
            }
        }
    }
}

/// Every virtual key that stands for the source of an entry of `press` is among the
/// virtual keys of that entry: pressing the entry takes no virtual key from its source.
pub open spec fn covered(input: Map<KeyCode, Seq<KeyCode>>, press: Seq<Remap>) -> bool {
    forall|i: int, v: KeyCode|
        0 <= i < press.len() && #[trigger] stands(input, press[i].0, v) ==> press[i].1.contains(v)
}

/// What pressing entries does: their sources enter `input`, the maps stay sound, they
/// stay inverse where no source loses a virtual key, and exactly the virtual keys that
/// enter `output` are reported.
pub proof fn lemma_press_all(held: Held, press: Seq<Remap>)
    ensures
        ({
            let (h2, p) = press_all(held, press);
            &&& forall|q: KeyCode| #[trigger]
                h2.input.contains_key(q) <==> (held.input.contains_key(q) || sources(
                    press,
                ).contains(q))
            &&& forall|q: KeyCode|
                held.input.contains_key(q) && !sources(press).contains(q)
                    ==> #[trigger] h2.input[q] == held.input[q]
            &&& forall|v: KeyCode| #[trigger]
                held.output.contains_key(v) ==> h2.output.contains_key(v)
            &&& held.sound() ==> h2.sound()
            &&& held.sound() && held.inverse() && sources(press).no_duplicates() && covered(
                held.input,
                press,
            ) ==> h2.inverse()
            &&& forall|v: KeyCode|
                #[trigger] tally(p, v) + pressed_now(held.output, v) == pressed_now(h2.output, v)
        }),
    decreases press.len(),
{
    if press.len() == 0 {
        assert(sources(press) =~= Seq::<KeyCode>::empty());
        assert forall|q: KeyCode| !sources(press).contains(q) by {}
    } else {
        let front = press.drop_last();
        let src = press.last().0;
        let dst = press.last().1;
        let vs = distinct(dst);
        lemma_press_all(held, front);
        let (h1, pressed1) = press_all(held, front);
        let (h2, pressed2) = press_all(held, press);
        lemma_engage(h1.output, pressed1, src, vs);
        assert(sources(press).drop_last() =~= sources(front));
        assert(sources(press).last() == src);
        assert forall|q: KeyCode| sources(press).contains(q) <==> (sources(front).contains(q)
            || q == src) by {
            lemma_contains_last(sources(press), q);
        }
        assert forall|v: KeyCode| vs.contains(v) <==> dst.contains(v) by {
            lemma_distinct_contains(dst, v);
        }
        if held.sound() {
            assert forall|q: KeyCode, v: KeyCode| #[trigger]
                stands(h2.input, q, v) implies owns(h2.output, v, q) by {
                if q != src {
                    assert(stands(h1.input, q, v));
                    assert(owns(h1.output, v, q));
                }
            }
            lemma_distinct_no_duplicates(dst);
            assert forall|q: KeyCode| #[trigger]
                h2.input.contains_key(q) implies h2.input[q].no_duplicates() by {
                if q != src {
                    assert(h1.input.contains_key(q));
                }
            }
        }
        if held.sound() && held.inverse() && sources(press).no_duplicates() && covered(
            held.input,
            press,
        ) {
            assert(sources(front).no_duplicates()) by {
                assert forall|i: int, j: int|
                    0 <= i < sources(front).len() && 0 <= j < sources(front).len() && i
                        != j implies sources(front)[i] != sources(front)[j] by {
                    assert(sources(press)[i] == sources(front)[i]);
                    assert(sources(press)[j] == sources(front)[j]);
                }
            }
            assert(covered(held.input, front)) by {
                assert forall|i: int, v: KeyCode|
                    0 <= i < front.len() && #[trigger] stands(
                        held.input,
                        front[i].0,
                        v,
                    ) implies front[i].1.contains(v) by {
                    assert(front[i] == press[i]);
                }
            }
            assert(!sources(front).contains(src)) by {
                if sources(front).contains(src) {
                    let i = choose|i: int| 0 <= i < sources(front).len() && sources(front)[i] == src;
                    assert(sources(press)[i] == src);
                    assert(sources(press)[press.len() - 1] == src);
                }
            }
            assert forall|q: KeyCode, v: KeyCode|
                #![trigger stands(h2.input, q, v)]
                #![trigger owns(h2.output, v, q)]
                stands(h2.input, q, v) <==> owns(h2.output, v, q) by {
                assert(stands(h1.input, q, v) <==> owns(h1.output, v, q));
                if q == src {
                    assert(owns(h2.output, v, src) <==> (owns(h1.output, v, src) || vs.contains(
                        v,
                    )));
                    if stands(h1.input, src, v) {
                        assert(held.input.contains_key(src));
                        assert(h1.input[src] == held.input[src]);
                        assert(stands(held.input, press[press.len() - 1].0, v));
                    }
                } else {
                    assert(owns(h2.output, v, q) <==> owns(h1.output, v, q));
                }
            }
        }
        assert forall|v: KeyCode|
            #[trigger] tally(pressed2, v) + pressed_now(held.output, v) == pressed_now(h2.output, v) by {
            assert(tally(pressed1, v) + pressed_now(held.output, v) == pressed_now(h1.output, v));
            assert(tally(pressed2, v) + pressed_now(h1.output, v) == tally(pressed1, v) + pressed_now(
                h2.output,
                v,
            ));
        }
    }
}

/// No physical key has two entries in `table`.
pub open spec fn unique_srcs(table: Seq<Remap>) -> bool {
    forall|i: int, j: int|
        0 <= i < j < table.len() ==> (#[trigger] table[i]).0 != (#[trigger] table[j]).0
}

/// Merging entries onto a table with one entry for each key gives such a table, and it
/// speaks of the keys of either.
pub proof fn lemma_merge_onto(front: Seq<Remap>, more: Seq<Remap>)
    requires
        unique_srcs(front),
    ensures
        unique_srcs(merge_onto(front, more)),
        forall|src: KeyCode| #[trigger]
            has_src(merge_onto(front, more), src) <==> (has_src(front, src) || has_src(more, src)),
    decreases more.len(),
{
    if more.len() == 0 {
        assert forall|src: KeyCode| !has_src(more, src) by {}
    } else {
        let rest = more.drop_last();
        let last = more.last();
        lemma_merge_onto(front, rest);
        let table = merge_onto(front, rest);
        let out = merge_onto(front, more);
        assert forall|src: KeyCode| has_src(more, src) <==> (has_src(rest, src) || src
            == last.0) by {
            if has_src(rest, src) {
                let i = choose|i: int| 0 <= i < rest.len() && (#[trigger] rest[i]).0 == src;
                assert(more[i].0 == src);
            }
            if has_src(more, src) {
                let i = choose|i: int| 0 <= i < more.len() && (#[trigger] more[i]).0 == src;
                if i < rest.len() {
                    assert(rest[i].0 == src);
                }
            }
            assert(more[more.len() - 1] == last);
        }
        if !has_src(table, last.0) {
            assert forall|i: int, j: int| 0 <= i < j < out.len() implies (#[trigger] out[i]).0 != (
            #[trigger] out[j]).0 by {
                if j < table.len() {
                    assert(out[i] == table[i] && out[j] == table[j]);
                } else {
                    assert(out[i] == table[i]);
                }
            }
            assert forall|src: KeyCode| has_src(out, src) <==> (has_src(table, src) || src
                == last.0) by {
                if has_src(table, src) {
                    let i = choose|i: int| 0 <= i < table.len() && (#[trigger] table[i]).0 == src;
                    assert(out[i].0 == src);
                }
                if has_src(out, src) {
                    let i = choose|i: int| 0 <= i < out.len() && (#[trigger] out[i]).0 == src;
                    if i < table.len() {
                        assert(table[i].0 == src);
                    }
                }
                assert(out[out.len() - 1] == last);
            }
        }
    }
}

/// The held keys that a table remaps: each is held, is not the pressed key, and has one
/// entry only.
pub proof fn lemma_secondary(input: Map<KeyCode, Seq<KeyCode>>, table: Seq<Remap>, key: KeyCode)
    requires
        unique_srcs(table),
    ensures
        unique_srcs(secondary(input, table, key)),
        forall|src: KeyCode| #[trigger]
            has_src(secondary(input, table, key), src) <==> (has_src(table, src) && src != key
                && input.contains_key(src)),
    decreases table.len(),
{
    if table.len() == 0 {
        assert forall|src: KeyCode| !has_src(table, src) by {}
    } else {
        let rest = table.drop_last();
        let last = table.last();
        assert(unique_srcs(rest)) by {
            assert forall|i: int, j: int| 0 <= i < j < rest.len() implies (#[trigger] rest[i]).0
                != (#[trigger] rest[j]).0 by {
                assert(rest[i] == table[i] && rest[j] == table[j]);
            }
        }
        lemma_secondary(input, rest, key);
        let others = secondary(input, rest, key);
        let out = secondary(input, table, key);
        assert forall|src: KeyCode| has_src(table, src) <==> (has_src(rest, src) || src
            == last.0) by {
            if has_src(rest, src) {
                let i = choose|i: int| 0 <= i < rest.len() && (#[trigger] rest[i]).0 == src;
                assert(table[i].0 == src);
            }
            if has_src(table, src) {
                let i = choose|i: int| 0 <= i < table.len() && (#[trigger] table[i]).0 == src;
                if i < rest.len() {
                    assert(rest[i].0 == src);
                }
            }
            assert(table[table.len() - 1] == last);
        }
        assert(!has_src(rest, last.0)) by {
            if has_src(rest, last.0) {
                let i = choose|i: int| 0 <= i < rest.len() && (#[trigger] rest[i]).0 == last.0;
                assert(table[i].0 == table[table.len() - 1].0);
            }
        }
        if last.0 != key && input.contains_key(last.0) {
            assert forall|i: int, j: int| 0 <= i < j < out.len() implies (#[trigger] out[i]).0 != (
            #[trigger] out[j]).0 by {
                if j < others.len() {
                    assert(out[i] == others[i] && out[j] == others[j]);
                } else {
                    assert(out[i] == others[i]);
                    assert(has_src(others, others[i].0));
                }
            }
            assert forall|src: KeyCode| has_src(out, src) <==> (has_src(others, src) || src
                == last.0) by {
                if has_src(others, src) {
                    let i = choose|i: int| 0 <= i < others.len() && (#[trigger] others[i]).0 == src;
                    assert(out[i].0 == src);
                }
                if has_src(out, src) {
                    let i = choose|i: int| 0 <= i < out.len() && (#[trigger] out[i]).0 == src;
                    if i < others.len() {
                        assert(others[i].0 == src);
                    }
                }
                assert(out[out.len() - 1] == last);
            }
        }
    }
}

/// A table has an entry for a key exactly when the key is among its sources.
pub proof fn lemma_sources(table: Seq<Remap>)
    ensures
        forall|src: KeyCode| #[trigger] sources(table).contains(src) <==> has_src(table, src),
        unique_srcs(table) <==> sources(table).no_duplicates(),
{
    let s = sources(table);
    assert forall|src: KeyCode| s.contains(src) <==> has_src(table, src) by {
        if s.contains(src) {
            let i = choose|i: int| 0 <= i < s.len() && s[i] == src;
            assert(table[i].0 == src);
        }
        if has_src(table, src) {
            let i = choose|i: int| 0 <= i < table.len() && (#[trigger] table[i]).0 == src;
            assert(s[i] == src);
        }
    }
    if unique_srcs(table) {
        assert forall|i: int, j: int| 0 <= i < s.len() && 0 <= j < s.len() && i != j implies s[i]
            != s[j] by {
            if i < j {
                assert(table[i].0 != table[j].0);
            } else {
                assert(table[j].0 != table[i].0);
            }
        }
    }
    if s.no_duplicates() {
        assert forall|i: int, j: int| 0 <= i < j < table.len() implies (#[trigger] table[i]).0 != (
        #[trigger] table[j]).0 by {
            assert(s[i] != s[j]);
        }
    }
}

impl MachineView {
    /// The table that a press puts into effect has one entry for each key.
    pub proof fn lemma_table_unique(self, key: KeyCode, n: int)
        ensures
            unique_srcs(self.table_upto(key, n)),
        decreases n,
    {
        if n > 0 {
            self.lemma_table_unique(key, n - 1);
            lemma_merge_onto(self.table_upto(key, n - 1), self.rules[n - 1].mappings);
        }
    }
    /// Whether a press of `key` would strand virtual keys: the key is held and stands for
    /// a key other than itself, the rules speak of it, and the table that the press puts
    /// into effect has no entry for it. The press then maps the key to itself without
    /// releasing it first, and the virtual keys it stood for stay pressed.
    pub open spec fn strands_at(self, key: KeyCode) -> bool {
        let noted = self.touch(key, true);
        &&& noted.has_entry(key)
        &&& !has_src(noted.table(key), key)
        &&& exists|v: KeyCode| #[trigger] stands(self.held.input, key, v) && v != key
    }

    /// Whether `event` is a press that strands virtual keys.
    pub open spec fn strands(self, event: InputEvent) -> bool {
        match event.event_code {
            EventCode::Key(key) => KeyEventType::spec_from_value(event.value)
                == KeyEventType::Press && self.strands_at(key),
            _ => false,
        }
    }

    /// The lists that a press asks for: no key is pressed twice, the pressed key comes
    /// last, and every other key that is pressed is released first.
    pub proof fn lemma_remap_press(self, key: KeyCode)
        ensures
            ({
                let (rel, prs) = self.remap_press(key);
                &&& sources(prs).no_duplicates()
                &&& prs.len() > 0
                &&& prs.last().0 == key
                &&& forall|i: int| 0 <= i < prs.len() - 1 ==> rel.contains((#[trigger] prs[i]).0)
                &&& forall|p: KeyCode| #[trigger] rel.contains(p) ==> self.held.input.contains_key(p)
                &&& forall|p: KeyCode| rel.contains(p) ==> #[trigger] sources(prs).contains(p)
                &&& forall|p: KeyCode| #[trigger]
                    sources(prs).contains(p) ==> p == key || self.held.input.contains_key(p)
                &&& sources(prs).contains(key)
                &&& self.can_release(rel)
                &&& rel.contains(key) <==> (self.held.input.contains_key(key) && (!self.has_entry(
                    key,
                ) || has_src(self.table(key), key)))
                &&& !rel.contains(key) && self.held.input.contains_key(key) ==> prs.last().1
                    == seq![key]
            }),
    {
        let (rel, prs) = self.remap_press(key);
        let input = self.held.input;
        assert(sources(prs)[prs.len() - 1] == key);
        if !self.has_entry(key) {
            assert(sources(prs) =~= seq![key]);
            if input.contains_key(key) {
                assert(rel[0] == key);
            }
        } else {
            let table = self.table(key);
            let others = secondary(input, table, key);
            self.lemma_table_unique(key, self.rules.len() as int);
            lemma_secondary(input, table, key);
            lemma_sources(others);
            lemma_sources(prs);
            assert(!has_src(others, key));
            assert(rel.no_duplicates()) by {
                assert forall|i: int, j: int|
                    0 <= i < rel.len() && 0 <= j < rel.len() && i != j implies rel[i]
                    != rel[j] by {
                    assert(sources(others).len() == others.len());
                    if i < others.len() && j < others.len() {
                        assert(sources(others)[i] != sources(others)[j]);
                    } else if i < others.len() {
                        assert(rel[i] == others[i].0);
                        assert(has_src(others, others[i].0));
                    } else if j < others.len() {
                        assert(rel[j] == others[j].0);
                        assert(has_src(others, others[j].0));
                    }
                }
            }
            assert(unique_srcs(prs)) by {
                assert forall|i: int, j: int| 0 <= i < j < prs.len() implies (#[trigger] prs[i]).0
                    != (#[trigger] prs[j]).0 by {
                    assert(prs[i] == others[i]);
                    if j < others.len() {
                        assert(prs[j] == others[j]);
                    } else {
                        assert(has_src(others, others[i].0));
                    }
                }
            }
            assert forall|i: int| 0 <= i < prs.len() - 1 implies rel.contains(
                (#[trigger] prs[i]).0,
            ) by {
                assert(prs[i] == others[i]);
                assert(rel[i] == others[i].0);
            }
            assert forall|p: KeyCode| #[trigger] rel.contains(p) implies input.contains_key(p) by {
                let i = choose|i: int| 0 <= i < rel.len() && rel[i] == p;
                assert(sources(others).len() == others.len());
                if i < others.len() {
                    assert(rel[i] == sources(others)[i]);
                    assert(others[i].0 == p);
                    assert(has_src(others, p));
                    assert(input.contains_key(p));
                } else {
                    assert(has_src(table, key));
                    assert(input.contains_key(key));
                    assert(rel[i] == seq![key][i - others.len()]);
                    assert(p == key);
                }
            }
            if rel.contains(key) {
                let i = choose|i: int| 0 <= i < rel.len() && rel[i] == key;
                if i < others.len() {
                    assert(has_src(others, others[i].0));
                }
            }
            assert forall|p: KeyCode| rel.contains(p) implies #[trigger] sources(prs).contains(
                p,
            ) by {
                let i = choose|i: int| 0 <= i < rel.len() && rel[i] == p;
                assert(sources(others).len() == others.len());
                if i < others.len() {
                    assert(rel[i] == sources(others)[i]);
                    assert(sources(prs)[i] == p);
                } else {
                    assert(rel[i] == seq![key][i - others.len()]);
                }
            }
            assert forall|p: KeyCode| #[trigger] sources(prs).contains(p) implies p == key
                || input.contains_key(p) by {
                let i = choose|i: int| 0 <= i < prs.len() && sources(prs)[i] == p;
                if i < others.len() {
                    assert(prs[i] == others[i]);
                    assert(has_src(others, others[i].0));
                }
            }
            if input.contains_key(key) && has_src(table, key) {
                assert(rel[rel.len() - 1] == key);
            }
        }
        assert(self.can_release(rel)) by {
            assert forall|i: int| 0 <= i < rel.len() implies input.contains_key(
                #[trigger] rel[i],
            ) by {
                assert(rel.contains(rel[i]));
            }
        }
    }

    /// What a release asks for can be released.
    pub proof fn lemma_remap_release(self, key: KeyCode)
        ensures
            self.remap_release(key).1.len() == 0 ==> self.can_release(self.remap_release(key).0),
    {
    }

    /// An update keeps the maps sound.
    pub proof fn lemma_update_keeps_sound(self, release: Seq<KeyCode>, press: Seq<Remap>)
        requires
            self.held.sound(),
        ensures
            self.apply(release, press).0.held.sound(),
            self.update(release, press).0.held.sound(),
    {
        lemma_release_all(self.held, release);
        lemma_press_all(release_all(self.held, release).0, press);
    }

    /// A press or a release keeps the maps sound.
    pub proof fn lemma_edge_keeps_sound(self, event: InputEvent, key: KeyCode, release: bool)
        requires
            self.held.sound(),
        ensures
            self.edge(event, key, release).0.held.sound(),
    {
        let noted = self.touch(key, !release);
        let (rel, prs) = noted.remap(key, release);
        noted.lemma_update_keeps_sound(rel, prs);
    }

    /// Whatever comes in, every virtual key that stands for a physical key stays held by
    /// it, and every pressed virtual key stays held by some key.
    pub proof fn lemma_send_keeps_sound(self, event: InputEvent)
        requires
            self.held.sound(),
        ensures
            self.send(event).0.held.sound(),
    {
        match event.event_code {
            EventCode::Key(key) => {
                self.lemma_edge_keeps_sound(event, key, true);
                self.lemma_edge_keeps_sound(event, key, false);
            },
            _ => {},
        }
    }

    /// A press or a release keeps the maps inverse, unless it is a press that strands
    /// virtual keys.
    pub proof fn lemma_edge_keeps_inverse(self, event: InputEvent, key: KeyCode, release: bool)
        requires
            self.held.sound(),
            self.held.inverse(),
            release || !self.strands_at(key),
        ensures
            self.edge(event, key, release).0.held.inverse(),
    {
        let noted = self.touch(key, !release);
        let (rel, prs) = noted.remap(key, release);
        let (h1, released) = release_all(noted.held, rel);
        lemma_release_all(noted.held, rel);
        lemma_press_all(h1, prs);
        if release {
            if prs.len() == 0 {
                assert(sources(prs) =~= Seq::<KeyCode>::empty());
            }
        } else {
            noted.lemma_remap_press(key);
            assert(covered(h1.input, prs)) by {
                assert forall|i: int, v: KeyCode|
                    0 <= i < prs.len() && #[trigger] stands(
                        h1.input,
                        prs[i].0,
                        v,
                    ) implies prs[i].1.contains(v) by {
                    if i < prs.len() - 1 {
                        assert(rel.contains(prs[i].0));
                    } else {
                        assert(prs[i] == prs.last());
                        assert(stands(self.held.input, key, v));
                        assert(seq![key][0] == key);
                    }
                }
            }
        }
    }

    /// After every event the two maps are inverse to each other: a virtual key stands
    /// for a physical key exactly when the physical key holds it. The one event that
    /// breaks this is a press that strands virtual keys.
    pub proof fn lemma_send_keeps_inverse(self, event: InputEvent)
        requires
            self.held.sound(),
            self.held.inverse(),
            !self.strands(event),
        ensures
            self.send(event).0.held.inverse(),
    {
        match event.event_code {
            EventCode::Key(key) => {
                match KeyEventType::spec_from_value(event.value) {
                    KeyEventType::Release => self.lemma_edge_keeps_inverse(event, key, true),
                    KeyEventType::Press => self.lemma_edge_keeps_inverse(event, key, false),
                    _ => {},
                }
            },
            _ => {},
        }
    }

    /// After every event of a run the two maps are inverse to each other, where they were
    /// at the start and no event of the run is a press that strands virtual keys.
    pub proof fn lemma_run_keeps_inverse(self, events: Seq<InputEvent>)
        requires
            self.held.sound(),
            self.held.inverse(),
            forall|n: int|
                0 <= n < events.len() ==> !(#[trigger] self.run(events.take(n))).0.strands(
                    events[n],
                ),
        ensures
            self.run(events).0.held.sound(),
            self.run(events).0.held.inverse(),
        decreases events.len(),
    {
        if events.len() > 0 {
            let front = events.drop_last();
            assert forall|n: int| 0 <= n < front.len() implies !(#[trigger] self.run(
                front.take(n),
            )).0.strands(front[n]) by {
                assert(front.take(n) =~= events.take(n));
                assert(!self.run(events.take(n)).0.strands(events[n]));
            }
            self.lemma_run_keeps_inverse(front);
            let machine = self.run(front).0;
            assert(front =~= events.take(events.len() - 1));
            assert(!self.run(events.take(events.len() - 1)).0.strands(events[events.len() - 1]));
            machine.lemma_send_keeps_sound(events.last());
            machine.lemma_send_keeps_inverse(events.last());
        }
    }

    /// A machine that was just compiled holds no key: its maps are sound and inverse.
    pub proof fn lemma_compiled_holds_nothing(self, rules: Seq<crate::mapping::MappingView>)
        requires
            self.compiled_from(rules),
        ensures
            self.held.sound(),
            self.held.inverse(),
    {
    }
}

} // verus!
