//! What is worth telling the user about an event, found without changing the machine.
use vstd::prelude::*;
use crate::cond_bits::{CondBits, lemma_popcount_zero};
use crate::event::{EventCode, InputEvent, KeyCode, KeyEventType};
use crate::mapping::remaps_view;
use crate::model::{GuardView, clashes, merge_onto};
use crate::util::copy_keys;
use crate::warning::{Warning, WarningView, warnings_view};
use super::{GuardKey, KeyEntry, StateMachine, entry_sound, table_find, table_view};

verus! {

broadcast use vstd::std_specs::hash::group_hash_axioms;

/// Whether the guard holds once its bits have taken note of a press of `code`.
fn holds_after_press(keys: &GuardKey, bits: &CondBits, code: KeyCode) -> (holds: bool)
    requires
        bits.wf(),
        bits@.len() == keys.cond@.len() + keys.except@.len(),
    ensures
        holds == (GuardView { cond: keys.cond@, except: keys.except@, bits: bits@ }).touch(
            code,
            true,
        ).eligible(),
{
    let ghost guard = GuardView { cond: keys.cond@, except: keys.except@, bits: bits@ };
    let ghost noted = guard.touch(code, true);
    proof {
        lemma_popcount_zero(noted.bits);
        bits.lemma_len_fits();
    }
    let offset: usize = keys.cond.len();
    let mut p: usize = 0;
    while p < keys.cond.len()
        invariant
            p <= keys.cond.len(),
            bits.wf(),
            bits@.len() == keys.cond@.len() + keys.except@.len(),
            guard == (GuardView { cond: keys.cond@, except: keys.except@, bits: bits@ }),
            noted == guard.touch(code, true),
            forall|q: int| 0 <= q < p ==> !noted.bits[q],
        decreases keys.cond.len() - p,
    {
        if keys.cond[p] != code && bits.get(p) {
            proof {
                lemma_popcount_zero(noted.bits);
                assert(noted.bits[p as int]);
            }
            return false;
        }
        p = p + 1;
    }
    let mut j: usize = 0;
    while j < keys.except.len()
        invariant
            j <= keys.except.len(),
            offset == keys.cond@.len(),
            bits.wf(),
            bits@.len() == keys.cond@.len() + keys.except@.len(),
            bits@.len() <= usize::MAX,
            guard == (GuardView { cond: keys.cond@, except: keys.except@, bits: bits@ }),
            noted == guard.touch(code, true),
            forall|q: int| 0 <= q < offset + j ==> !noted.bits[q],
        decreases keys.except.len() - j,
    {
        if keys.except[j] == code || bits.get(offset + j) {
            proof {
                lemma_popcount_zero(noted.bits);
                assert(noted.bits[offset + j]);
            }
            return false;
        }
        j = j + 1;
    }
    proof {
        lemma_popcount_zero(noted.bits);
    }
    true
}

/// Adds to `table` those entries of `mappings` whose physical key has no entry yet, and
/// notes the others in `noted`.
fn merge_noting<'a>(
    table: &mut Vec<(KeyCode, &'a Vec<KeyCode>)>,
    mappings: &'a Vec<(KeyCode, Vec<KeyCode>)>,
    noted: &mut Vec<Warning>,
)
    ensures
        table_view(final(table)@) == merge_onto(
            table_view(old(table)@),
            remaps_view(mappings@),
        ),
        warnings_view(final(noted)@) == warnings_view(old(noted)@) + clashes(
            table_view(old(table)@),
            remaps_view(mappings@),
        ),
{
    let ghost t0 = table_view(table@);
    let ghost w0 = warnings_view(noted@);
    let ghost more = remaps_view(mappings@);
    let mut m: usize = 0;
    assert(warnings_view(noted@) =~= w0 + clashes(t0, more.take(0)));
    while m < mappings.len()
        invariant
            m <= mappings.len(),
            more == remaps_view(mappings@),
            table_view(table@) == merge_onto(t0, more.take(m as int)),
            warnings_view(noted@) == w0 + clashes(t0, more.take(m as int)),
        decreases mappings.len() - m,
    {
        let src = mappings[m].0;
        let ghost before = table_view(table@);
        let ghost told = warnings_view(noted@);
        proof {
            assert(more.take(m + 1).drop_last() =~= more.take(m as int));
            assert(more.take(m + 1).last() == more[m as int]);
        }
        match table_find(table, src) {
            None => {
                table.push((src, &mappings[m].1));
                assert(table_view(table@) =~= before.push(more[m as int]));
            },
            Some(kept) => {
                let warning = Warning::AmbiguousRules {
                    src,
                    kept: copy_keys(kept),
                    ignored: copy_keys(&mappings[m].1),
                };
                noted.push(warning);
                assert(warnings_view(noted@) =~= told.push(warning@));
                assert(warnings_view(noted@) =~= w0 + clashes(t0, more.take(m + 1)));
            },
        }
        m = m + 1;
    }
    assert(more.take(mappings.len() as int) =~= more);
}

impl StateMachine {
    /// The entries that a press of `code` ignores, and the table that it puts into
    /// effect, seen from the machine as it will be once the press is noted.
    fn clashes_for<'a>(&'a self, code: KeyCode, e: &'a KeyEntry) -> (r: (
        Vec<(KeyCode, &'a Vec<KeyCode>)>,
        Vec<Warning>,
    ))
        requires
            self.inv(),
            self.key_map@.contains_key(code),
            self.key_map@[code] == *e,
        ensures
            table_view(r.0@) == self@.touch(code, true).table(code),
            warnings_view(r.1@) == self@.touch(code, true).clashes_upto(
                code,
                self@.rules.len() as int,
            ),
    {
        let ghost view = self@.touch(code, true);
        let ghost bound: int = 0;
        let mut table: Vec<(KeyCode, &'a Vec<KeyCode>)> = Vec::new();
        let mut noted: Vec<Warning> = Vec::new();
        let mut t: usize = 0;
        assert(entry_sound(self.guard_keys@, self.rules@, code, *e));
        assert(table_view(table@) =~= view.table_upto(code, 0));
        assert(warnings_view(noted@) =~= view.clashes_upto(code, 0));
        while t < e.trigger.len()
            invariant
                t <= e.trigger.len(),
                self.inv(),
                view == self@.touch(code, true),
                self.key_map@.contains_key(code),
                self.key_map@[code] == *e,
                entry_sound(self.guard_keys@, self.rules@, code, *e),
                0 <= bound <= self.rules@.len(),
                forall|j: int| 0 <= j < t ==> e.trigger@[j] < bound,
                forall|j: int| t <= j < e.trigger@.len() ==> bound <= e.trigger@[j],
                table_view(table@) == view.table_upto(code, bound),
                warnings_view(noted@) == view.clashes_upto(code, bound),
            decreases e.trigger.len() - t,
        {
            let r = e.trigger[t];
            proof {
                self.lemma_no_trigger_between(code, bound, r as int);
                assert forall|q: int| bound <= q < r implies !(#[trigger] view.rules[q]).when.contains(
                    code,
                ) by {
                    assert(view.rules[q] == self@.rules[q]);
                }
                view.lemma_table_skip(code, bound, r as int);
                view.lemma_clashes_skip(code, bound, r as int);
                assert(view.rules[r as int].when.contains(code));
            }
            let rule = &self.rules[r];
            if holds_after_press(
                &self.guard_keys[rule.cond_bits],
                &self.cond_bits[rule.cond_bits],
                code,
            ) {
                merge_noting(&mut table, &rule.mappings, &mut noted);
            }
            proof {
                bound = r + 1;
                assert forall|j: int| t + 1 <= j < e.trigger@.len() implies bound
                    <= e.trigger@[j] by {
                    assert(e.trigger@[t as int] < e.trigger@[j]);
                }
            }
            t = t + 1;
        }
        proof {
            let all = self.rules@.len() as int;
            self.lemma_no_trigger_between(code, bound, all);
            assert forall|q: int| bound <= q < all implies !(#[trigger] view.rules[q]).when.contains(
                code,
            ) by {
                assert(view.rules[q] == self@.rules[q]);
            }
            view.lemma_table_skip(code, bound, all);
            view.lemma_clashes_skip(code, bound, all);
        }
        (table, noted)
    }

    /// What is worth telling the user about `event`: that a key is released or repeats
    /// that is not held, that an event of a key has an unknown value, that a key is
    /// pressed that is held already, and that rules that fire together remap one key.
    /// The machine stays as it is; the caller asks before it sends the event.
    pub fn warnings(&self, event: &InputEvent) -> (found: Vec<Warning>)
        requires
            self.inv(),
        ensures
            warnings_view(found@) == self@.warnings(*event),
    {
        let mut found: Vec<Warning> = Vec::new();
        match event.event_code {
            EventCode::Key(code) => {
                match KeyEventType::from_value(event.value) {
                    KeyEventType::Press => {
                        proof {
                            self.lemma_has_entry(code);
                            self@.lemma_touch_has_entry(code, true, code);
                        }
                        match self.key_map.get(&code) {
                            None => {
                                if self.input_state.contains_key(&code) {
                                    found.push(Warning::DoublePress(code));
                                }
                            },
                            Some(e) => {
                                let (table, clashes) = self.clashes_for(code, e);
                                found = clashes;
                                if table_find(&table, code).is_some()
                                    && self.input_state.contains_key(&code) {
                                    let ghost before = warnings_view(found@);
                                    found.push(Warning::DoublePress(code));
                                    assert(warnings_view(found@) =~= before + seq![
                                        WarningView::DoublePress(code),
                                    ]);
                                } else {
                                    assert(warnings_view(found@) + Seq::<WarningView>::empty()
                                        =~= warnings_view(found@));
                                }
                            },
                        }
                    },
                    KeyEventType::Release => {
                        if !self.input_state.contains_key(&code) {
                            found.push(Warning::UnpressedRelease(code));
                        }
                    },
                    KeyEventType::Repeat => {
                        if !self.input_state.contains_key(&code) {
                            found.push(Warning::UnpressedRepeat(code));
                        }
                    },
                    KeyEventType::Unknown(value) => {
                        found.push(Warning::UnknownEventType { value, key: code });
                    },
                }
            },
            _ => {},
        }
        assert(warnings_view(found@) =~= self@.warnings(*event));
        found
    }
}

} // verus!
