//! What the mapper loop decides.
//!
//! The loop itself reads from one device and writes to another, which is the
//! caller's business. What it has to decide is here: which keys the virtual
//! device must be able to emit, and what to do with the outcome of a read.
use vstd::prelude::*;
use vstd::string::StringExecFns;
use crate::event::{InputEvent, KeyCode};
use crate::mapping::{Mapping, remaps_view};
use crate::model::Remap;
use crate::state_machine::StateMachine;
use crate::warning::{Warning, warnings_view};

verus! {

/// The virtual keys that the rules can emit besides the keys that come in: every key of
/// every entry's list, rule by rule and entry by entry.
pub open spec fn output_keys_of(rules: Seq<Mapping>) -> Seq<KeyCode>
    decreases rules.len(),
{
    if rules.len() == 0 {
        seq![]
    } else {
        output_keys_of(rules.drop_last()) + table_keys(rules.last()@.mappings)
    }
}

/// Every key of every list of `table`, entry by entry.
pub open spec fn table_keys(table: Seq<Remap>) -> Seq<KeyCode>
    decreases table.len(),
{
    if table.len() == 0 {
        seq![]
    } else {
        table_keys(table.drop_last()) + table.last().1
    }
}

/// The keys that a virtual device has to support so that it can emit what `rules` ask
/// for.
pub fn output_keys(rules: &[Mapping]) -> (keys: Vec<KeyCode>)
    ensures
        keys@ == output_keys_of(rules@),
{
    let mut keys: Vec<KeyCode> = Vec::new();
    let mut r: usize = 0;
    while r < rules.len()
        invariant
            r <= rules.len(),
            keys@ == output_keys_of(rules@.take(r as int)),
        decreases rules.len() - r,
    {
        assert(rules@.take(r + 1).drop_last() =~= rules@.take(r as int));
        match &rules[r] {
            Mapping::Remap { mappings, .. } => {
                let ghost before = keys@;
                let mut e: usize = 0;
                while e < mappings.len()
                    invariant
                        e <= mappings.len(),
                        keys@ == before + table_keys(remaps_view(mappings@).take(e as int)),
                    decreases mappings.len() - e,
                {
                    let ghost at_entry = keys@;
                    let list = &mappings[e].1;
                    let mut i: usize = 0;
                    while i < list.len()
                        invariant
                            i <= list.len(),
                            keys@ == at_entry + list@.take(i as int),
                        decreases list.len() - i,
                    {
                        keys.push(list[i]);
                        assert(list@.take(i + 1) =~= list@.take(i as int).push(list@[i as int]));
                        i = i + 1;
                    }
                    proof {
                        let table = remaps_view(mappings@);
                        assert(list@.take(list.len() as int) =~= list@);
                        assert(table.take(e + 1).drop_last() =~= table.take(e as int));
                        assert(table.take(e + 1).last().1 == list@);
                        assert(keys@ =~= before + table_keys(table.take(e + 1)));
                    }
                    e = e + 1;
                }
                proof {
                    let table = remaps_view(mappings@);
                    assert(table.take(mappings.len() as int) =~= table);
                }
            },
        }
        r = r + 1;
    }
    assert(rules@.take(rules.len() as int) =~= rules@);
    keys
}

/// How reading the next event from the input device ended.
#[derive(Clone, Copy, Debug, PartialEq, Eq, Structural)]
pub enum ReadStatus {
    /// An event was read.
    Success,
    /// The device has dropped events and asks the reader to synchronize.
    Sync,
}

/// Why the mapper loop ends.
#[derive(Clone, Copy, Debug, PartialEq, Eq, Structural)]
pub enum MapperError {
    /// The input device lost events. The held keys are not known any more, and the
    /// loop does not try to find out.
    SyncLoss,
}

impl MapperError {
    /// The text that tells the user of the error.
    pub open spec fn spec_message(&self) -> Seq<char> {
        "ReadStatus::Sync!"@
    }

    /// The text that tells the user of the error.
    pub fn message(&self) -> (text: String)
        ensures
            text@ == self.spec_message(),
    {
        String::from_str("ReadStatus::Sync!")
    }
}

/// One turn of the mapper loop: what to write to the virtual device after a read from
/// the input device, and what to tell the user. An event that was read goes through the
/// machine. A loss of events ends the loop and leaves the machine as it is.
pub fn turn(machine: &mut StateMachine, status: ReadStatus, event: &InputEvent) -> (r: Result<
    (Vec<InputEvent>, Vec<Warning>),
    MapperError,
>)
    requires
        old(machine).inv(),
    ensures
        final(machine).inv(),
        match status {
            ReadStatus::Success => {
                &&& r is Ok
                &&& (final(machine)@, r.unwrap().0@) == old(machine)@.send(*event)
                &&& warnings_view(r.unwrap().1@) == old(machine)@.warnings(*event)
            },
            ReadStatus::Sync => {
                &&& r is Err
                &&& r.unwrap_err() == MapperError::SyncLoss
                &&& final(machine)@ == old(machine)@
            },
        },
{
    match status {
        ReadStatus::Success => {
            let warnings = machine.warnings(event);
            let events = machine.send(event);
            Ok((events, warnings))
        },
        ReadStatus::Sync => Err(MapperError::SyncLoss),
    }
}

} // verus!
