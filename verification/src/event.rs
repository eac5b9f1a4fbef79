//! Keys, timestamps and input events, as plain values.
//!
//! An event is what the kernel's input layer delivers: a timestamp, a code
//! that says what the event is about, and an integer value. For a key the
//! value says whether it was released, pressed or is repeating.
use vstd::prelude::*;

verus! {

/// A key of the keyboard, by the number the kernel's input layer gives it.
pub type KeyCode = u16;

/// The code of the synchronization event that ends a batch of events.
pub const SYN_REPORT: u16 = 0;

/// The time at which an event occurred.
#[derive(Clone, Copy, Debug, PartialEq, Eq, Hash, Structural)]
pub struct TimeVal {
    pub tv_sec: i64,
    pub tv_usec: i64,
}

impl TimeVal {
    /// A timestamp of `tv_sec` seconds and `tv_usec` microseconds, stored as given.
    pub fn new(tv_sec: i64, tv_usec: i64) -> (t: TimeVal)
        ensures
            t == (TimeVal { tv_sec, tv_usec }),
    {
        TimeVal { tv_sec, tv_usec }
    }
}

/// What an event is about.
#[derive(Clone, Copy, Debug, PartialEq, Eq, Hash, Structural)]
pub enum EventCode {
    /// A synchronization marker, with its code.
    Syn(u16),
    /// A key of the keyboard.
    Key(KeyCode),
    /// Anything else, by its raw type and code.
    Other { event_type: u32, event_code: u32 },
}

/// One event of an input device.
#[derive(Clone, Copy, Debug, PartialEq, Eq, Hash, Structural)]
pub struct InputEvent {
    pub time: TimeVal,
    pub event_code: EventCode,
    pub value: i32,
}

impl InputEvent {
    /// The event with the given time, code and value.
    pub fn new(time: &TimeVal, code: &EventCode, value: i32) -> (e: InputEvent)
        ensures
            e == (InputEvent { time: *time, event_code: *code, value }),
    {
        InputEvent { time: *time, event_code: *code, value }
    }
}

/// The kind of a key event, as the kernel encodes it in the event's value.
#[derive(Clone, Copy, Debug, PartialEq, Eq, Structural)]
pub enum KeyEventType {
    Release,
    Press,
    Repeat,
    Unknown(i32),
}

impl KeyEventType {
    /// The kind that `value` encodes: 0 is a release, 1 a press, 2 a repeat.
    pub open spec fn spec_from_value(value: i32) -> KeyEventType {
        if value == 0 {
            KeyEventType::Release
        } else if value == 1 {
            KeyEventType::Press
        } else if value == 2 {
            KeyEventType::Repeat
        } else {
            KeyEventType::Unknown(value)
        }
    }

    /// The value that encodes this kind.
    pub open spec fn spec_value(self) -> i32 {
        match self {
            KeyEventType::Release => 0,
            KeyEventType::Press => 1,
            KeyEventType::Repeat => 2,
            KeyEventType::Unknown(n) => n,
        }
    }

    /// Decodes the value of a key event.
    pub fn from_value(value: i32) -> (t: KeyEventType)
        ensures
            t == KeyEventType::spec_from_value(value),
    {
        match value {
            0 => KeyEventType::Release,
            1 => KeyEventType::Press,
            2 => KeyEventType::Repeat,
            _ => KeyEventType::Unknown(value),
        }
    }

    /// Encodes this kind as the value of a key event.
    pub fn value(&self) -> (v: i32)
        ensures
            v == self.spec_value(),
    {
        match self {
            KeyEventType::Release => 0,
            KeyEventType::Press => 1,
            KeyEventType::Repeat => 2,
            KeyEventType::Unknown(n) => *n,
        }
    }
}

/// The synchronization event that ends a batch emitted at `time`.
pub open spec fn sync_event(time: TimeVal) -> InputEvent {
    InputEvent { time, event_code: EventCode::Syn(SYN_REPORT), value: 0 }
}

/// The event that says that `key` did `event_type` at `time`.
pub open spec fn key_event(key: KeyCode, time: TimeVal, event_type: KeyEventType) -> InputEvent {
    InputEvent { time, event_code: EventCode::Key(key), value: event_type.spec_value() }
}

/// One event of kind `event_type` for each of `keys`, in their order.
pub open spec fn key_events(keys: Seq<KeyCode>, time: TimeVal, event_type: KeyEventType) -> Seq<
    InputEvent,
> {
    Seq::new(keys.len(), |i: int| key_event(keys[i], time, event_type))
}

pub fn make_sync_event(time: &TimeVal) -> (e: InputEvent)
    ensures
        e == sync_event(*time),
{
    InputEvent::new(time, &EventCode::Syn(SYN_REPORT), 0)
}

pub fn make_event(key: KeyCode, time: &TimeVal, event_type: KeyEventType) -> (e: InputEvent)
    ensures
        e == key_event(key, *time, event_type),
{
    InputEvent::new(time, &EventCode::Key(key), event_type.value())
}

/// Appends to `out` one event of kind `event_type` for each of `keys`.
pub fn push_key_events(
    out: &mut Vec<InputEvent>,
    keys: &Vec<KeyCode>,
    time: &TimeVal,
    event_type: KeyEventType,
)
    ensures
        final(out)@ == old(out)@ + key_events(keys@, *time, event_type),
{
    let mut i: usize = 0;
    while i < keys.len()
        invariant
            i <= keys.len(),
            out@ == old(out)@ + key_events(keys@.take(i as int), *time, event_type),
        decreases keys.len() - i,
    {
        out.push(make_event(keys[i], time, event_type));
        i = i + 1;
    }
    assert(keys@.take(keys.len() as int) =~= keys@);
}

/// The law of the two codings: decoding what `value` encodes gives the same kind back only
/// up to the three known kinds, while encoding what was decoded always gives `value` back.
pub proof fn lemma_value_round_trip(value: i32)
    ensures
        KeyEventType::spec_from_value(value).spec_value() == value,
{
}

} // verus!
