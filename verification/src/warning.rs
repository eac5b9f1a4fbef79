//! What is worth telling the user about an event.
//!
//! None of these conditions stops the machine. They are handed to the caller,
//! who may log them.
use vstd::prelude::*;
use crate::event::KeyCode;

verus! {

/// A condition that an event has met.
#[derive(Debug, PartialEq, Eq)]
pub enum Warning {
    /// The event of a key has a value that is neither release, press nor repeat.
    UnknownEventType { value: i32, key: KeyCode },
    /// A key repeats that is not held.
    UnpressedRepeat(KeyCode),
    /// A key is released that is not held.
    UnpressedRelease(KeyCode),
    /// A key is pressed that is held already, and is released first.
    DoublePress(KeyCode),
    /// Two entries of rules that fire together remap one key. The first one is kept,
    /// the other is ignored.
    AmbiguousRules { src: KeyCode, kept: Vec<KeyCode>, ignored: Vec<KeyCode> },
}

/// A condition that an event has met, as a plain value.
pub enum WarningView {
    UnknownEventType { value: i32, key: KeyCode },
    UnpressedRepeat(KeyCode),
    UnpressedRelease(KeyCode),
    DoublePress(KeyCode),
    AmbiguousRules { src: KeyCode, kept: Seq<KeyCode>, ignored: Seq<KeyCode> },
}

impl View for Warning {
    type V = WarningView;

    open spec fn view(&self) -> WarningView {
        match self {
            Warning::UnknownEventType { value, key } => WarningView::UnknownEventType {
                value: *value,
                key: *key,
            },
            Warning::UnpressedRepeat(key) => WarningView::UnpressedRepeat(*key),
            Warning::UnpressedRelease(key) => WarningView::UnpressedRelease(*key),
            Warning::DoublePress(key) => WarningView::DoublePress(*key),
            Warning::AmbiguousRules { src, kept, ignored } => WarningView::AmbiguousRules {
                src: *src,
                kept: kept@,
                ignored: ignored@,
            },
        }
    }
}

/// The conditions of `warnings` as plain values.
pub open spec fn warnings_view(warnings: Seq<Warning>) -> Seq<WarningView> {
    Seq::new(warnings.len(), |i: int| warnings[i]@)
}

} // verus!
