//! The remap state machine of a keyboard remapper for Linux input devices.
//!
//! The machine turns a stream of key events into another stream of key
//! events. Its rules are context sensitive: what a key does depends on which
//! other keys are held at the moment it is pressed. Everything here is
//! verified; reading and writing devices is left to the caller.
//!
//! * [`event`]: keys, timestamps and input events as plain values.
//! * [`cond_bits`]: the bitmap that counts the unsatisfied literals of a guard.
//! * [`mapping`]: the rules a user declares, and how a configuration is
//!   turned into them.
//! * [`model`]: the abstract machine, as specification functions.
//! * [`state_machine`]: the executable machine, proved to follow the model.
//! * [`remapper`]: what the loop around the machine decides.
//! * [`warning`]: the conditions of an event that are worth telling the user.
//! * [`laws`]: what holds of every run of the abstract machine.
pub mod cond_bits;
pub mod event;
pub mod laws;
pub mod mapping;
pub mod model;
pub mod remapper;
pub mod state_machine;
pub mod util;
pub mod warning;
