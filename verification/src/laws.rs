//! What holds of every run of the abstract machine.
//!
//! The laws are stated over the specification functions of [`crate::model`].
//! The executable machine computes exactly what those functions say, so each
//! law holds of it as well.
//!
//! * [`maps`]: the two maps of held keys stay sound and inverse.
//! * [`guards`]: the bits of the guards tell which keys are held.
//! * [`balance`]: presses and releases of a virtual key balance.
//! * [`batch`]: the shape of what one event emits.
//! * [`compiled`]: compiling rules has one result.
//! * [`plain`]: a machine without rules changes nothing.
//! * [`release`]: a physical release produces the matching virtual releases.
//! * [`targets`]: the machine emits no key out of the blue.
//! * [`steps`]: the folds of the model on lists of one or no element.
pub mod balance;
pub mod batch;
pub mod compiled;
pub mod guards;
pub mod maps;
pub mod plain;
pub mod release;
pub mod steps;
pub mod targets;
