//! A minimal actor interface: a handler consumes update messages one at a
//! time and produces an outcome for each.
use vstd::prelude::*;

verus! {

/// Something that handles update messages, producing an outcome for each.
pub trait Actor {
    /// The messages the actor handles.
    type UpdateMsg;

    /// What handling one message produces.
    type Outcome;

    /// Handles one message.
    fn handle(&mut self, msg: Self::UpdateMsg) -> Self::Outcome;
}

} // verus!
