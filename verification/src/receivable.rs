//! The marker for values that processes can exchange.

use vstd::prelude::*;

use crate::supervisor::SupervisorMessage;
use crate::types::Message;
use crate::types::SystemMessage;

verus! {

/// An object that can be sent or received to/from a process.
pub trait Receivable {

}

impl Receivable for Message {

}

impl Receivable for SystemMessage {

}

impl Receivable for SupervisorMessage {

}

} // verus!
