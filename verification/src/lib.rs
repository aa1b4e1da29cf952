//! An actor-runtime core in the Erlang/OTP style: process identity,
//! link/monitor exit signalling, a graceful-then-brutal shutdown protocol,
//! and a supervision engine that restarts children under declared policies.
//!
//! The runtime model is synchronous: signal delivery and termination
//! propagation happen at the point a signal is raised, so every rule of the
//! signalling model is stated and proved as a contract.

pub mod child;
pub mod kernel;
pub mod receivable;
pub mod session;
pub mod shutdown;
pub mod supervisor;
pub mod types;

pub use child::AutoShutdown;
pub use child::ChildSpec;
pub use child::ChildType;
pub use child::Restart;
pub use child::Shutdown;
pub use child::SupervisedChild;
pub use types::ExitReason;
pub use types::Message;
pub use types::Pid;
pub use types::Reference;
pub use types::SystemMessage;

use vstd::prelude::*;

verus! {

} // verus!
