//! Declarative child specifications and the supervised-child slot.

use vstd::prelude::*;
use vstd::string::StringExecFns;

use crate::types::Pid;

verus! {

/// When a supervisor restarts a stopped child.
#[derive(Clone, Copy, PartialEq, Eq, Structural, Debug)]
pub enum Restart {
    /// Always restarted.
    Permanent,
    /// Restarted only after an abnormal exit.
    Transient,
    /// Never restarted.
    Temporary,
}

/// What the supervisor declares the child to be; it decides the default
/// shutdown policy.
#[derive(Clone, Copy, PartialEq, Eq, Structural, Debug)]
pub enum ChildType {
    Worker,
    Supervisor,
}

/// How a child is terminated. Durations are in milliseconds.
#[derive(Clone, Copy, PartialEq, Eq, Structural, Debug)]
pub enum Shutdown {
    /// Kill outright and wait for the monitor to fire.
    BrutalKill,
    /// Ask politely, wait this many milliseconds, then kill.
    Duration(u64),
    /// Ask politely and wait forever.
    Infinity,
}

/// When the loss of a significant child shuts the whole supervisor down.
#[derive(Clone, Copy, PartialEq, Eq, Structural, Debug)]
pub enum AutoShutdown {
    /// A significant child stopping never stops the supervisor.
    Never,
    /// Any significant child stopping stops the supervisor.
    AnySignificant,
    /// The last live significant child stopping stops the supervisor.
    AllSignificant,
}

/// The default graceful window for a worker, in milliseconds.
pub const WORKER_SHUTDOWN_MS: u64 = 5000;

/// An immutable child declaration. The start thunk itself runs outside the
/// engine; the engine is handed its outcome.
#[derive(Debug)]
pub struct ChildSpec {
    /// Unique within its supervisor.
    pub id: String,
    pub restart: Restart,
    /// `None` means the default for `child_type`.
    pub shutdown: Option<Shutdown>,
    pub child_type: ChildType,
    pub significant: bool,
}

impl Clone for ChildSpec {
    fn clone(&self) -> (r: Self)
        ensures
            r == *self,
    {
        ChildSpec {
            id: self.id.clone(),
            restart: self.restart,
            shutdown: self.shutdown,
            child_type: self.child_type,
            significant: self.significant,
        }
    }
}

impl ChildSpec {
    /// A permanent worker with the default shutdown policy.
    pub fn new(id: &str) -> (r: ChildSpec)
        ensures
            r.id@ == id@,
            r.restart == Restart::Permanent,
            r.shutdown is None,
            r.child_type == ChildType::Worker,
            !r.significant,
    {
        ChildSpec {
            id: String::from_str(id),
            restart: Restart::Permanent,
            shutdown: None,
            child_type: ChildType::Worker,
            significant: false,
        }
    }

    pub fn restart(self, restart: Restart) -> (r: ChildSpec)
        ensures
            r == (ChildSpec { restart, ..self }),
    {
        ChildSpec { restart, ..self }
    }

    pub fn shutdown(self, shutdown: Shutdown) -> (r: ChildSpec)
        ensures
            r == (ChildSpec { shutdown: Some(shutdown), ..self }),
    {
        ChildSpec { shutdown: Some(shutdown), ..self }
    }

    pub fn child_type(self, child_type: ChildType) -> (r: ChildSpec)
        ensures
            r == (ChildSpec { child_type, ..self }),
    {
        ChildSpec { child_type, ..self }
    }

    pub fn significant(self, significant: bool) -> (r: ChildSpec)
        ensures
            r == (ChildSpec { significant, ..self }),
    {
        ChildSpec { significant, ..self }
    }
}

/// A child slot inside a supervisor: the declaration plus the live pid,
/// `Some` while the child is known running, `None` after removal or while a
/// restart is pending.
#[derive(Debug)]
pub struct SupervisedChild {
    pub spec: ChildSpec,
    pub pid: Option<Pid>,
}

impl Clone for SupervisedChild {
    fn clone(&self) -> (r: Self)
        ensures
            r == *self,
    {
        SupervisedChild { spec: self.spec.clone(), pid: self.pid }
    }
}

impl SupervisedChild {
    /// The effective shutdown policy: the declared one, else the default of
    /// the child's type (5 s for a worker, infinity for a supervisor).
    pub open spec fn spec_shutdown(&self) -> Shutdown {
        match self.spec.shutdown {
            Some(s) => s,
            None => match self.spec.child_type {
                ChildType::Worker => Shutdown::Duration(WORKER_SHUTDOWN_MS as u64),
                ChildType::Supervisor => Shutdown::Infinity,
            },
        }
    }

    /// Returns `true` if the child is a permanent process.
    pub fn is_permanent(&self) -> (r: bool)
        ensures
            r == (self.spec.restart == Restart::Permanent),
    {
        matches!(self.spec.restart, Restart::Permanent)
    }

    /// Returns `true` if the child is a transient process.
    pub fn is_transient(&self) -> (r: bool)
        ensures
            r == (self.spec.restart == Restart::Transient),
    {
        matches!(self.spec.restart, Restart::Transient)
    }

    /// Returns `true` if the child is a temporary process.
    pub fn is_temporary(&self) -> (r: bool)
        ensures
            r == (self.spec.restart == Restart::Temporary),
    {
        matches!(self.spec.restart, Restart::Temporary)
    }

    /// Returns the unique id of the child.
    pub fn id(&self) -> (r: String)
        ensures
            r@ == self.spec.id@,
    {
        self.spec.id.clone()
    }

    /// Returns how the child should be terminated.
    pub fn shutdown(&self) -> (r: Shutdown)
        ensures
            r == self.spec_shutdown(),
    {
        match self.spec.shutdown {
            None => match self.spec.child_type {
                ChildType::Worker => Shutdown::Duration(WORKER_SHUTDOWN_MS),
                ChildType::Supervisor => Shutdown::Infinity,
            },
            Some(shutdown) => shutdown,
        }
    }
}

} // verus!
