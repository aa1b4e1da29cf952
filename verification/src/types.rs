//! Process identity and the messages processes exchange.

use vstd::prelude::*;
use vstd::string::StringExecFns;

verus! {

/// One step of filtering a sequence prefix: taking one more element keeps
/// it exactly when the predicate holds of it.
pub proof fn lemma_filter_take_step<A>(s: Seq<A>, pred: spec_fn(A) -> bool, i: int)
    requires
        0 <= i < s.len(),
    ensures
        s.take(i + 1).filter(pred) == if pred(s[i]) {
            s.take(i).filter(pred).push(s[i])
        } else {
            s.take(i).filter(pred)
        },
{
    reveal(Seq::filter);
    assert(s.take(i + 1).drop_last() =~= s.take(i));
    assert(s.take(i + 1).last() == s[i]);
}

/// A cluster-unique process identifier: the node it lives on and a
/// node-local serial. A `Pid` is valid for the lifetime of the process it
/// names and is never reused.
#[derive(Clone, Copy, PartialEq, Eq, Structural, Debug, Hash)]
pub struct Pid {
    pub node: u64,
    pub serial: u64,
}

/// A node-local monotonic unique token used to tag monitors. Never reused.
#[derive(Clone, Copy, PartialEq, Eq, Structural, Debug, Hash)]
pub struct Reference {
    pub id: u64,
}

/// Why a process stopped. `Normal` is the quiet exit; `Kill` is the
/// untrappable signal; everything else travels as a named custom reason.
#[derive(Debug)]
pub enum ExitReason {
    Normal,
    Kill,
    Custom(String),
}

impl Clone for ExitReason {
    fn clone(&self) -> (r: Self)
        ensures
            r == *self,
    {
        match self {
            ExitReason::Normal => ExitReason::Normal,
            ExitReason::Kill => ExitReason::Kill,
            ExitReason::Custom(s) => ExitReason::Custom(s.clone()),
        }
    }
}

impl PartialEq for ExitReason {
    fn eq(&self, other: &ExitReason) -> (r: bool) {
        match self {
            ExitReason::Normal => matches!(other, ExitReason::Normal),
            ExitReason::Kill => matches!(other, ExitReason::Kill),
            ExitReason::Custom(a) => match other {
                ExitReason::Custom(b) => a.eq(b),
                _ => false,
            },
        }
    }
}

impl vstd::std_specs::cmp::PartialEqSpecImpl for ExitReason {
    open spec fn obeys_eq_spec() -> bool {
        true
    }

    open spec fn eq_spec(&self, other: &ExitReason) -> bool {
        match self {
            ExitReason::Normal => other is Normal,
            ExitReason::Kill => other is Kill,
            ExitReason::Custom(a) => match other {
                ExitReason::Custom(b) => a@ == b@,
                _ => false,
            },
        }
    }
}

impl ExitReason {
    /// True only of `Normal`.
    pub open spec fn spec_is_normal(&self) -> bool {
        self is Normal
    }

    /// True only of `Kill`.
    pub open spec fn spec_is_kill(&self) -> bool {
        self is Kill
    }

    /// True of a custom reason whose text is exactly `s`.
    pub open spec fn spec_is_custom(&self, s: Seq<char>) -> bool {
        match self {
            ExitReason::Custom(c) => c@ == s,
            _ => false,
        }
    }

    /// True of the custom reason `"shutdown"`.
    pub open spec fn spec_is_shutdown(&self) -> bool {
        self.spec_is_custom("shutdown"@)
    }

    /// True of the custom reason `"ignore"`, the start-thunk opt-out.
    pub open spec fn spec_is_ignore(&self) -> bool {
        self.spec_is_custom("ignore"@)
    }

    pub fn is_normal(&self) -> (r: bool)
        ensures
            r == self.spec_is_normal(),
    {
        matches!(self, ExitReason::Normal)
    }

    pub fn is_kill(&self) -> (r: bool)
        ensures
            r == self.spec_is_kill(),
    {
        matches!(self, ExitReason::Kill)
    }

    /// Whether this reason is the literal custom reason `s`.
    pub fn is_custom(&self, s: &str) -> (r: bool)
        ensures
            r == self.spec_is_custom(s@),
    {
        match self {
            ExitReason::Custom(c) => {
                let other = String::from_str(s);
                c.eq(&other)
            },
            _ => false,
        }
    }

    pub fn is_shutdown(&self) -> (r: bool)
        ensures
            r == self.spec_is_shutdown(),
    {
        self.is_custom("shutdown")
    }

    pub fn is_ignore(&self) -> (r: bool)
        ensures
            r == self.spec_is_ignore(),
    {
        self.is_custom("ignore")
    }

    /// Builds a custom reason from its text.
    pub fn custom(s: &str) -> (r: ExitReason)
        ensures
            r.spec_is_custom(s@),
            r is Custom,
    {
        ExitReason::Custom(String::from_str(s))
    }

    /// The reason a supervisor stops itself with: `"shutdown"`.
    pub fn shutdown_reason() -> (r: ExitReason)
        ensures
            r.spec_is_shutdown(),
    {
        ExitReason::custom("shutdown")
    }
}

/// A runtime-generated message: an exit signal converted by trap-exit, or a
/// monitor firing.
#[derive(Debug)]
pub enum SystemMessage {
    /// `Exit(from, reason)`: the linked process `from` stopped with `reason`.
    Exit(Pid, ExitReason),
    /// `ProcessDown(subject, reference, reason)`: the monitor tagged
    /// `reference` saw `subject` stop with `reason`.
    ProcessDown(Pid, Reference, ExitReason),
}

impl Clone for SystemMessage {
    fn clone(&self) -> (r: Self)
        ensures
            r == *self,
    {
        match self {
            SystemMessage::Exit(p, why) => SystemMessage::Exit(*p, why.clone()),
            SystemMessage::ProcessDown(p, tag, why) => SystemMessage::ProcessDown(
                *p,
                *tag,
                why.clone(),
            ),
        }
    }
}

/// One mailbox entry. User payloads are carried as opaque tokens: their
/// serialization is a byte-exact codec outside the runtime's rules.
#[derive(Debug)]
pub enum Message {
    User(u64),
    System(SystemMessage),
}

impl Clone for Message {
    fn clone(&self) -> (r: Self)
        ensures
            r == *self,
    {
        match self {
            Message::User(t) => Message::User(*t),
            Message::System(m) => Message::System(m.clone()),
        }
    }
}

impl Message {
    /// True of a `System(Exit(from, _))` entry for this `from`.
    pub open spec fn spec_is_exit_from(&self, from: Pid) -> bool {
        match self {
            Message::System(SystemMessage::Exit(p, _)) => *p == from,
            _ => false,
        }
    }

    /// True of a `System(ProcessDown(_, r, _))` entry tagged `r`.
    pub open spec fn spec_is_down_with(&self, r: Reference) -> bool {
        match self {
            Message::System(SystemMessage::ProcessDown(_, tag, _)) => *tag == r,
            _ => false,
        }
    }
}

} // verus!
