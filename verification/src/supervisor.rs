//! The supervision engine: a state machine that keeps a fixed set of child
//! processes alive under declared restart policies, bounded by a
//! restart-intensity quota.
//!
//! Child start thunks and the passage of time live outside the engine: the
//! caller runs a thunk and hands its [`StartOutcome`] back, and passes the
//! current time (in milliseconds) where the quota needs it. Every decision
//! the engine takes is stated in its contract.

use vstd::prelude::*;
use vstd::seq_lib::group_seq_properties;

use crate::child::AutoShutdown;
use crate::child::ChildSpec;
use crate::child::Restart;
use crate::child::SupervisedChild;
use crate::kernel::Kernel;
use crate::shutdown::shutdown;
use crate::types::lemma_filter_take_step;
use crate::types::ExitReason;
use crate::types::Message;
use crate::types::Pid;
use crate::types::SystemMessage;

verus! {

broadcast use group_seq_properties;

/// A message a supervisor posts to itself to retry a failed restart on the
/// next scheduler turn.
#[derive(Clone, Debug)]
pub enum SupervisorMessage {
    TryAgainRestartPid(Pid),
    TryAgainRestartId(String),
}

/// The supervision strategy to use for each child.
#[derive(Clone, Copy, PartialEq, Eq, Structural, Debug)]
pub enum SupervisionStrategy {
    /// If a child process terminates, only that process is restarted.
    OneForOne,
    /// If a child process terminates, all other child processes are
    /// terminated and then all child processes are restarted.
    OneForAll,
    /// If a child process terminates, the terminated child process and the
    /// rest of the children started after it are terminated and restarted.
    RestForOne,
}

/// What a child's start thunk reported.
#[derive(Clone, Debug)]
pub enum StartOutcome {
    /// The thunk produced a running process.
    Started(Pid),
    /// The thunk failed; the reason `"ignore"` is the opt-out, every other
    /// reason is a start error.
    Failed(ExitReason),
}

/// What the supervisor must do after a child exit was processed.
#[derive(Clone, Debug)]
pub enum ExitAction {
    /// The pid is not one of ours: ignore the signal.
    NotFound,
    /// The child was removed cleanly; carry on.
    Continue,
    /// The supervisor itself must stop with this reason.
    Stop(ExitReason),
    /// Run the restart strategy for the child at this index.
    RunRestart(usize),
}

/// A supervisor is a process which supervises other processes, which we
/// refer to as child processes. Supervisors are used to build a
/// hierarchical process structure called a supervision tree, the way
/// applications start and shut down.
#[derive(Clone, Debug)]
pub struct Supervisor {
    pub children: Vec<SupervisedChild>,
    /// Times (ms) of the restarts still inside the quota window.
    pub restarts: Vec<u64>,
    pub strategy: SupervisionStrategy,
    pub auto_shutdown: AutoShutdown,
    pub max_restarts: usize,
    pub max_duration: u64,
}

/// The oldest restart time still inside the window ending at `now`.
pub open spec fn spec_window_start(now: u64, max_duration: u64) -> u64 {
    if now >= max_duration {
        (now - max_duration) as u64
    } else {
        0
    }
}

/// Keeps the restart times still inside the window ending at `now`.
pub open spec fn spec_window_pred(now: u64, max_duration: u64) -> spec_fn(u64) -> bool {
    |t: u64| t >= spec_window_start(now, max_duration)
}

/// The restart backlog after recording a restart at `now`: entries older
/// than the window are discarded, then `now` is appended.
pub open spec fn spec_add_restart(restarts: Seq<u64>, now: u64, max_duration: u64) -> Seq<u64> {
    restarts.filter(spec_window_pred(now, max_duration)).push(now)
}

/// Keeps the children that stay after start-up: everything but a temporary
/// child whose slot is empty.
pub open spec fn spec_keep_child() -> spec_fn(SupervisedChild) -> bool {
    |c: SupervisedChild| !(c.spec.restart == Restart::Temporary && c.pid is None)
}

/// The first child slot holding `pid`; meaningful only when one exists.
pub open spec fn spec_first_with_pid(s: Seq<SupervisedChild>, pid: Pid) -> int {
    choose|i: int|
        0 <= i < s.len() && s[i].pid == Some(pid) && (forall|j: int|
            0 <= j < i ==> s[j].pid != Some(pid))
}

/// The full effect of processing an exit signal `Exit(pid, reason)` at time
/// `now`, relating the supervisor state before (`pre`) and after (`post`)
/// and the action `r` handed back:
/// an unknown pid changes nothing; a permanent child, or a transient child
/// that stopped abnormally, charges the quota and is restarted unless the
/// quota trips, which stops the supervisor with `"shutdown"`; every other
/// exit removes the child and asks the auto-shutdown rule whether the
/// supervisor follows it down.
pub open spec fn spec_exit_transition(
    pre: Supervisor,
    post: Supervisor,
    pid: Pid,
    reason: ExitReason,
    now: u64,
    r: ExitAction,
) -> bool {
    &&& post.strategy == pre.strategy
    &&& post.auto_shutdown == pre.auto_shutdown
    &&& post.max_restarts == pre.max_restarts
    &&& post.max_duration == pre.max_duration
    &&& (!pre.spec_has_pid(pid) ==> r == ExitAction::NotFound && post == pre)
    &&& (pre.spec_has_pid(pid) ==> {
        let i = spec_first_with_pid(pre.children@, pid);
        let c = pre.children@[i];
        let restarting = c.spec.restart == Restart::Permanent || (c.spec.restart
            == Restart::Transient && !(reason.spec_is_normal() || reason.spec_is_shutdown()));
        if restarting {
            &&& post.children@ == pre.children@
            &&& post.restarts@ == spec_add_restart(pre.restarts@, now, pre.max_duration)
            &&& if post.restarts@.len() > pre.max_restarts {
                r matches ExitAction::Stop(why) && why.spec_is_shutdown()
            } else {
                r == ExitAction::RunRestart(i as usize)
            }
        } else {
            &&& post.children@ == pre.children@.remove(i)
            &&& post.restarts@ == pre.restarts@
            &&& if post.spec_auto_shutdown(c) {
                r matches ExitAction::Stop(why) && why.spec_is_shutdown()
            } else {
                r == ExitAction::Continue
            }
        }
    })
}

/// The stop phase of a strategy run terminated its targets: every live
/// child it names is down afterwards — unconditionally under a
/// `BrutalKill` or `Duration` policy, and in every case for a child that
/// does not trap exits. Opaque so that callers reason about it as one
/// fact instead of unfolding the quantifier.
#[verifier::opaque]
pub open spec fn spec_stops_terminated(
    pre: Supervisor,
    pre_k: Kernel,
    post_k: Kernel,
    index: int,
) -> bool {
    forall|jj: int|
        0 <= jj < pre.children@.len() && (#[trigger] pre.children@[jj]).pid is Some && (
        match pre.strategy {
            SupervisionStrategy::OneForOne => false,
            SupervisionStrategy::OneForAll => jj != index,
            SupervisionStrategy::RestForOne => jj > index,
        }) && (!(pre.children@[jj].spec_shutdown() is Infinity) || !pre_k.traps(
            pre.children@[jj].pid.unwrap(),
        )) ==> !post_k.is_alive(pre.children@[jj].pid.unwrap())
}

/// What a restart strategy decides to do: which children to stop, in which
/// order, and which to start again, in which order. Entries are indices
/// into the supervisor's child vector.
#[derive(Clone, Debug)]
pub struct RestartPlan {
    pub stops: Vec<usize>,
    pub starts: Vec<usize>,
}

/// In a strictly decreasing sequence of indices below `n`, the entry at
/// position `l` is at most `n - 1 - l`.
proof fn lemma_decreasing_bound(g: Seq<usize>, n: int, l: int)
    requires
        0 <= l < g.len(),
        forall|l1: int, l2: int| 0 <= l1 < l2 < g.len() ==> g[l1] > g[l2],
        forall|l1: int| 0 <= l1 < g.len() ==> g[l1] < n,
    ensures
        g[l] + l < n,
    decreases l,
{
    if l > 0 {
        lemma_decreasing_bound(g, n, l - 1);
        assert(g[l - 1] > g[l]);
    }
}

proof fn lemma_filter_skip_step<A>(s: Seq<A>, pred: spec_fn(A) -> bool, j: int)
    requires
        0 <= j < s.len(),
    ensures
        s.skip(j).filter(pred) == if pred(s[j]) {
            seq![s[j]] + s.skip(j + 1).filter(pred)
        } else {
            s.skip(j + 1).filter(pred)
        },
{
    assert(s.skip(j) =~= seq![s[j]] + s.skip(j + 1));
    Seq::filter_distributes_over_add(seq![s[j]], s.skip(j + 1), pred);
    reveal_with_fuel(Seq::filter, 2);
    assert(seq![s[j]].drop_last() =~= Seq::<A>::empty());
    if pred(s[j]) {
        assert(seq![s[j]].filter(pred) =~= Seq::<A>::empty().push(s[j]));
        assert(s.skip(j).filter(pred) =~= seq![s[j]] + s.skip(j + 1).filter(pred));
    } else {
        assert(seq![s[j]].filter(pred) =~= Seq::<A>::empty());
        assert(s.skip(j).filter(pred) =~= s.skip(j + 1).filter(pred));
    }
}

impl Supervisor {
    /// No two children share an id.
    pub open spec fn ids_unique(self) -> bool {
        forall|i: int, j: int|
            0 <= i < self.children@.len() && 0 <= j < self.children@.len() && i != j
                ==> self.children@[i].spec.id@ != self.children@[j].spec.id@
    }

    /// Some child carries the id `id`.
    pub open spec fn spec_has_id(self, id: Seq<char>) -> bool {
        exists|i: int| 0 <= i < self.children@.len() && self.children@[i].spec.id@ == id
    }

    /// Some child slot is live with pid `pid`.
    pub open spec fn spec_has_pid(self, pid: Pid) -> bool {
        exists|i: int| 0 <= i < self.children@.len() && self.children@[i].pid == Some(pid)
    }

    /// The auto-shutdown rule of the specification: the supervisor stops
    /// itself iff the mode is `AnySignificant` and the removed child was
    /// significant, or the mode is `AllSignificant`, the removed child was
    /// significant, and no live significant child remains.
    pub open spec fn spec_auto_shutdown(self, child: SupervisedChild) -> bool {
        match self.auto_shutdown {
            AutoShutdown::Never => false,
            AutoShutdown::AnySignificant => child.spec.significant,
            AutoShutdown::AllSignificant => child.spec.significant && !(exists|i: int|
                0 <= i < self.children@.len() && self.children@[i].pid is Some
                    && self.children@[i].spec.significant),
        }
    }

    /// Constructs a new instance of [`Supervisor`] with no children.
    pub fn new() -> (r: Supervisor)
        ensures
            r.children@ =~= Seq::<SupervisedChild>::empty(),
            r.restarts@ =~= Seq::<u64>::empty(),
            r.strategy == SupervisionStrategy::OneForOne,
            r.auto_shutdown == AutoShutdown::Never,
            r.max_restarts == 3,
            r.max_duration == 5000,
            r.ids_unique(),
    {
        Supervisor {
            children: Vec::new(),
            restarts: Vec::new(),
            strategy: SupervisionStrategy::OneForOne,
            auto_shutdown: AutoShutdown::Never,
            max_restarts: 3,
            max_duration: 5000,
        }
    }

    /// Constructs a new instance of [`Supervisor`] with the given children.
    pub fn with_children(children: Vec<ChildSpec>) -> (r: Supervisor)
        requires
            forall|i: int, j: int|
                0 <= i < children@.len() && 0 <= j < children@.len() && i != j
                    ==> children@[i].id@ != children@[j].id@,
        ensures
            r.children@.len() == children@.len(),
            forall|i: int|
                0 <= i < children@.len()
                    ==> r.children@[i] == (SupervisedChild { spec: children@[i], pid: None }),
            r.restarts@ =~= Seq::<u64>::empty(),
            r.strategy == SupervisionStrategy::OneForOne,
            r.auto_shutdown == AutoShutdown::Never,
            r.max_restarts == 3,
            r.max_duration == 5000,
            r.ids_unique(),
    {
        let mut result = Self::new();
        let mut children = children;
        let ghost specs = children@;
        let ghost n = specs.len();

        while children.len() > 0
            invariant
                children@ =~= specs.skip(n - children@.len()),
                children@.len() <= n,
                n == specs.len(),
                result.children@.len() == n - children@.len(),
                forall|k: int|
                    0 <= k < n - children@.len() ==> result.children@[k] == (SupervisedChild {
                        spec: specs[k],
                        pid: None,
                    }),
                forall|a: int, b: int|
                    0 <= a < specs.len() && 0 <= b < specs.len() && a != b
                        ==> specs[a].id@ != specs[b].id@,
                result.restarts@ =~= Seq::<u64>::empty(),
                result.strategy == SupervisionStrategy::OneForOne,
                result.auto_shutdown == AutoShutdown::Never,
                result.max_restarts == 3,
                result.max_duration == 5000,
            decreases children@.len(),
        {
            let ghost i = n - children@.len();
            let child = children.remove(0);
            assert(child == specs[i]);
            assert(!result.spec_has_id(child.id@)) by {
                assert(forall|k: int|
                    0 <= k < i ==> result.children@[k].spec.id@ == specs[k].id@);
            }
            result = result.add_child(child);
        }

        result
    }

    /// Adds a child to this [`Supervisor`]. The id must be new: a repeated
    /// id is a programmer error.
    pub fn add_child(self, child: ChildSpec) -> (r: Supervisor)
        requires
            !self.spec_has_id(child.id@),
        ensures
            r.children@ == self.children@.push(
                SupervisedChild { spec: child, pid: None },
            ),
            r.restarts@ == self.restarts@,
            r.strategy == self.strategy,
            r.auto_shutdown == self.auto_shutdown,
            r.max_restarts == self.max_restarts,
            r.max_duration == self.max_duration,
            self.ids_unique() ==> r.ids_unique(),
    {
        let mut s = self;
        s.children.push(SupervisedChild { spec: child, pid: None });
        s
    }

    /// Sets the supervision strategy for the [`Supervisor`].
    pub fn strategy(self, strategy: SupervisionStrategy) -> (r: Supervisor)
        ensures
            r == (Supervisor { strategy, ..self }),
    {
        Supervisor { strategy, ..self }
    }

    /// Sets the behavior to use when a significant process exits.
    pub fn auto_shutdown(self, auto_shutdown: AutoShutdown) -> (r: Supervisor)
        ensures
            r == (Supervisor { auto_shutdown, ..self }),
    {
        Supervisor { auto_shutdown, ..self }
    }

    /// Sets the maximum number of restarts allowed in a time frame.
    ///
    /// Defaults to 3.
    pub fn max_restarts(self, max_restarts: usize) -> (r: Supervisor)
        ensures
            r == (Supervisor { max_restarts, ..self }),
    {
        Supervisor { max_restarts, ..self }
    }

    /// Sets the time frame in which `max_restarts` applies, in milliseconds.
    ///
    /// Defaults to 5s.
    pub fn max_duration(self, max_duration: u64) -> (r: Supervisor)
        ensures
            r == (Supervisor { max_duration, ..self }),
    {
        Supervisor { max_duration, ..self }
    }

    /// Finds a child by the given `pid`: the first slot holding it.
    pub fn find_child(&self, pid: Pid) -> (r: Option<usize>)
        ensures
            match r {
                Some(i) => i < self.children@.len() && self.children@[i as int].pid == Some(pid)
                    && forall|j: int| 0 <= j < i ==> self.children@[j].pid != Some(pid),
                None => !self.spec_has_pid(pid),
            },
    {
        let mut i: usize = 0;

        while i < self.children.len()
            invariant
                i <= self.children@.len(),
                forall|j: int| 0 <= j < i ==> self.children@[j].pid != Some(pid),
            decreases self.children@.len() - i,
        {
            match &self.children[i].pid {
                Some(cpid) => {
                    if *cpid == pid {
                        return Some(i);
                    }
                },
                None => {},
            }
            i += 1;
        }

        None
    }

    /// Finds a child by the given `id`: the first slot carrying it.
    pub fn find_child_by_id(&self, id: &String) -> (r: Option<usize>)
        ensures
            match r {
                Some(i) => i < self.children@.len() && self.children@[i as int].spec.id@ == id@
                    && forall|j: int| 0 <= j < i ==> self.children@[j].spec.id@ != id@,
                None => !self.spec_has_id(id@),
            },
    {
        let mut i: usize = 0;

        while i < self.children.len()
            invariant
                i <= self.children@.len(),
                forall|j: int| 0 <= j < i ==> self.children@[j].spec.id@ != id@,
            decreases self.children@.len() - i,
        {
            if self.children[i].spec.id.eq(id) {
                return Some(i);
            }
            i += 1;
        }

        None
    }

    /// Removes a child from the supervisor and returns it.
    pub fn remove_child(&mut self, index: usize) -> (r: SupervisedChild)
        requires
            index < old(self).children@.len(),
        ensures
            r == old(self).children@[index as int],
            final(self).children@ == old(self).children@.remove(index as int),
            final(self).restarts@ == old(self).restarts@,
            final(self).strategy == old(self).strategy,
            final(self).auto_shutdown == old(self).auto_shutdown,
            final(self).max_restarts == old(self).max_restarts,
            final(self).max_duration == old(self).max_duration,
            old(self).ids_unique() ==> final(self).ids_unique(),
    {
        self.children.remove(index)
    }

    /// Adds another restart to the backlog and returns `true` if we have
    /// exceeded our quota of restarts: more than `max_restarts` within the
    /// window of `max_duration` milliseconds ending at `now`.
    pub fn add_restart(&mut self, now: u64) -> (r: bool)
        ensures
            final(self).restarts@ == spec_add_restart(
                old(self).restarts@,
                now,
                old(self).max_duration,
            ),
            r == (final(self).restarts@.len() > old(self).max_restarts),
            !r ==> final(self).restarts@.len() <= old(self).max_restarts,
            final(self).children@ == old(self).children@,
            final(self).strategy == old(self).strategy,
            final(self).auto_shutdown == old(self).auto_shutdown,
            final(self).max_restarts == old(self).max_restarts,
            final(self).max_duration == old(self).max_duration,
    {
        let threshold: u64 = if now >= self.max_duration {
            now - self.max_duration
        } else {
            0
        };
        assert(threshold == spec_window_start(now, self.max_duration));
        let ghost pred = spec_window_pred(now, self.max_duration);
        let ghost all = self.restarts@;

        let mut kept: Vec<u64> = Vec::new();
        let mut i: usize = 0;

        proof {
            reveal(Seq::filter);
            assert(all.take(0) =~= Seq::<u64>::empty());
            assert(all.take(0).filter(pred) =~= Seq::<u64>::empty());
        }

        while i < self.restarts.len()
            invariant
                i <= all.len(),
                *self == *old(self),
                all == old(self).restarts@,
                pred == spec_window_pred(now, self.max_duration),
                threshold == spec_window_start(now, self.max_duration),
                kept@ == all.take(i as int).filter(pred),
            decreases all.len() - i,
        {
            let t = self.restarts[i];
            proof {
                lemma_filter_take_step(all, pred, i as int);
                assert(t == all[i as int]);
                assert(pred(t) == (t >= threshold));
            }
            if t >= threshold {
                kept.push(t);
            }
            i += 1;
        }

        proof {
            assert(all.take(all.len() as int) =~= all);
        }

        kept.push(now);
        self.restarts = kept;

        self.restarts.len() > self.max_restarts
    }

    /// Checks whether we should automatically shut down the supervisor
    /// after `child` was removed. Returns `true` if so.
    pub fn check_auto_shutdown(&mut self, child: SupervisedChild) -> (r: bool)
        ensures
            *final(self) == *old(self),
            r == old(self).spec_auto_shutdown(child),
    {
        if matches!(self.auto_shutdown, AutoShutdown::Never) {
            return false;
        }

        if !child.spec.significant {
            return false;
        }

        if matches!(self.auto_shutdown, AutoShutdown::AnySignificant) {
            return true;
        }

        let mut i: usize = 0;

        while i < self.children.len()
            invariant
                i <= self.children@.len(),
                *self == *old(self),
                child.spec.significant,
                self.auto_shutdown == AutoShutdown::AllSignificant,
                forall|j: int|
                    0 <= j < i ==> !(self.children@[j].pid is Some
                        && self.children@[j].spec.significant),
            decreases self.children@.len() - i,
        {
            if self.children[i].pid.is_some() && self.children[i].spec.significant {
                return false;
            }
            i += 1;
        }

        true
    }

    /// Classifies what a start thunk reported: a pid is recorded, the
    /// reason `"ignore"` becomes an empty slot, and any other failure is a
    /// start error handed back to the caller.
    pub fn classify_start(outcome: StartOutcome) -> (r: Result<Option<Pid>, ExitReason>)
        ensures
            match outcome {
                StartOutcome::Started(pid) => r == Ok::<Option<Pid>, ExitReason>(Some(pid)),
                StartOutcome::Failed(reason) => if reason.spec_is_ignore() {
                    r == Ok::<Option<Pid>, ExitReason>(None)
                } else {
                    r == Err::<Option<Pid>, ExitReason>(reason)
                },
            },
    {
        match outcome {
            StartOutcome::Started(pid) => Ok(Some(pid)),
            StartOutcome::Failed(reason) => {
                if reason.is_ignore() {
                    Ok(None)
                } else {
                    Err(reason)
                }
            },
        }
    }

    /// Records the outcome of running the start thunk of the child at
    /// `index` during start-up. A start error becomes the init failure
    /// reason `"failed_to_start_child"`.
    pub fn record_start(&mut self, index: usize, outcome: StartOutcome) -> (r: Result<
        (),
        ExitReason,
    >)
        requires
            index < old(self).children@.len(),
        ensures
            match r {
                Ok(()) => {
                    &&& match outcome {
                        StartOutcome::Started(pid) => final(self).children@
                            == old(self).children@.update(
                            index as int,
                            SupervisedChild {
                                pid: Some(pid),
                                ..old(self).children@[index as int]
                            },
                        ),
                        StartOutcome::Failed(_) => final(self).children@
                            == old(self).children@.update(
                            index as int,
                            SupervisedChild { pid: None, ..old(self).children@[index as int] },
                        ),
                    }
                    &&& final(self).restarts@ == old(self).restarts@
                    &&& final(self).strategy == old(self).strategy
                    &&& final(self).auto_shutdown == old(self).auto_shutdown
                    &&& final(self).max_restarts == old(self).max_restarts
                    &&& final(self).max_duration == old(self).max_duration
                },
                Err(reason) => {
                    &&& reason.spec_is_custom("failed_to_start_child"@)
                    &&& *final(self) == *old(self)
                    &&& (outcome matches StartOutcome::Failed(why) && !why.spec_is_ignore())
                },
            },
            r is Err <==> (outcome matches StartOutcome::Failed(why) && !why.spec_is_ignore()),
    {
        match Self::classify_start(outcome) {
            Ok(pid) => {
                self.children[index].pid = pid;
                Ok(())
            },
            Err(_) => Err(ExitReason::custom("failed_to_start_child")),
        }
    }

    /// Removes the children whose start thunk opted out and that are
    /// temporary: a temporary child that refuses to start has no restart
    /// future. Called once start-up succeeded.
    pub fn prune_ignored_temporaries(&mut self)
        ensures
            final(self).children@ == old(self).children@.filter(spec_keep_child()),
            final(self).restarts@ == old(self).restarts@,
            final(self).strategy == old(self).strategy,
            final(self).auto_shutdown == old(self).auto_shutdown,
            final(self).max_restarts == old(self).max_restarts,
            final(self).max_duration == old(self).max_duration,
    {
        let ghost pred = spec_keep_child();
        let ghost all = self.children@;

        let mut j: usize = self.children.len();

        proof {
            assert(all.take(all.len() as int) =~= all);
            assert(all.skip(all.len() as int).filter(pred) =~= Seq::<SupervisedChild>::empty())
                by {
                reveal(Seq::filter);
            }
            assert(self.children@ =~= all.take(j as int) + all.skip(j as int).filter(pred));
        }

        while j > 0
            invariant
                j <= all.len(),
                all == old(self).children@,
                pred == spec_keep_child(),
                self.restarts@ == old(self).restarts@,
                self.strategy == old(self).strategy,
                self.auto_shutdown == old(self).auto_shutdown,
                self.max_restarts == old(self).max_restarts,
                self.max_duration == old(self).max_duration,
                self.children@ == all.take(j as int) + all.skip(j as int).filter(pred),
            decreases j,
        {
            j -= 1;
            let ghost before = self.children@;
            proof {
                lemma_filter_skip_step(all, pred, j as int);
                assert(before =~= all.take(j + 1) + all.skip(j + 1).filter(pred));
                assert(before[j as int] == all[j as int]);
            }
            let drop_it = self.children[j].is_temporary() && self.children[j].pid.is_none();
            if drop_it {
                assert(!pred(all[j as int]));
                self.children.remove(j);
                proof {
                    assert(self.children@ =~= before.remove(j as int));
                    assert(before.remove(j as int) =~= all.take(j as int) + all.skip(
                        j + 1,
                    ).filter(pred));
                    assert(all.skip(j as int).filter(pred) == all.skip(j + 1).filter(pred));
                }
            } else {
                assert(pred(all[j as int]));
                proof {
                    assert(all.skip(j as int).filter(pred) == seq![all[j as int]] + all.skip(
                        j + 1,
                    ).filter(pred));
                    assert(self.children@ =~= all.take(j as int) + all.skip(j as int).filter(
                        pred,
                    ));
                }
            }
        }

        proof {
            assert(all.take(0) =~= Seq::<SupervisedChild>::empty());
            assert(all.skip(0) =~= all);
            assert(self.children@ =~= all.filter(pred));
        }
    }

    /// Plans a restart of the child at `index` under the current strategy:
    /// which other children to stop (in reverse declaration order) and
    /// which children to start again (in declaration order).
    pub fn restart_plan(&self, index: usize) -> (r: RestartPlan)
        requires
            index < self.children@.len(),
        ensures
            match self.strategy {
                SupervisionStrategy::OneForOne => {
                    &&& r.stops@ =~= Seq::<usize>::empty()
                    &&& r.starts@ =~= seq![index]
                },
                SupervisionStrategy::OneForAll => {
                    &&& forall|k: int|
                        0 <= k < r.stops@.len() ==> r.stops@[k] < self.children@.len()
                            && r.stops@[k] != index && self.children@[r.stops@[k] as int].pid
                            is Some
                    &&& forall|k: int, l: int|
                        0 <= k < l < r.stops@.len() ==> r.stops@[k] > r.stops@[l]
                    &&& forall|j: usize|
                        j < self.children@.len() && j != index && self.children@[j as int].pid
                            is Some ==> r.stops@.contains(j)
                    &&& r.starts@.len() == self.children@.len()
                    &&& forall|k: int| 0 <= k < r.starts@.len() ==> r.starts@[k] == k
                },
                SupervisionStrategy::RestForOne => {
                    &&& forall|k: int|
                        0 <= k < r.stops@.len() ==> r.stops@[k] < self.children@.len()
                            && r.stops@[k] > index && self.children@[r.stops@[k] as int].pid
                            is Some
                    &&& forall|k: int, l: int|
                        0 <= k < l < r.stops@.len() ==> r.stops@[k] > r.stops@[l]
                    &&& forall|j: usize|
                        j < self.children@.len() && j > index && self.children@[j as int].pid
                            is Some ==> r.stops@.contains(j)
                    &&& r.starts@.len() == self.children@.len() - index
                    &&& forall|k: int| 0 <= k < r.starts@.len() ==> r.starts@[k] == index + k
                },
            },
    {
        let mut stops: Vec<usize> = Vec::new();
        let mut starts: Vec<usize> = Vec::new();

        match self.strategy {
            SupervisionStrategy::OneForOne => {
                starts.push(index);
            },
            SupervisionStrategy::OneForAll => {
                let mut j: usize = self.children.len();
                while j > 0
                    invariant
                        j <= self.children@.len(),
                        forall|k: int|
                            0 <= k < stops@.len() ==> stops@[k] < self.children@.len()
                                && stops@[k] != index
                                && self.children@[stops@[k] as int].pid is Some,
                        forall|k: int, l: int|
                            0 <= k < l < stops@.len() ==> stops@[k] > stops@[l],
                        forall|k: int| 0 <= k < stops@.len() ==> stops@[k] >= j,
                        forall|m: usize|
                            j <= m < self.children@.len() && m != index
                                && self.children@[m as int].pid is Some ==> stops@.contains(m),
                    decreases j,
                {
                    j -= 1;
                    if j != index && self.children[j].pid.is_some() {
                        let ghost prev = stops@;
                        stops.push(j);
                        proof {
                            assert(stops@[prev.len() as int] == j);
                            assert(forall|m: usize|
                                prev.contains(m) ==> #[trigger] stops@.contains(m));
                        }
                    }
                }
                let mut k: usize = 0;
                while k < self.children.len()
                    invariant
                        k <= self.children@.len(),
                        starts@.len() == k,
                        forall|l: int| 0 <= l < k ==> starts@[l] == l,
                    decreases self.children@.len() - k,
                {
                    starts.push(k);
                    k += 1;
                }
            },
            SupervisionStrategy::RestForOne => {
                let mut j: usize = self.children.len();
                while j > index + 1
                    invariant
                        index < j <= self.children@.len() || j == self.children@.len(),
                        index < self.children@.len(),
                        forall|k: int|
                            0 <= k < stops@.len() ==> stops@[k] < self.children@.len()
                                && stops@[k] > index
                                && self.children@[stops@[k] as int].pid is Some,
                        forall|k: int, l: int|
                            0 <= k < l < stops@.len() ==> stops@[k] > stops@[l],
                        forall|k: int| 0 <= k < stops@.len() ==> stops@[k] >= j,
                        forall|m: usize|
                            j <= m < self.children@.len() && m > index
                                && self.children@[m as int].pid is Some ==> stops@.contains(m),
                    decreases j,
                {
                    j -= 1;
                    if self.children[j].pid.is_some() {
                        let ghost prev = stops@;
                        stops.push(j);
                        proof {
                            assert(stops@[prev.len() as int] == j);
                            assert(forall|m: usize|
                                prev.contains(m) ==> #[trigger] stops@.contains(m));
                        }
                    }
                }
                let mut k: usize = index;
                while k < self.children.len()
                    invariant
                        index <= k <= self.children@.len(),
                        starts@.len() == k - index,
                        forall|l: int| 0 <= l < starts@.len() ==> starts@[l] == index + l,
                    decreases self.children@.len() - k,
                {
                    starts.push(k);
                    k += 1;
                }
            },
        }

        RestartPlan { stops, starts }
    }

    /// Processes a `System(Exit(pid, reason))` signal from the trap-exit
    /// mailbox, as the restart table of the engine directs: a permanent
    /// child is always restarted, a transient one only after an abnormal
    /// exit, and every other exit removes the child, possibly shutting the
    /// supervisor itself down. Restarts are counted against the quota, and
    /// tripping it stops the supervisor with reason `"shutdown"`.
    pub fn on_child_exit(&mut self, pid: Pid, reason: ExitReason, now: u64) -> (r: ExitAction)
        ensures
            spec_exit_transition(*old(self), *final(self), pid, reason, now, r),
            r matches ExitAction::RunRestart(i) ==> i < final(self).children@.len() && final(self).children@ == old(self).children@ && old(self).spec_has_pid(pid) && i as int
                == spec_first_with_pid(old(self).children@, pid),
    {
        let found = self.find_child(pid);

        match found {
            None => ExitAction::NotFound,
            Some(index) => {
                proof {
                    let s = self.children@;
                    assert(exists|i: int|
                        0 <= i < s.len() && s[i].pid == Some(pid) && (forall|j: int|
                            0 <= j < i ==> s[j].pid != Some(pid))) by {
                        assert(0 <= index < s.len() && s[index as int].pid == Some(pid) && (
                        forall|j: int| 0 <= j < index ==> s[j].pid != Some(pid)));
                    }
                    let gi = spec_first_with_pid(s, pid);
                    assert(s[gi].pid == Some(pid));
                    assert(gi == index) by {
                        if gi < index {
                            assert(s[gi].pid != Some(pid));
                        }
                        if index < gi {
                            assert(s[index as int].pid != Some(pid));
                        }
                    }
                }

                let restarting = self.children[index].is_permanent() || (
                self.children[index].is_transient() && !(reason.is_normal()
                    || reason.is_shutdown()));

                if restarting {
                    if self.add_restart(now) {
                        ExitAction::Stop(ExitReason::shutdown_reason())
                    } else {
                        ExitAction::RunRestart(index)
                    }
                } else {
                    let child = self.remove_child(index);
                    if self.check_auto_shutdown(child) {
                        ExitAction::Stop(ExitReason::shutdown_reason())
                    } else {
                        ExitAction::Continue
                    }
                }
            },
        }
    }

    /// Dispatches a raw mailbox entry: only an `Exit` system message is a
    /// supervision event; everything else is ignored.
    pub fn handle_info(&mut self, info: Message, now: u64) -> (r: ExitAction)
        ensures
            match info {
                Message::System(SystemMessage::Exit(pid, reason)) => spec_exit_transition(
                    *old(self),
                    *final(self),
                    pid,
                    reason,
                    now,
                    r,
                ),
                _ => r == ExitAction::NotFound && *final(self) == *old(self),
            },
    {
        match info {
            Message::System(SystemMessage::Exit(pid, reason)) => self.on_child_exit(
                pid,
                reason,
                now,
            ),
            _ => ExitAction::NotFound,
        }
    }

    /// Processes a self-posted retry message: resolves the child (by pid or
    /// by id), charges the quota, and names the child index to run the
    /// restart strategy for. A message for a child no longer present is
    /// ignored; a tripped quota stops the supervisor with `"shutdown"`.
    pub fn handle_cast(&mut self, message: SupervisorMessage, now: u64) -> (r: Result<
        Option<usize>,
        ExitReason,
    >)
        ensures
            final(self).children@ == old(self).children@,
            final(self).strategy == old(self).strategy,
            final(self).auto_shutdown == old(self).auto_shutdown,
            final(self).max_restarts == old(self).max_restarts,
            final(self).max_duration == old(self).max_duration,
            r == Ok::<Option<usize>, ExitReason>(None) <==> !spec_cast_target(
                *old(self),
                message,
            ),
            match r {
                Ok(None) => *final(self) == *old(self),
                Ok(Some(i)) => {
                    &&& i < old(self).children@.len()
                    &&& final(self).restarts@ == spec_add_restart(
                        old(self).restarts@,
                        now,
                        old(self).max_duration,
                    )
                    &&& final(self).restarts@.len() <= old(self).max_restarts
                },
                Err(why) => {
                    &&& why.spec_is_shutdown()
                    &&& final(self).restarts@ == spec_add_restart(
                        old(self).restarts@,
                        now,
                        old(self).max_duration,
                    )
                    &&& final(self).restarts@.len() > old(self).max_restarts
                },
            },
    {
        let found = match &message {
            SupervisorMessage::TryAgainRestartPid(pid) => self.find_child(*pid),
            SupervisorMessage::TryAgainRestartId(id) => self.find_child_by_id(id),
        };

        match found {
            None => Ok(None),
            Some(index) => {
                if self.add_restart(now) {
                    Err(ExitReason::shutdown_reason())
                } else {
                    Ok(Some(index))
                }
            },
        }
    }

    /// The message a supervisor posts to itself when the restart of the
    /// child at `index` failed: the retry runs on a later turn, re-gated
    /// by the quota through [`Supervisor::handle_cast`].
    pub fn retry_message(&self, index: usize) -> (r: SupervisorMessage)
        requires
            index < self.children@.len(),
        ensures
            (r matches SupervisorMessage::TryAgainRestartId(id) && id@
                == self.children@[index as int].spec.id@),
    {
        SupervisorMessage::TryAgainRestartId(self.children[index].id())
    }

    /// Terminates all of the children: each live child is shut down under
    /// its own policy, in reverse declaration order, and the temporary
    /// children are removed. Shutdown errors do not abort the teardown.
    pub fn terminate_children(&mut self, k: &mut Kernel, self_pid: Pid)
        requires
            old(k).wf(),
            old(k).is_alive(self_pid),
            old(k).traps(self_pid),
            old(k).next_ref + old(self).children@.len() <= u64::MAX,
            forall|i: int|
                0 <= i < old(self).children@.len() ==> old(self).children@[i].pid != Some(
                    self_pid,
                ),
        ensures
            final(k).wf(),
            final(k).is_alive(self_pid),
            final(k).traps(self_pid),
            final(k).node == old(k).node,
            final(k).next_serial == old(k).next_serial,
            final(k).procs@.len() == old(k).procs@.len(),
            forall|j: int|
                0 <= j < old(k).procs@.len() ==> (#[trigger] final(k).procs@[j]).pid == old(k).procs@[j].pid && final(k).procs@[j].trap_exit == old(k).procs@[j].trap_exit
                    && (final(k).procs@[j].alive ==> old(k).procs@[j].alive),
            // every live child is terminated: unconditionally under a
            // BrutalKill or Duration policy, and in every case where the
            // child does not trap exits
            forall|i: int|
                0 <= i < old(self).children@.len() && (#[trigger] old(self).children@[i]).pid
                    is Some && (!(old(self).children@[i].spec_shutdown() is Infinity) || !old(k).traps(old(self).children@[i].pid.unwrap())) ==> !final(k).is_alive(
                    old(self).children@[i].pid.unwrap(),
                ),
            final(self).children@ == old(self).children@.map_values(spec_clear_pid()).filter(
                spec_keep_child(),
            ),
            final(self).restarts@ == old(self).restarts@,
            final(self).strategy == old(self).strategy,
            final(self).auto_shutdown == old(self).auto_shutdown,
            final(self).max_restarts == old(self).max_restarts,
            final(self).max_duration == old(self).max_duration,
    {
        let ghost all = self.children@;
        let ghost k0 = *k;
        let mut j: usize = self.children.len();

        while j > 0
            invariant
                j <= all.len(),
                all.len() == self.children@.len(),
                k.wf(),
                k0.wf(),
                k.is_alive(self_pid),
                k.traps(self_pid),
                k.node == k0.node,
                k.next_serial == k0.next_serial,
                k.procs@.len() == k0.procs@.len(),
                forall|jj: int|
                    0 <= jj < k0.procs@.len() ==> (#[trigger] k.procs@[jj]).pid
                        == k0.procs@[jj].pid && k.procs@[jj].trap_exit == k0.procs@[jj].trap_exit
                        && (k.procs@[jj].alive ==> k0.procs@[jj].alive),
                forall|jj: int|
                    j <= jj < all.len() && (#[trigger] all[jj]).pid is Some && (!(
                    all[jj].spec_shutdown() is Infinity) || !k0.traps(all[jj].pid.unwrap()))
                        ==> !k.is_alive(all[jj].pid.unwrap()),
                k.next_ref <= k0.next_ref + (all.len() - j),
                k0.next_ref + all.len() <= u64::MAX,
                forall|jj: int| 0 <= jj < j ==> self.children@[jj] == all[jj],
                forall|jj: int|
                    j <= jj < all.len() ==> self.children@[jj] == (SupervisedChild {
                        pid: None,
                        ..all[jj]
                    }),
                forall|i: int| 0 <= i < all.len() ==> all[i].pid != Some(self_pid),
                self.restarts@ == old(self).restarts@,
                self.strategy == old(self).strategy,
                self.auto_shutdown == old(self).auto_shutdown,
                self.max_restarts == old(self).max_restarts,
                self.max_duration == old(self).max_duration,
            decreases j,
        {
            j -= 1;
            let policy = self.children[j].shutdown();
            let target = self.children[j].pid;
            let ghost kpre = *k;
            match target {
                Some(pid) => {
                    assert(all[j as int].pid == Some(pid));
                    // a shutdown error does not abort the teardown
                    let _outcome = shutdown(k, self_pid, pid, policy);
                    proof {
                        assert(policy == all[j as int].spec_shutdown());
                        if !(policy is Infinity) {
                            assert(!k.is_alive(pid));
                        } else {
                            Kernel::lemma_views_agree_weak(k0, kpre, pid);
                            if !k0.traps(pid) {
                                if kpre.is_alive(pid) {
                                    assert(!kpre.traps(pid));
                                    assert(!k.is_alive(pid));
                                } else {
                                    crate::shutdown::lemma_stays_dead(kpre, *k, pid);
                                }
                            }
                        }
                        assert forall|jj: int|
                            j < jj < all.len() && (#[trigger] all[jj]).pid is Some && (!(
                            all[jj].spec_shutdown() is Infinity) || !k0.traps(
                                all[jj].pid.unwrap(),
                            )) implies !k.is_alive(all[jj].pid.unwrap()) by {
                            crate::shutdown::lemma_stays_dead(kpre, *k, all[jj].pid.unwrap());
                        }
                    }
                },
                None => {},
            }
            self.children[j].pid = None;
        }

        proof {
            assert(self.children@ =~= all.map_values(spec_clear_pid()));
        }

        self.prune_ignored_temporaries();
    }

    /// Restarts one or more children starting with the given `index` based
    /// on the current strategy: the plan's stop list is executed against
    /// the kernel (reverse declaration order, each child under its own
    /// shutdown policy) and the emptied slots are purged; the returned
    /// list names the children to start again, in order, whose thunk
    /// outcomes the caller reports through [`Supervisor::record_start`].
    pub fn restart(&mut self, k: &mut Kernel, self_pid: Pid, index: usize) -> (starts: Vec<usize>)
        requires
            index < old(self).children@.len(),
            old(k).wf(),
            old(k).is_alive(self_pid),
            old(k).traps(self_pid),
            old(k).next_ref + old(self).children@.len() <= u64::MAX,
            forall|i: int|
                0 <= i < old(self).children@.len() ==> old(self).children@[i].pid != Some(
                    self_pid,
                ),
        ensures
            final(k).wf(),
            final(k).is_alive(self_pid),
            final(k).traps(self_pid),
            final(k).node == old(k).node,
            final(k).next_serial == old(k).next_serial,
            final(k).procs@.len() == old(k).procs@.len(),
            forall|j: int|
                0 <= j < old(k).procs@.len() ==> (#[trigger] final(k).procs@[j]).pid == old(k).procs@[j].pid && final(k).procs@[j].trap_exit == old(k).procs@[j].trap_exit
                    && (final(k).procs@[j].alive ==> old(k).procs@[j].alive),
            final(self).restarts@ == old(self).restarts@,
            final(self).strategy == old(self).strategy,
            final(self).auto_shutdown == old(self).auto_shutdown,
            final(self).max_restarts == old(self).max_restarts,
            final(self).max_duration == old(self).max_duration,
            final(self).children@.len() == old(self).children@.len(),
            // the stop phase terminates every live child it names, like a
            // teardown (see [`spec_stops_terminated`])
            spec_stops_terminated(*old(self), *old(k), *final(k), index as int),
            match old(self).strategy {
                SupervisionStrategy::OneForOne => {
                    &&& final(self).children@ == old(self).children@
                    &&& *final(k) == *old(k)
                    &&& starts@ =~= seq![index]
                },
                SupervisionStrategy::OneForAll => {
                    &&& final(self).children@[index as int] == old(self).children@[index as int]
                    &&& forall|jj: int|
                        0 <= jj < old(self).children@.len() && jj != index ==> final(self).children@[jj] == (SupervisedChild {
                            pid: None,
                            ..old(self).children@[jj]
                        })
                    &&& starts@.len() == old(self).children@.len()
                    &&& forall|l: int| 0 <= l < starts@.len() ==> starts@[l] == l
                },
                SupervisionStrategy::RestForOne => {
                    &&& forall|jj: int|
                        0 <= jj <= index ==> final(self).children@[jj] == old(self).children@[jj]
                    &&& forall|jj: int|
                        index < jj < old(self).children@.len() ==> final(self).children@[jj]
                            == (SupervisedChild { pid: None, ..old(self).children@[jj] })
                    &&& starts@.len() == old(self).children@.len() - index
                    &&& forall|l: int| 0 <= l < starts@.len() ==> starts@[l] == index + l
                },
            },
    {
        let plan = self.restart_plan(index);
        let ghost gstops = plan.stops@;
        let ghost all = self.children@;
        let ghost k0 = *k;
        let n = self.children.len();
        assert(all.len() == n);

        proof {
            assert forall|l: int| 0 <= l < gstops.len() implies #[trigger] gstops[l] + l
                < all.len() by {
                lemma_decreasing_bound(gstops, all.len() as int, l);
            }
            if self.strategy == SupervisionStrategy::OneForAll {
                assert forall|jj: int|
                    0 <= jj < all.len() && jj != index && all[jj].pid is Some implies gstops.contains(
                    jj as usize,
                ) by {
                    let ju: usize = jj as usize;
                    assert(ju < self.children@.len() && ju != index
                        && self.children@[ju as int].pid is Some);
                    assert(plan.stops@.contains(ju));
                    assert(gstops.contains(ju));
                }
            }
            if self.strategy == SupervisionStrategy::RestForOne {
                assert forall|jj: int|
                    index < jj < all.len() && all[jj].pid is Some implies gstops.contains(
                    jj as usize,
                ) by {
                    let ju: usize = jj as usize;
                    assert(ju < self.children@.len() && ju > index
                        && self.children@[ju as int].pid is Some);
                    assert(plan.stops@.contains(ju));
                    assert(gstops.contains(ju));
                }
            }
        }
        let ghost complete_all = self.strategy == SupervisionStrategy::OneForAll ==> forall|
            jj: int,
        |
            0 <= jj < all.len() && jj != index && all[jj].pid is Some ==> gstops.contains(
                jj as usize,
            );
        let ghost complete_rest = self.strategy == SupervisionStrategy::RestForOne ==> forall|
            jj: int,
        |
            index < jj < all.len() && all[jj].pid is Some ==> gstops.contains(jj as usize);

        let mut t: usize = 0;
        while t < plan.stops.len()
            invariant
                t <= gstops.len(),
                plan.stops@ == gstops,
                all.len() == self.children@.len(),
                index < all.len(),
                k.wf(),
                k0.wf(),
                k.is_alive(self_pid),
                k.traps(self_pid),
                k.node == k0.node,
                k.next_serial == k0.next_serial,
                k.procs@.len() == k0.procs@.len(),
                forall|jj: int|
                    0 <= jj < k0.procs@.len() ==> (#[trigger] k.procs@[jj]).pid
                        == k0.procs@[jj].pid && k.procs@[jj].trap_exit == k0.procs@[jj].trap_exit
                        && (k.procs@[jj].alive ==> k0.procs@[jj].alive),
                forall|l: int|
                    0 <= l < t && (#[trigger] all[gstops[l] as int]).pid is Some && (!(
                    all[gstops[l] as int].spec_shutdown() is Infinity) || !k0.traps(
                        all[gstops[l] as int].pid.unwrap(),
                    )) ==> !k.is_alive(all[gstops[l] as int].pid.unwrap()),
                gstops.len() == 0 ==> *k == k0,
                k.next_ref <= k0.next_ref + t,
                k0.next_ref + all.len() <= u64::MAX,
                complete_all,
                complete_rest,
                complete_all == (self.strategy == SupervisionStrategy::OneForAll ==> forall|
                    jj: int,
                |
                    0 <= jj < all.len() && jj != index && all[jj].pid is Some
                        ==> gstops.contains(jj as usize)),
                complete_rest == (self.strategy == SupervisionStrategy::RestForOne ==> forall|
                    jj: int,
                |
                    index < jj < all.len() && all[jj].pid is Some ==> gstops.contains(
                        jj as usize,
                    )),
                forall|l: int| 0 <= l < gstops.len() ==> #[trigger] gstops[l] + l < all.len(),
                forall|l: int|
                    0 <= l < gstops.len() ==> gstops[l] < all.len() && gstops[l] != index,
                forall|l1: int, l2: int|
                    0 <= l1 < l2 < gstops.len() ==> gstops[l1] > gstops[l2],
                forall|l: int|
                    0 <= l < t ==> self.children@[gstops[l] as int] == (SupervisedChild {
                        pid: None,
                        ..all[gstops[l] as int]
                    }),
                forall|jj: int|
                    0 <= jj < all.len() && !(exists|l: int|
                        0 <= l < t && gstops[l] == jj) ==> self.children@[jj] == all[jj],
                forall|i: int| 0 <= i < all.len() ==> all[i].pid != Some(self_pid),
                self.restarts@ == old(self).restarts@,
                self.strategy == old(self).strategy,
                self.auto_shutdown == old(self).auto_shutdown,
                self.max_restarts == old(self).max_restarts,
                self.max_duration == old(self).max_duration,
            decreases gstops.len() - t,
        {
            let stop_at = plan.stops[t];
            proof {
                assert(gstops[t as int] + t < all.len());
                assert(stop_at < all.len());
                assert(k.next_ref < u64::MAX);
                assert forall|l: int| 0 <= l < t implies gstops[l] != stop_at by {
                    assert(gstops[l] > gstops[t as int]);
                }
                assert(self.children@[stop_at as int] == all[stop_at as int]);
            }
            let policy = self.children[stop_at].shutdown();
            let target = self.children[stop_at].pid;
            let ghost kpre = *k;
            match target {
                Some(pid) => {
                    // a shutdown error re-queues the child, never aborts
                    let _outcome = shutdown(k, self_pid, pid, policy);
                    proof {
                        assert(policy == all[stop_at as int].spec_shutdown());
                        if !(policy is Infinity) {
                            assert(!k.is_alive(pid));
                        } else {
                            Kernel::lemma_views_agree_weak(k0, kpre, pid);
                            if !k0.traps(pid) {
                                if kpre.is_alive(pid) {
                                    assert(!kpre.traps(pid));
                                    assert(!k.is_alive(pid));
                                } else {
                                    crate::shutdown::lemma_stays_dead(kpre, *k, pid);
                                }
                            }
                        }
                        assert forall|l: int|
                            0 <= l < t && (#[trigger] all[gstops[l] as int]).pid is Some && (!(
                            all[gstops[l] as int].spec_shutdown() is Infinity) || !k0.traps(
                                all[gstops[l] as int].pid.unwrap(),
                            )) implies !k.is_alive(all[gstops[l] as int].pid.unwrap()) by {
                            crate::shutdown::lemma_stays_dead(
                                kpre,
                                *k,
                                all[gstops[l] as int].pid.unwrap(),
                            );
                        }
                    }
                },
                None => {},
            }
            self.children[stop_at].pid = None;
            proof {
                assert(self.children@[stop_at as int] == (SupervisedChild {
                    pid: None,
                    ..all[stop_at as int]
                }));
            }
            t += 1;
        }

        proof {
            assert forall|jj: int|
                0 <= jj < all.len() && (#[trigger] all[jj]).pid is Some && (match self.strategy {
                    SupervisionStrategy::OneForOne => false,
                    SupervisionStrategy::OneForAll => jj != index,
                    SupervisionStrategy::RestForOne => jj > index,
                }) && (!(all[jj].spec_shutdown() is Infinity) || !k0.traps(
                    all[jj].pid.unwrap(),
                )) implies !k.is_alive(all[jj].pid.unwrap()) by {
                assert(gstops.contains(jj as usize));
                let l = choose|l: int| 0 <= l < gstops.len() && gstops[l] == jj as usize;
                assert(all[gstops[l] as int].pid is Some);
            }
            reveal(spec_stops_terminated);
            assert(spec_stops_terminated(*old(self), k0, *k, index as int));
            if self.strategy == SupervisionStrategy::OneForOne {
                assert(gstops.len() == 0);
                assert(self.children@ =~= all);
            }
            if self.strategy == SupervisionStrategy::OneForAll {
                assert forall|jj: int|
                    0 <= jj < all.len() && jj != index implies self.children@[jj]
                    == (SupervisedChild { pid: None, ..all[jj] }) by {
                    if all[jj].pid is Some {
                        assert(gstops.contains(jj as usize));
                        let l = choose|l: int| 0 <= l < gstops.len() && gstops[l] == jj as usize;
                        assert(self.children@[jj] == (SupervisedChild {
                            pid: None,
                            ..all[jj]
                        }));
                    } else {
                        if !(exists|l: int| 0 <= l < gstops.len() && gstops[l] == jj) {
                            assert(self.children@[jj] == all[jj]);
                        } else {
                            let l = choose|l: int| 0 <= l < gstops.len() && gstops[l] == jj;
                        }
                        assert(self.children@[jj].pid is None);
                        assert(self.children@[jj] == (SupervisedChild {
                            pid: None,
                            ..all[jj]
                        }));
                    }
                }
                assert(self.children@[index as int] == all[index as int]);
            }
            if self.strategy == SupervisionStrategy::RestForOne {
                assert forall|jj: int| 0 <= jj <= index implies self.children@[jj]
                    == all[jj] by {
                    if exists|l: int| 0 <= l < gstops.len() && gstops[l] == jj {
                        let l = choose|l: int| 0 <= l < gstops.len() && gstops[l] == jj;
                        assert(gstops[l] > index);
                    }
                }
                assert forall|jj: int|
                    index < jj < all.len() implies self.children@[jj] == (SupervisedChild {
                    pid: None,
                    ..all[jj]
                }) by {
                    if all[jj].pid is Some {
                        assert(gstops.contains(jj as usize));
                        let l = choose|l: int| 0 <= l < gstops.len() && gstops[l] == jj as usize;
                    } else {
                        if exists|l: int| 0 <= l < gstops.len() && gstops[l] == jj {
                            let l = choose|l: int| 0 <= l < gstops.len() && gstops[l] == jj;
                        }
                        assert(self.children@[jj].pid is None);
                    }
                }
            }
        }

        plan.starts
    }

    /// Restarts a child that exited for the given `reason`: the decision
    /// table of [`Supervisor::on_child_exit`] is applied, and where it
    /// directs a restart, the strategy's stop phase runs against the
    /// kernel. Returns the indices of the children to start again, or the
    /// reason the supervisor itself must stop with (`"shutdown"` when the
    /// restart quota trips or the auto-shutdown rule fires).
    #[verifier::rlimit(80)]
    pub fn restart_child(
        &mut self,
        k: &mut Kernel,
        self_pid: Pid,
        pid: Pid,
        reason: ExitReason,
        now: u64,
    ) -> (r: Result<Vec<usize>, ExitReason>)
        requires
            old(k).wf(),
            old(k).is_alive(self_pid),
            old(k).traps(self_pid),
            old(k).next_ref + old(self).children@.len() <= u64::MAX,
            forall|i: int|
                0 <= i < old(self).children@.len() ==> old(self).children@[i].pid != Some(
                    self_pid,
                ),
        ensures
            final(k).wf(),
            final(k).is_alive(self_pid),
            final(k).traps(self_pid),
            final(k).node == old(k).node,
            final(k).next_serial == old(k).next_serial,
            final(k).procs@.len() == old(k).procs@.len(),
            forall|j: int|
                0 <= j < old(k).procs@.len() ==> (#[trigger] final(k).procs@[j]).pid == old(k).procs@[j].pid && final(k).procs@[j].trap_exit == old(k).procs@[j].trap_exit
                    && (final(k).procs@[j].alive ==> old(k).procs@[j].alive),
            final(self).strategy == old(self).strategy,
            final(self).auto_shutdown == old(self).auto_shutdown,
            final(self).max_restarts == old(self).max_restarts,
            final(self).max_duration == old(self).max_duration,
            r matches Err(why) ==> why.spec_is_shutdown(),
            !old(self).spec_has_pid(pid) ==> (r matches Ok(starts) && starts@.len() == 0
                && *final(self) == *old(self) && *final(k) == *old(k)),
            spec_restart_child_post(*old(self), *final(self), *old(k), *final(k), pid, reason, now, r),

    {
        let action = self.on_child_exit(pid, reason, now);

        match action {
            ExitAction::NotFound => {
                proof {
                    assert(!old(self).spec_has_pid(pid));
                }
                Ok(Vec::new())
            },
            ExitAction::Continue => {
                proof {
                    assert(old(self).spec_has_pid(pid));
                }
                Ok(Vec::new())
            },
            ExitAction::Stop(why) => {
                proof {
                    assert(old(self).spec_has_pid(pid));
                    assert(why.spec_is_shutdown());
                }
                Err(why)
            },
            ExitAction::RunRestart(index) => {
                proof {
                    assert(self.children@ == old(self).children@);
                    assert(old(self).spec_has_pid(pid));
                    assert(index as int == spec_first_with_pid(old(self).children@, pid));
                }
                let starts = self.restart(k, self_pid, index);
                Ok(starts)
            },
        }
    }
}

/// The full effect of a child exit followed by the decided restart, as
/// [`Supervisor::restart_child`] performs it. For a supervised pid: a
/// permanent child, or a transient one after an abnormal exit, charges
/// the quota exactly once; the result is `Err` exactly when the charged
/// backlog exceeds the quota (the supervisor then stops with `"shutdown"`
/// and nothing else changed), and otherwise the strategy ran — the
/// crashed slot kept, the stop phase's slots purged, the start list as
/// the strategy directs. Every other exit removes the child, leaves the
/// backlog and the kernel untouched, and is `Err` exactly when the
/// auto-shutdown rule fires.
pub open spec fn spec_restart_child_post(
    pre: Supervisor,
    post: Supervisor,
    pre_k: Kernel,
    post_k: Kernel,
    pid: Pid,
    reason: ExitReason,
    now: u64,
    r: Result<Vec<usize>, ExitReason>,
) -> bool {
    pre.spec_has_pid(pid) ==> {
        let i = spec_first_with_pid(pre.children@, pid);
        let c = pre.children@[i];
        let restarting = c.spec.restart == Restart::Permanent || (c.spec.restart
            == Restart::Transient && !(reason.spec_is_normal() || reason.spec_is_shutdown()));
        let charged = spec_add_restart(pre.restarts@, now, pre.max_duration);
        if restarting {
            &&& post.restarts@ == charged
            &&& (r is Err <==> charged.len() > pre.max_restarts)
            &&& (charged.len() > pre.max_restarts ==> post.children@ == pre.children@ && post_k
                == pre_k)
            &&& (charged.len() <= pre.max_restarts ==> {
                &&& post.children@.len() == pre.children@.len()
                &&& post.children@[i] == pre.children@[i]
                &&& (r matches Ok(starts) ==> match pre.strategy {
                    SupervisionStrategy::OneForOne => post.children@ == pre.children@ && post_k
                        == pre_k && starts@ =~= seq![i as usize],
                    SupervisionStrategy::OneForAll => (forall|jj: int|
                        0 <= jj < pre.children@.len() && jj != i ==> post.children@[jj]
                            == (SupervisedChild { pid: None, ..pre.children@[jj] }))
                        && starts@.len() == pre.children@.len() && (forall|l: int|
                        0 <= l < starts@.len() ==> starts@[l] == l),
                    SupervisionStrategy::RestForOne => (forall|jj: int|
                        0 <= jj <= i ==> post.children@[jj] == pre.children@[jj]) && (forall|
                        jj: int,
                    |
                        i < jj < pre.children@.len() ==> post.children@[jj] == (SupervisedChild {
                            pid: None,
                            ..pre.children@[jj]
                        })) && starts@.len() == pre.children@.len() - i && (forall|l: int|
                        0 <= l < starts@.len() ==> starts@[l] == i + l),
                })
            })
        } else {
            &&& post.children@ == pre.children@.remove(i)
            &&& post.restarts@ == pre.restarts@
            &&& post_k == pre_k
            &&& (r is Err <==> post.spec_auto_shutdown(c))
        }
    }
}

/// Whether a retry message names a child that is present: by its live
/// pid, or by its id.
pub open spec fn spec_cast_target(pre: Supervisor, message: SupervisorMessage) -> bool {
    match message {
        SupervisorMessage::TryAgainRestartPid(pid) => pre.spec_has_pid(pid),
        SupervisorMessage::TryAgainRestartId(id) => pre.spec_has_id(id@),
    }
}

/// Empties a child slot: the declaration is kept, the pid is cleared.
pub open spec fn spec_clear_pid() -> spec_fn(SupervisedChild) -> SupervisedChild {
    |c: SupervisedChild| SupervisedChild { pid: None, ..c }
}

} // verus!
