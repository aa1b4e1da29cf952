//! The signalling model: a process table with links, monitors, trap-exit
//! flags and per-process mailboxes, and the rules by which exit signals
//! propagate. Delivery is synchronous: a signal's full effect — including
//! recursive termination across links — happens at the point it is raised.

use vstd::prelude::*;
use vstd::seq_lib::group_seq_properties;

use crate::types::lemma_filter_take_step;
use crate::types::ExitReason;
use crate::types::Message;
use crate::types::Pid;
use crate::types::Reference;
use crate::types::SystemMessage;

verus! {

broadcast use group_seq_properties;

/// One process: identity, liveness, the trap-exit flag, and the mailbox.
#[derive(Debug)]
pub struct ProcessRecord {
    pub pid: Pid,
    pub alive: bool,
    pub trap_exit: bool,
    pub mailbox: Vec<Message>,
}

/// One bidirectional link, stored once: severing the edge severs it for
/// both ends at the same instant.
#[derive(Clone, Copy, PartialEq, Eq, Structural, Debug)]
pub struct LinkEdge {
    pub a: Pid,
    pub b: Pid,
}

/// One monitor: `watcher` observes `subject`, tagged by a unique
/// `reference`. Unidirectional and one-shot.
#[derive(Clone, Copy, PartialEq, Eq, Structural, Debug)]
pub struct MonitorEntry {
    pub reference: Reference,
    pub watcher: Pid,
    pub subject: Pid,
}

/// Whether the edge `e` joins exactly the two ends `p` and `q`.
pub open spec fn edge_joins(e: LinkEdge, p: Pid, q: Pid) -> bool {
    (e.a == p && e.b == q) || (e.a == q && e.b == p)
}

/// Whether `{p, q}` and `{r, s}` are the same unordered pair.
pub open spec fn same_pair(p: Pid, q: Pid, r: Pid, s: Pid) -> bool {
    (p == r && q == s) || (p == s && q == r)
}

/// How many `ProcessDown` entries tagged `r` a mailbox holds.
pub open spec fn down_count(mb: Seq<Message>, r: Reference) -> nat {
    mb.filter(|m: Message| m.spec_is_down_with(r)).len()
}

/// Whether a mailbox holds an `Exit(from, reason)` entry.
pub open spec fn has_exit_from(mb: Seq<Message>, from: Pid, reason: ExitReason) -> bool {
    exists|i: int|
        0 <= i < mb.len() && mb[i] == Message::System(SystemMessage::Exit(from, reason))
}

/// A mailbox entry respects the reference bound: any `ProcessDown` it
/// carries is tagged below `bound`. With references handed out from
/// `next_ref` upward, a fresh reference can have no pending firing.
pub open spec fn down_ref_ok(m: Message, bound: u64) -> bool {
    match m {
        Message::System(SystemMessage::ProcessDown(_, r, _)) => r.id < bound,
        _ => true,
    }
}

/// Keeps the messages that are not `Exit(pid, _)`: what a flush leaves.
pub open spec fn spec_not_exit_from(pid: Pid) -> spec_fn(Message) -> bool {
    |m: Message| !m.spec_is_exit_from(pid)
}

/// How many of the first `n` records are alive.
pub open spec fn alive_count_upto(procs: Seq<ProcessRecord>, n: int) -> nat
    decreases n,
{
    if n <= 0 {
        0
    } else {
        alive_count_upto(procs, n - 1) + if procs[n - 1].alive {
            1nat
        } else {
            0nat
        }
    }
}

/// How many records are alive.
pub open spec fn alive_count(procs: Seq<ProcessRecord>) -> nat {
    alive_count_upto(procs, procs.len() as int)
}

/// The count depends only on the alive flags.
proof fn lemma_alive_count_congruent(s1: Seq<ProcessRecord>, s2: Seq<ProcessRecord>, n: int)
    requires
        n <= s1.len(),
        s1.len() == s2.len(),
        forall|j: int| 0 <= j < s1.len() ==> s1[j].alive == s2[j].alive,
    ensures
        alive_count_upto(s1, n) == alive_count_upto(s2, n),
    decreases n,
{
    if n > 0 {
        lemma_alive_count_congruent(s1, s2, n - 1);
    }
}

/// Clearing one alive flag lowers the count by exactly one.
proof fn lemma_alive_count_update(s: Seq<ProcessRecord>, i: int, r: ProcessRecord, n: int)
    requires
        0 <= i < s.len(),
        s[i].alive,
        !r.alive,
        n <= s.len(),
    ensures
        i < n ==> alive_count_upto(s.update(i, r), n) + 1 == alive_count_upto(s, n),
        n <= i ==> alive_count_upto(s.update(i, r), n) == alive_count_upto(s, n),
    decreases n,
{
    if n > 0 {
        lemma_alive_count_update(s, i, r, n - 1);
    }
}

/// Appending a message changes the count of `ProcessDown` entries tagged
/// `r` by one exactly when the message is such an entry.
pub proof fn lemma_down_count_push(mb: Seq<Message>, m: Message, r: Reference)
    ensures
        down_count(mb.push(m), r) == down_count(mb, r) + if m.spec_is_down_with(r) {
            1nat
        } else {
            0nat
        },
{
    let pred = |x: Message| x.spec_is_down_with(r);
    assert(mb.push(m) =~= mb + seq![m]);
    Seq::filter_distributes_over_add(mb, seq![m], pred);
    reveal_with_fuel(Seq::filter, 2);
    assert(seq![m].drop_last() =~= Seq::<Message>::empty());
    if pred(m) {
        assert(seq![m].filter(pred) =~= Seq::<Message>::empty().push(m));
    } else {
        assert(seq![m].filter(pred) =~= Seq::<Message>::empty());
    }
}

/// The process table of one node.
pub struct Kernel {
    /// The node every local pid carries.
    pub node: u64,
    /// The next never-used pid serial.
    pub next_serial: u64,
    /// The next never-used monitor reference.
    pub next_ref: u64,
    pub procs: Vec<ProcessRecord>,
    pub links: Vec<LinkEdge>,
    pub monitors: Vec<MonitorEntry>,
}

impl Kernel {
    /// Some record carries `p`.
    pub open spec fn has_proc(self, p: Pid) -> bool {
        exists|i: int| 0 <= i < self.procs@.len() && self.procs@[i].pid == p
    }

    /// The index of the record carrying `p`; meaningful when one exists.
    pub open spec fn idx_of(self, p: Pid) -> int {
        choose|i: int| 0 <= i < self.procs@.len() && self.procs@[i].pid == p
    }

    /// Whether the process `p` exists and has not terminated.
    pub open spec fn is_alive(self, p: Pid) -> bool {
        self.has_proc(p) && self.procs@[self.idx_of(p)].alive
    }

    /// Whether the process `p` exists and traps exits.
    pub open spec fn traps(self, p: Pid) -> bool {
        self.has_proc(p) && self.procs@[self.idx_of(p)].trap_exit
    }

    /// The mailbox of `p`; meaningful when the process exists.
    pub open spec fn mailbox_of(self, p: Pid) -> Seq<Message> {
        self.procs@[self.idx_of(p)].mailbox@
    }

    /// Whether `p` and `q` are linked: some edge joins them.
    pub open spec fn linked(self, p: Pid, q: Pid) -> bool {
        exists|k: int| 0 <= k < self.links@.len() && edge_joins(self.links@[k], p, q)
    }

    /// Whether the reference `r` tags a pending monitor.
    pub open spec fn monitored(self, r: Reference) -> bool {
        exists|k: int| 0 <= k < self.monitors@.len() && self.monitors@[k].reference == r
    }

    /// Well-formedness: pids are unique and below the serial bound, and
    /// monitor references are unique and below the reference bound.
    pub open spec fn wf(self) -> bool {
        &&& forall|i: int, j: int|
            0 <= i < self.procs@.len() && 0 <= j < self.procs@.len() && i != j
                ==> self.procs@[i].pid != self.procs@[j].pid
        &&& forall|i: int|
            0 <= i < self.procs@.len() ==> self.procs@[i].pid.node == self.node
                && self.procs@[i].pid.serial < self.next_serial
        &&& forall|k: int, l: int|
            0 <= k < self.monitors@.len() && 0 <= l < self.monitors@.len() && k != l
                ==> self.monitors@[k].reference != self.monitors@[l].reference
        &&& forall|k: int|
            0 <= k < self.monitors@.len() ==> self.monitors@[k].reference.id < self.next_ref
        &&& forall|i: int, mi: int|
            0 <= i < self.procs@.len() && 0 <= mi < self.procs@[i].mailbox@.len()
                ==> down_ref_ok(#[trigger] self.procs@[i].mailbox@[mi], self.next_ref)
    }

    /// An empty node.
    pub fn new(node: u64) -> (r: Kernel)
        ensures
            r.wf(),
            r.node == node,
            r.procs@ =~= Seq::<ProcessRecord>::empty(),
            r.links@ =~= Seq::<LinkEdge>::empty(),
            r.monitors@ =~= Seq::<MonitorEntry>::empty(),
    {
        Kernel {
            node,
            next_serial: 0,
            next_ref: 0,
            procs: Vec::new(),
            links: Vec::new(),
            monitors: Vec::new(),
        }
    }

    /// The record index of `p`, if the process exists.
    fn find_index(&self, p: Pid) -> (r: Option<usize>)
        ensures
            match r {
                Some(i) => i < self.procs@.len() && self.procs@[i as int].pid == p,
                None => !self.has_proc(p),
            },
    {
        let mut i: usize = 0;
        while i < self.procs.len()
            invariant
                i <= self.procs@.len(),
                forall|j: int| 0 <= j < i ==> self.procs@[j].pid != p,
            decreases self.procs@.len() - i,
        {
            if self.procs[i].pid.node == p.node && self.procs[i].pid.serial == p.serial {
                assert(self.procs@[i as int].pid == p);
                return Some(i);
            }
            i += 1;
        }
        None
    }

    /// With unique pids, the record index of an existing pid is the one
    /// `idx_of` names.
    pub proof fn lemma_idx(self, p: Pid, i: int)
        requires
            self.wf(),
            0 <= i < self.procs@.len(),
            self.procs@[i].pid == p,
        ensures
            self.has_proc(p),
            self.idx_of(p) == i,
    {
        assert(self.has_proc(p));
        let j = self.idx_of(p);
        assert(0 <= j < self.procs@.len() && self.procs@[j].pid == p);
        if i != j {
            assert(self.procs@[i].pid != self.procs@[j].pid);
        }
    }

    /// Starts a process: a fresh pid, an empty mailbox, no links, no
    /// monitors.
    pub fn spawn(&mut self, trap_exit: bool) -> (p: Pid)
        requires
            old(self).wf(),
            old(self).next_serial < u64::MAX,
        ensures
            final(self).wf(),
            !old(self).has_proc(p),
            final(self).is_alive(p),
            final(self).traps(p) == trap_exit,
            final(self).mailbox_of(p) =~= Seq::<Message>::empty(),
            final(self).node == old(self).node,
            final(self).procs@.len() == old(self).procs@.len() + 1,
            forall|j: int|
                0 <= j < old(self).procs@.len() ==> final(self).procs@[j] == old(self).procs@[j],
            final(self).procs@.last().pid == p,
            final(self).procs@.last().alive,
            forall|q: Pid| old(self).has_proc(q) ==> final(self).has_proc(q),
            forall|q: Pid| #[trigger]
                old(self).is_alive(q) ==> final(self).is_alive(q) && final(self).mailbox_of(q)
                    == old(self).mailbox_of(q) && final(self).traps(q) == old(self).traps(q),
            final(self).links@ == old(self).links@,
            final(self).monitors@ == old(self).monitors@,
    {
        let p = Pid { node: self.node, serial: self.next_serial };
        self.next_serial = self.next_serial + 1;

        proof {
            assert forall|i: int| 0 <= i < self.procs@.len() implies self.procs@[i].pid
                != p by {
                assert(self.procs@[i].pid.serial < p.serial);
            }
        }

        self.procs.push(ProcessRecord { pid: p, alive: true, trap_exit, mailbox: Vec::new() });

        proof {
            let n = self.procs@.len() - 1;
            self.lemma_idx(p, n);
            assert forall|q: Pid| #[trigger] old(self).is_alive(q) implies self.is_alive(q)
                && self.mailbox_of(q) == old(self).mailbox_of(q) && self.traps(q) == old(self).traps(q) by {
                let i = old(self).idx_of(q);
                assert(old(self).procs@[i].pid == q);
                self.lemma_idx(q, i);
            }
            assert forall|q: Pid| old(self).has_proc(q) implies self.has_proc(q) by {
                let i = old(self).idx_of(q);
                assert(self.procs@[i].pid == q);
            }
        }

        p
    }

    /// Sets or clears the trap-exit flag of a live process.
    pub fn set_trap_exit(&mut self, p: Pid, trap_exit: bool)
        requires
            old(self).wf(),
        ensures
            final(self).wf(),
            old(self).has_proc(p) ==> final(self).traps(p) == trap_exit,
            !old(self).has_proc(p) ==> *final(self) == *old(self),
            final(self).node == old(self).node,
            final(self).next_serial == old(self).next_serial,
            final(self).next_ref == old(self).next_ref,
            final(self).links@ == old(self).links@,
            final(self).monitors@ == old(self).monitors@,
            final(self).procs@.len() == old(self).procs@.len(),
            forall|j: int|
                0 <= j < old(self).procs@.len() ==> final(self).procs@[j]
                    == (ProcessRecord {
                    trap_exit: final(self).procs@[j].trap_exit,
                    ..old(self).procs@[j]
                }),
            forall|q: Pid|
                q != p ==> #[trigger] final(self).traps(q) == old(self).traps(q),
            forall|q: Pid| #[trigger] final(self).is_alive(q) == old(self).is_alive(q),
            forall|q: Pid|
                old(self).has_proc(q) ==> #[trigger] final(self).mailbox_of(q) == old(self).mailbox_of(q),
            forall|q: Pid| #[trigger] final(self).has_proc(q) == old(self).has_proc(q),
    {
        let found = self.find_index(p);
        match found {
            None => {},
            Some(i) => {
                self.procs[i].trap_exit = trap_exit;
                proof {
                    self.lemma_idx(p, i as int);
                    old(self).lemma_idx(p, i as int);
                    assert forall|q: Pid| true implies #[trigger] self.has_proc(q) == old(self).has_proc(q) by {
                        if old(self).has_proc(q) {
                            let j = old(self).idx_of(q);
                            self.lemma_idx(q, j);
                        }
                        if self.has_proc(q) {
                            let j = self.idx_of(q);
                            old(self).lemma_idx(q, j);
                        }
                    }
                    assert forall|q: Pid| true implies #[trigger] self.is_alive(q) == old(self).is_alive(q) by {
                        if old(self).has_proc(q) {
                            let j = old(self).idx_of(q);
                            self.lemma_idx(q, j);
                        }
                        if self.has_proc(q) {
                            let j = self.idx_of(q);
                            old(self).lemma_idx(q, j);
                        }
                    }
                    assert forall|q: Pid| old(self).has_proc(q) implies #[trigger] self.mailbox_of(
                        q,
                    ) == old(self).mailbox_of(q) by {
                        let j = old(self).idx_of(q);
                        old(self).lemma_idx(q, j);
                        self.lemma_idx(q, j);
                    }
                    assert forall|q: Pid| q != p implies #[trigger] self.traps(q) == old(self).traps(q) by {
                        if old(self).has_proc(q) {
                            let j = old(self).idx_of(q);
                            self.lemma_idx(q, j);
                        }
                        if self.has_proc(q) {
                            let j = self.idx_of(q);
                            old(self).lemma_idx(q, j);
                        }
                    }
                }
            },
        }
    }
    /// Appends one message to the mailbox of the record at `i`.
    fn push_to_mailbox(&mut self, i: usize, m: Message)
        requires
            old(self).wf(),
            i < old(self).procs@.len(),
            down_ref_ok(m, old(self).next_ref),
        ensures
            final(self).wf(),
            final(self).node == old(self).node,
            final(self).next_serial == old(self).next_serial,
            final(self).next_ref == old(self).next_ref,
            final(self).links@ == old(self).links@,
            final(self).monitors@ == old(self).monitors@,
            final(self).procs@.len() == old(self).procs@.len(),
            forall|j: int|
                0 <= j < old(self).procs@.len() && j != i ==> final(self).procs@[j] == old(self).procs@[j],
            final(self).procs@[i as int] == (ProcessRecord {
                mailbox: final(self).procs@[i as int].mailbox,
                ..old(self).procs@[i as int]
            }),
            final(self).procs@[i as int].mailbox@ == old(self).procs@[i as int].mailbox@.push(m),
    {
        self.procs[i].mailbox.push(m);
    }

    /// Whether some link edge joins `p` and `q`.
    pub fn is_linked(&self, p: Pid, q: Pid) -> (r: bool)
        ensures
            r == self.linked(p, q),
    {
        let mut k: usize = 0;
        while k < self.links.len()
            invariant
                k <= self.links@.len(),
                forall|l: int| 0 <= l < k ==> !edge_joins(self.links@[l], p, q),
            decreases self.links@.len() - k,
        {
            let e = self.links[k];
            if (e.a == p && e.b == q) || (e.a == q && e.b == p) {
                assert(edge_joins(self.links@[k as int], p, q));
                return true;
            }
            k += 1;
        }
        false
    }

    /// Links two live processes. One edge serves both ends, so the link
    /// invariant — `q` is linked to `p` exactly when `p` is linked to
    /// `q` — holds by construction at every observable point. Linking a
    /// process to itself, to a dead process, or twice does nothing.
    pub fn link(&mut self, p: Pid, q: Pid)
        requires
            old(self).wf(),
        ensures
            final(self).wf(),
            final(self).procs@ == old(self).procs@,
            final(self).monitors@ == old(self).monitors@,
            final(self).node == old(self).node,
            final(self).next_serial == old(self).next_serial,
            final(self).next_ref == old(self).next_ref,
            final(self).linked(p, q) == (old(self).linked(p, q) || (old(self).is_alive(p) && old(self).is_alive(q) && p != q)),
            forall|r: Pid, s: Pid|
                !same_pair(r, s, p, q) ==> #[trigger] final(self).linked(r, s) == old(self).linked(r, s),
    {
        if p.node == q.node && p.serial == q.serial {
            assert(p == q);
            return ;
        }
        if self.is_linked(p, q) {
            return ;
        }
        let pi = self.find_index(p);
        let qi = self.find_index(q);
        let p_alive = match pi {
            Some(i) => self.procs[i].alive,
            None => false,
        };
        let q_alive = match qi {
            Some(i) => self.procs[i].alive,
            None => false,
        };
        proof {
            match pi {
                Some(i) => { self.lemma_idx(p, i as int); },
                None => {},
            }
            match qi {
                Some(i) => { self.lemma_idx(q, i as int); },
                None => {},
            }
            assert(p_alive == self.is_alive(p));
            assert(q_alive == self.is_alive(q));
        }
        if !(p_alive && q_alive) {
            return ;
        }

        let ghost before = self.links@;
        self.links.push(LinkEdge { a: p, b: q });

        proof {
            assert(edge_joins(self.links@[before.len() as int], p, q));
            assert(self.linked(p, q));
            assert forall|r: Pid, s: Pid| !same_pair(r, s, p, q) implies #[trigger] self.linked(
                r,
                s,
            ) == old(self).linked(r, s) by {
                if old(self).linked(r, s) {
                    let k = choose|k: int|
                        0 <= k < before.len() && edge_joins(before[k], r, s);
                    assert(edge_joins(self.links@[k], r, s));
                }
                if self.linked(r, s) {
                    let k = choose|k: int|
                        0 <= k < self.links@.len() && edge_joins(self.links@[k], r, s);
                    if k < before.len() {
                        assert(edge_joins(before[k], r, s));
                        assert(old(self).linked(r, s));
                    } else {
                        assert(self.links@[k] == (LinkEdge { a: p, b: q }));
                        assert(same_pair(r, s, p, q));
                    }
                }
            }
        }
    }

    /// Severs the link between `p` and `q`, both ends at once. Every other
    /// link is untouched.
    pub fn unlink(&mut self, p: Pid, q: Pid)
        requires
            old(self).wf(),
        ensures
            final(self).wf(),
            final(self).procs@ == old(self).procs@,
            final(self).monitors@ == old(self).monitors@,
            final(self).node == old(self).node,
            final(self).next_serial == old(self).next_serial,
            final(self).next_ref == old(self).next_ref,
            !final(self).linked(p, q),
            forall|r: Pid, s: Pid|
                !same_pair(r, s, p, q) ==> #[trigger] final(self).linked(r, s) == old(self).linked(r, s),
    {
        let ghost before = self.links@;
        let mut kept: Vec<LinkEdge> = Vec::new();
        let mut k: usize = 0;

        while k < self.links.len()
            invariant
                k <= before.len(),
                self.links@ == before,
                forall|l: int|
                    0 <= l < kept@.len() ==> !edge_joins(#[trigger] kept@[l], p, q)
                        && before.contains(kept@[l]),
                forall|l: int|
                    0 <= l < k && !edge_joins(before[l], p, q) ==> kept@.contains(before[l]),
            decreases before.len() - k,
        {
            let e = self.links[k];
            if !((e.a == p && e.b == q) || (e.a == q && e.b == p)) {
                let ghost prevkept = kept@;
                kept.push(e);
                proof {
                    assert(kept@[prevkept.len() as int] == before[k as int]);
                    assert(forall|m: LinkEdge|
                        prevkept.contains(m) ==> #[trigger] kept@.contains(m));
                }
            }
            k += 1;
        }

        self.links = kept;

        proof {
            assert forall|r: Pid, s: Pid| !same_pair(r, s, p, q) implies #[trigger] self.linked(
                r,
                s,
            ) == old(self).linked(r, s) by {
                if old(self).linked(r, s) {
                    let l = choose|l: int| 0 <= l < before.len() && edge_joins(before[l], r, s);
                    assert(!edge_joins(before[l], p, q));
                    assert(self.links@.contains(before[l]));
                    let m = choose|m: int|
                        0 <= m < self.links@.len() && self.links@[m] == before[l];
                    assert(edge_joins(self.links@[m], r, s));
                }
                if self.linked(r, s) {
                    let l = choose|l: int|
                        0 <= l < self.links@.len() && edge_joins(self.links@[l], r, s);
                    assert(before.contains(self.links@[l]));
                    let m = choose|m: int| 0 <= m < before.len() && before[m] == self.links@[l];
                    assert(edge_joins(before[m], r, s));
                }
            }
        }
    }

    /// Starts observing `subject` on behalf of `watcher` and returns the
    /// fresh, never-reused reference tagging the monitor. Monitoring a
    /// dead or unknown process delivers `ProcessDown` with reason
    /// `"noproc"` at once instead of recording anything.
    pub fn monitor(&mut self, watcher: Pid, subject: Pid) -> (r: Reference)
        requires
            old(self).wf(),
            old(self).has_proc(watcher),
            old(self).next_ref < u64::MAX,
        ensures
            final(self).wf(),
            r.id == old(self).next_ref,
            !old(self).monitored(r),
            final(self).next_ref == old(self).next_ref + 1,
            final(self).node == old(self).node,
            final(self).next_serial == old(self).next_serial,
            final(self).links@ == old(self).links@,
            old(self).is_alive(subject) ==> {
                &&& final(self).monitors@ == old(self).monitors@.push(
                    MonitorEntry { reference: r, watcher, subject },
                )
                &&& final(self).procs@ == old(self).procs@
            },
            !old(self).is_alive(subject) ==> {
                &&& final(self).monitors@ == old(self).monitors@
                &&& final(self).procs@.len() == old(self).procs@.len()
                &&& forall|j: int|
                    0 <= j < old(self).procs@.len() && j != old(self).idx_of(watcher) ==> final(self).procs@[j] == old(self).procs@[j]
                &&& final(self).procs@[old(self).idx_of(watcher)] == (ProcessRecord {
                    mailbox: final(self).procs@[old(self).idx_of(watcher)].mailbox,
                    ..old(self).procs@[old(self).idx_of(watcher)]
                })
                &&& final(self).mailbox_of(watcher) == old(self).mailbox_of(watcher).push(
                    final(self).mailbox_of(watcher).last(),
                )
                &&& (final(self).mailbox_of(watcher).last() matches Message::System(
                    SystemMessage::ProcessDown(s2, r2, why),
                ) && s2 == subject && r2 == r && why.spec_is_custom("noproc"@))
            },
    {
        let reference = Reference { id: self.next_ref };
        self.next_ref = self.next_ref + 1;

        proof {
            assert forall|k: int| 0 <= k < self.monitors@.len() implies self.monitors@[k].reference
                != reference by {
                assert(self.monitors@[k].reference.id < reference.id);
            }
        }

        let si = self.find_index(subject);
        let s_alive = match si {
            Some(i) => self.procs[i].alive,
            None => false,
        };
        proof {
            match si {
                Some(i) => { self.lemma_idx(subject, i as int); },
                None => {},
            }
            assert(s_alive == self.is_alive(subject));
        }

        if s_alive {
            self.monitors.push(MonitorEntry { reference, watcher, subject });
        } else {
            let wi = self.find_index(watcher).unwrap();
            proof {
                self.lemma_idx(watcher, wi as int);
            }
            self.push_to_mailbox(
                wi,
                Message::System(
                    SystemMessage::ProcessDown(subject, reference, ExitReason::custom("noproc")),
                ),
            );
            proof {
                self.lemma_idx(watcher, wi as int);
            }
        }

        reference
    }

    /// Forgets the monitor tagged `r`, if any: after this, that reference
    /// can never fire. Mailboxes are untouched, so a `ProcessDown` that
    /// already fired stays where it is.
    pub fn demonitor(&mut self, r: Reference)
        requires
            old(self).wf(),
        ensures
            final(self).wf(),
            final(self).procs@ == old(self).procs@,
            final(self).links@ == old(self).links@,
            final(self).node == old(self).node,
            final(self).next_serial == old(self).next_serial,
            final(self).next_ref == old(self).next_ref,
            !final(self).monitored(r),
            forall|e: MonitorEntry|
                e.reference != r ==> (final(self).monitors@.contains(e) == old(self).monitors@.contains(e)),
    {
        let ghost before = self.monitors@;
        let mut kept: Vec<MonitorEntry> = Vec::new();
        let mut k: usize = 0;

        while k < self.monitors.len()
            invariant
                k <= before.len(),
                self.monitors@ == before,
                old(self).wf(),
                before == old(self).monitors@,
                forall|l: int|
                    0 <= l < kept@.len() ==> (#[trigger] kept@[l]).reference != r,
                forall|l: int|
                    0 <= l < kept@.len() ==> exists|m: int|
                        0 <= m < k && before[m] == #[trigger] kept@[l],
                forall|l1: int, l2: int|
                    0 <= l1 < kept@.len() && 0 <= l2 < kept@.len() && l1 != l2
                        ==> (#[trigger] kept@[l1]).reference != (#[trigger] kept@[l2]).reference,
                forall|l: int|
                    0 <= l < k && before[l].reference != r ==> kept@.contains(before[l]),
            decreases before.len() - k,
        {
            let e = self.monitors[k];
            if !(e.reference == r) {
                let ghost prevkept = kept@;
                proof {
                    assert forall|l: int| 0 <= l < prevkept.len() implies (
                    #[trigger] prevkept[l]).reference != e.reference by {
                        let m = choose|m: int| 0 <= m < k && before[m] == prevkept[l];
                        assert(before[m].reference != before[k as int].reference);
                    }
                }
                kept.push(e);
                proof {
                    assert(kept@[prevkept.len() as int] == before[k as int]);
                    assert(forall|m: MonitorEntry|
                        prevkept.contains(m) ==> #[trigger] kept@.contains(m));
                }
            }
            k += 1;
        }

        self.monitors = kept;

        proof {
            assert forall|e: MonitorEntry| e.reference != r implies (self.monitors@.contains(e)
                == old(self).monitors@.contains(e)) by {
                if old(self).monitors@.contains(e) {
                    let l = choose|l: int| 0 <= l < before.len() && before[l] == e;
                    assert(kept@.contains(before[l]));
                }
                if self.monitors@.contains(e) {
                    let l = choose|l: int|
                        0 <= l < self.monitors@.len() && self.monitors@[l] == e;
                    assert(before.contains(e));
                }
            }
            assert forall|l: int| 0 <= l < self.monitors@.len() implies self.monitors@[l].reference
                != r by {}
        }
    }

    /// Hands a dying process's exit to one linked peer: a trapping peer
    /// receives `Exit(victim, reason)` in its mailbox; a non-trapping peer
    /// is marked for recursive termination unless the reason is `Normal`.
    fn notify_peer(&mut self, victim: Pid, peer: Pid, reason: &ExitReason) -> (prop: bool)
        requires
            old(self).wf(),
        ensures
            final(self).wf(),
            final(self).node == old(self).node,
            final(self).next_serial == old(self).next_serial,
            final(self).next_ref == old(self).next_ref,
            final(self).links@ == old(self).links@,
            final(self).monitors@ == old(self).monitors@,
            final(self).procs@.len() == old(self).procs@.len(),
            forall|j: int|
                0 <= j < old(self).procs@.len() ==> final(self).procs@[j] == (ProcessRecord {
                    mailbox: final(self).procs@[j].mailbox,
                    ..old(self).procs@[j]
                }),
            prop == (peer != victim && old(self).is_alive(peer) && !old(self).traps(peer)
                && !reason.spec_is_normal()),
            (peer != victim && old(self).is_alive(peer) && old(self).traps(peer)) ==> {
                &&& forall|j: int|
                    0 <= j < old(self).procs@.len() && j != old(self).idx_of(peer) ==> final(self).procs@[j] == old(self).procs@[j]
                &&& final(self).mailbox_of(peer) == old(self).mailbox_of(peer).push(
                    Message::System(SystemMessage::Exit(victim, *reason)),
                )
            },
            !(peer != victim && old(self).is_alive(peer) && old(self).traps(peer)) ==> final(self).procs@ == old(self).procs@,
    {
        if peer.node == victim.node && peer.serial == victim.serial {
            assert(peer == victim);
            return false;
        }
        let pi = self.find_index(peer);
        match pi {
            None => false,
            Some(j) => {
                proof {
                    self.lemma_idx(peer, j as int);
                }
                if !self.procs[j].alive {
                    false
                } else if self.procs[j].trap_exit {
                    self.push_to_mailbox(
                        j,
                        Message::System(SystemMessage::Exit(victim, reason.clone())),
                    );
                    proof {
                        self.lemma_idx(peer, j as int);
                    }
                    false
                } else {
                    !reason.is_normal()
                }
            },
        }
    }

    /// Fires one monitor of a dying process: the watcher, if alive,
    /// receives exactly one `ProcessDown(victim, reference, reason)`.
    fn fire_monitor(&mut self, victim: Pid, watcher: Pid, reference: Reference, reason: &ExitReason)
        requires
            old(self).wf(),
            reference.id < old(self).next_ref,
        ensures
            final(self).wf(),
            final(self).node == old(self).node,
            final(self).next_serial == old(self).next_serial,
            final(self).next_ref == old(self).next_ref,
            final(self).links@ == old(self).links@,
            final(self).monitors@ == old(self).monitors@,
            final(self).procs@.len() == old(self).procs@.len(),
            forall|j: int|
                0 <= j < old(self).procs@.len() ==> final(self).procs@[j] == (ProcessRecord {
                    mailbox: final(self).procs@[j].mailbox,
                    ..old(self).procs@[j]
                }),
            (watcher != victim && old(self).is_alive(watcher)) ==> {
                &&& forall|j: int|
                    0 <= j < old(self).procs@.len() && j != old(self).idx_of(watcher) ==> final(self).procs@[j] == old(self).procs@[j]
                &&& final(self).mailbox_of(watcher) == old(self).mailbox_of(watcher).push(
                    Message::System(SystemMessage::ProcessDown(victim, reference, *reason)),
                )
            },
            !(watcher != victim && old(self).is_alive(watcher)) ==> final(self).procs@ == old(self).procs@,
    {
        if watcher.node == victim.node && watcher.serial == victim.serial {
            assert(watcher == victim);
            return ;
        }
        let wi = self.find_index(watcher);
        match wi {
            None => {},
            Some(j) => {
                proof {
                    self.lemma_idx(watcher, j as int);
                }
                if self.procs[j].alive {
                    self.push_to_mailbox(
                        j,
                        Message::System(
                            SystemMessage::ProcessDown(victim, reference, reason.clone()),
                        ),
                    );
                    proof {
                        self.lemma_idx(watcher, j as int);
                    }
                }
            },
        }
    }

    /// Two kernels whose records agree on pids agree on process identity,
    /// and on liveness and trapping wherever those flags agree too.
    pub proof fn lemma_views_agree_weak(a: Kernel, b: Kernel, p: Pid)
        requires
            a.wf(),
            b.wf(),
            a.procs@.len() == b.procs@.len(),
            forall|j: int| 0 <= j < a.procs@.len() ==> b.procs@[j].pid == a.procs@[j].pid,
        ensures
            b.has_proc(p) == a.has_proc(p),
            a.has_proc(p) ==> b.idx_of(p) == a.idx_of(p),
            (forall|j: int|
                0 <= j < a.procs@.len() ==> b.procs@[j].trap_exit == a.procs@[j].trap_exit)
                ==> b.traps(p) == a.traps(p),
            (forall|j: int|
                0 <= j < a.procs@.len() ==> b.procs@[j].alive == a.procs@[j].alive)
                ==> b.is_alive(p) == a.is_alive(p),
    {
        if a.has_proc(p) {
            let i = a.idx_of(p);
            a.lemma_idx(p, i);
            b.lemma_idx(p, i);
        }
        if b.has_proc(p) {
            let i = b.idx_of(p);
            b.lemma_idx(p, i);
            a.lemma_idx(p, i);
        }
    }

    /// Terminates the single process at record `i` with `reason`: its exit
    /// is handed to every linked peer (a message for trappers, a pending
    /// recursive termination for the rest unless the reason is `Normal`),
    /// every monitor on it fires exactly once and is removed, and its
    /// links are dropped — both ends at once.
    fn kill_one(&mut self, i: usize, reason: &ExitReason) -> (pends: Vec<(Pid, ExitReason)>)
        requires
            old(self).wf(),
            i < old(self).procs@.len(),
            old(self).procs@[i as int].alive,
        ensures
            final(self).wf(),
            final(self).node == old(self).node,
            final(self).next_serial == old(self).next_serial,
            final(self).next_ref == old(self).next_ref,
            final(self).procs@.len() == old(self).procs@.len(),
            forall|j: int|
                0 <= j < old(self).procs@.len() ==> (#[trigger] final(self).procs@[j]).pid == old(self).procs@[j].pid && final(self).procs@[j].trap_exit == old(self).procs@[j].trap_exit && final(self).procs@[j].alive == (old(self).procs@[j].alive && j != i),
            alive_count(final(self).procs@) + 1 == alive_count(old(self).procs@),
            // links: edges at the victim are gone, all others stay
            forall|r: Pid, s: Pid| #[trigger]
                final(self).linked(r, s) == (old(self).linked(r, s) && r != old(self).procs@[i as int].pid && s != old(self).procs@[i as int].pid),
            // monitors: entries on the victim are gone, all others stay
            forall|e: MonitorEntry| #[trigger]
                final(self).monitors@.contains(e) == (old(self).monitors@.contains(e)
                    && e.subject != old(self).procs@[i as int].pid),
            // nothing is ever removed from a mailbox
            forall|q: Pid, f: Pid, w: ExitReason|
                old(self).has_proc(q) && has_exit_from(old(self).mailbox_of(q), f, w)
                    ==> #[trigger] has_exit_from(final(self).mailbox_of(q), f, w),
            // a linked trapping peer is handed the exit as a message
            forall|q: Pid|
                old(self).linked(old(self).procs@[i as int].pid, q) && q != old(self).procs@[i as int].pid && old(self).is_alive(q) && old(self).traps(q)
                    ==> #[trigger] has_exit_from(
                    final(self).mailbox_of(q),
                    old(self).procs@[i as int].pid,
                    *reason,
                ),
            // each monitor on the victim fires exactly once
            forall|e: MonitorEntry|
                old(self).monitors@.contains(e) && e.subject == old(self).procs@[i as int].pid
                    && e.watcher != old(self).procs@[i as int].pid && old(self).is_alive(e.watcher)
                    ==> #[trigger] down_count(
                    final(self).mailbox_of(e.watcher),
                    e.reference,
                ) == down_count(old(self).mailbox_of(e.watcher), e.reference) + 1,
            // a reference without a monitor on the victim keeps its count
            forall|q: Pid, s: Reference|
                old(self).has_proc(q) && !(exists|e: MonitorEntry|
                    old(self).monitors@.contains(e) && e.subject == old(self).procs@[i as int].pid
                        && e.reference == s) ==> #[trigger] down_count(
                    final(self).mailbox_of(q),
                    s,
                ) == down_count(old(self).mailbox_of(q), s),
            // what is marked for recursive termination
            forall|l: int|
                0 <= l < pends@.len() ==> (#[trigger] pends@[l]).1 == *reason && pends@[l].0
                    != old(self).procs@[i as int].pid && !old(self).traps(pends@[l].0),
            reason.spec_is_normal() ==> pends@.len() == 0,
    {
        let ghost init = *old(self);
        let victim = self.procs[i].pid;
        let ghost gvictim = init.procs@[i as int].pid;

        self.procs[i].alive = false;

        let ghost aprocs = self.procs@;

        proof {
            lemma_alive_count_update(
                init.procs@,
                i as int,
                self.procs@[i as int],
                init.procs@.len() as int,
            );
            assert(aprocs == init.procs@.update(i as int, aprocs[i as int]));
            assert(alive_count(aprocs) + 1 == alive_count(init.procs@));
        }

        // Partition the link set: edges at the victim are removed and name
        // the peers to signal; the rest stay.
        let ghost blinks = self.links@;
        let mut kept: Vec<LinkEdge> = Vec::new();
        let mut peers: Vec<Pid> = Vec::new();
        let mut k: usize = 0;

        while k < self.links.len()
            invariant
                k <= blinks.len(),
                self.links@ == blinks,
                forall|l: int|
                    0 <= l < kept@.len() ==> (#[trigger] kept@[l]).a != victim && kept@[l].b
                        != victim && blinks.contains(kept@[l]),
                forall|m: int|
                    0 <= m < k && !(blinks[m].a == victim || blinks[m].b == victim)
                        ==> kept@.contains(blinks[m]),
                forall|m: int|
                    0 <= m < k && (blinks[m].a == victim || blinks[m].b == victim)
                        ==> peers@.contains(
                        if blinks[m].a == victim {
                            blinks[m].b
                        } else {
                            blinks[m].a
                        },
                    ),
            decreases blinks.len() - k,
        {
            let e = self.links[k];
            if e.a == victim || e.b == victim {
                let other = if e.a == victim {
                    e.b
                } else {
                    e.a
                };
                let ghost prevp = peers@;
                peers.push(other);
                proof {
                    assert(peers@[prevp.len() as int] == other);
                    assert(forall|x: Pid| prevp.contains(x) ==> #[trigger] peers@.contains(x));
                }
            } else {
                let ghost prevk = kept@;
                kept.push(e);
                proof {
                    assert(kept@[prevk.len() as int] == blinks[k as int]);
                    assert(forall|x: LinkEdge|
                        prevk.contains(x) ==> #[trigger] kept@.contains(x));
                }
            }
            k += 1;
        }

        self.links = kept;

        // Partition the monitor table: entries on the victim fire, the
        // rest stay.
        let ghost bmons = self.monitors@;
        let mut mkept: Vec<MonitorEntry> = Vec::new();
        let mut fired: Vec<MonitorEntry> = Vec::new();
        let mut k2: usize = 0;

        while k2 < self.monitors.len()
            invariant
                k2 <= bmons.len(),
                self.monitors@ == bmons,
                init.wf(),
                bmons == init.monitors@,
                forall|l: int|
                    0 <= l < mkept@.len() ==> (#[trigger] mkept@[l]).subject != victim,
                forall|l: int|
                    0 <= l < mkept@.len() ==> exists|m: int|
                        0 <= m < k2 && bmons[m] == #[trigger] mkept@[l],
                forall|l1: int, l2: int|
                    0 <= l1 < mkept@.len() && 0 <= l2 < mkept@.len() && l1 != l2 ==> (
                    #[trigger] mkept@[l1]).reference != (#[trigger] mkept@[l2]).reference,
                forall|m: int|
                    0 <= m < k2 && bmons[m].subject != victim ==> mkept@.contains(bmons[m]),
                forall|l: int|
                    0 <= l < fired@.len() ==> (#[trigger] fired@[l]).subject == victim,
                forall|l: int|
                    0 <= l < fired@.len() ==> exists|m: int|
                        0 <= m < k2 && bmons[m] == #[trigger] fired@[l],
                forall|l1: int, l2: int|
                    0 <= l1 < fired@.len() && 0 <= l2 < fired@.len() && l1 != l2 ==> (
                    #[trigger] fired@[l1]).reference != (#[trigger] fired@[l2]).reference,
                forall|m: int|
                    0 <= m < k2 && bmons[m].subject == victim ==> fired@.contains(bmons[m]),
            decreases bmons.len() - k2,
        {
            let e = self.monitors[k2];
            if e.subject.node == victim.node && e.subject.serial == victim.serial {
                assert(e.subject == victim);
                let ghost prevf = fired@;
                proof {
                    assert forall|l: int| 0 <= l < prevf.len() implies (
                    #[trigger] prevf[l]).reference != e.reference by {
                        let m = choose|m: int| 0 <= m < k2 && bmons[m] == prevf[l];
                        assert(bmons[m].reference != bmons[k2 as int].reference);
                    }
                }
                fired.push(e);
                proof {
                    assert(fired@[prevf.len() as int] == bmons[k2 as int]);
                    assert(forall|x: MonitorEntry|
                        prevf.contains(x) ==> #[trigger] fired@.contains(x));
                }
            } else {
                assert(e.subject != victim);
                let ghost prevm = mkept@;
                proof {
                    assert forall|l: int| 0 <= l < prevm.len() implies (
                    #[trigger] prevm[l]).reference != e.reference by {
                        let m = choose|m: int| 0 <= m < k2 && bmons[m] == prevm[l];
                        assert(bmons[m].reference != bmons[k2 as int].reference);
                    }
                }
                mkept.push(e);
                proof {
                    assert(mkept@[prevm.len() as int] == bmons[k2 as int]);
                    assert(forall|x: MonitorEntry|
                        prevm.contains(x) ==> #[trigger] mkept@.contains(x));
                }
            }
            k2 += 1;
        }

        self.monitors = mkept;

        proof {
            assert forall|l: int| 0 <= l < self.monitors@.len() implies (
            #[trigger] self.monitors@[l]).reference.id < self.next_ref by {
                let m = choose|m: int| 0 <= m < bmons.len() && bmons[m] == self.monitors@[l];
            }
        }

        let ghost mid = *self;

        proof {
            assert forall|q: Pid| true implies #[trigger] mid.has_proc(q) == init.has_proc(q)
                && mid.traps(q) == init.traps(q) && (init.has_proc(q) ==> mid.idx_of(q)
                == init.idx_of(q) && mid.mailbox_of(q) == init.mailbox_of(q)) by {
                assert(forall|j: int|
                    0 <= j < init.procs@.len() ==> mid.procs@[j].pid == init.procs@[j].pid);
                assert(forall|j: int|
                    0 <= j < init.procs@.len() ==> mid.procs@[j].trap_exit
                        == init.procs@[j].trap_exit);
                Self::lemma_views_agree_weak(init, mid, q);
            }
            assert forall|q: Pid|
                q != gvictim && init.has_proc(q) implies #[trigger] mid.is_alive(q) == init.is_alive(
                q,
            ) by {
                let qi = init.idx_of(q);
                init.lemma_idx(q, qi);
                mid.lemma_idx(q, qi);
                if qi == i as int {
                    assert(init.procs@[qi].pid == gvictim);
                }
            }
        }

        proof {
            assert forall|l: int| 0 <= l < fired@.len() implies (
            #[trigger] fired@[l]).reference.id < init.next_ref by {
                let x = fired@[l];
                assert(exists|m: int| 0 <= m < k2 && bmons[m] == x);
                let m = choose|m: int| 0 <= m < k2 && bmons[m] == x;
                assert(init.monitors@[m].reference.id < init.next_ref);
            }
        }

        // Hand the exit to every linked peer.
        let ghost gpeers = peers@;
        let mut pends: Vec<(Pid, ExitReason)> = Vec::new();
        let mut t: usize = 0;

        while t < peers.len()
            invariant
                t <= gpeers.len(),
                peers@ == gpeers,
                mid.wf(),
                self.wf(),
                init.wf(),
                i < init.procs@.len(),
                victim == init.procs@[i as int].pid,
                forall|l: int|
                    0 <= l < fired@.len() ==> (#[trigger] fired@[l]).reference.id
                        < init.next_ref,
                self.node == mid.node,
                self.next_serial == mid.next_serial,
                self.next_ref == mid.next_ref,
                self.links@ == mid.links@,
                self.monitors@ == mid.monitors@,
                self.procs@.len() == mid.procs@.len(),
                forall|j: int|
                    0 <= j < mid.procs@.len() ==> #[trigger] self.procs@[j] == (ProcessRecord {
                        mailbox: self.procs@[j].mailbox,
                        ..mid.procs@[j]
                    }),
                forall|q: Pid, s: Reference|
                    mid.has_proc(q) ==> #[trigger] down_count(self.mailbox_of(q), s)
                        == down_count(mid.mailbox_of(q), s),
                forall|q: Pid, f: Pid, w: ExitReason|
                    mid.has_proc(q) && has_exit_from(mid.mailbox_of(q), f, w) ==> #[trigger] has_exit_from(
                        self.mailbox_of(q),
                        f,
                        w,
                    ),
                forall|m: int|
                    0 <= m < t && gpeers[m] != victim && mid.is_alive(gpeers[m]) && mid.traps(
                        gpeers[m],
                    ) ==> #[trigger] has_exit_from(
                        self.mailbox_of(gpeers[m]),
                        victim,
                        *reason,
                    ),
                forall|l: int|
                    0 <= l < pends@.len() ==> (#[trigger] pends@[l]).1 == *reason && pends@[l].0
                        != victim && !mid.traps(pends@[l].0),
                reason.spec_is_normal() ==> pends@.len() == 0,
            decreases gpeers.len() - t,
        {
            let q = peers[t];
            let ghost pre = *self;
            let prop = self.notify_peer(victim, q, reason);
            proof {
                assert forall|x: Pid| true implies #[trigger] self.has_proc(x) == pre.has_proc(x)
                    && self.is_alive(x) == pre.is_alive(x) && self.traps(x) == pre.traps(x) && (
                pre.has_proc(x) ==> self.idx_of(x) == pre.idx_of(x)) by {
                    Self::lemma_views_agree_weak(pre, *self, x);
                }
                if q != victim && pre.is_alive(q) && pre.traps(q) {
                    let qi = pre.idx_of(q);
                    assert(pre.procs@[qi].pid == q);
                    assert forall|x: Pid, s: Reference| mid.has_proc(x) implies #[trigger] down_count(
                        self.mailbox_of(x),
                        s,
                    ) == down_count(mid.mailbox_of(x), s) by {
                        Self::lemma_views_agree_weak(mid, pre, x);
                        assert(pre.has_proc(x));
                        assert(down_count(pre.mailbox_of(x), s) == down_count(
                            mid.mailbox_of(x),
                            s,
                        ));
                        if x == q {
                            lemma_down_count_push(
                                pre.mailbox_of(q),
                                Message::System(SystemMessage::Exit(victim, *reason)),
                                s,
                            );
                        } else {
                            let xi = pre.idx_of(x);
                            assert(pre.procs@[xi].pid == x);
                            assert(xi != qi);
                            assert(self.procs@[xi] == pre.procs@[xi]);
                            self.lemma_idx(x, xi);
                            assert(self.mailbox_of(x) == pre.mailbox_of(x));
                        }
                    }
                    assert forall|x: Pid, f: Pid, w: ExitReason| mid.has_proc(x) && has_exit_from(
                        pre.mailbox_of(x),
                        f,
                        w,
                    ) implies #[trigger] has_exit_from(self.mailbox_of(x), f, w) by {
                        Self::lemma_views_agree_weak(mid, pre, x);
                        assert(pre.has_proc(x));
                        if x == q {
                            let wit = choose|ii: int|
                                0 <= ii < pre.mailbox_of(q).len() && pre.mailbox_of(q)[ii]
                                    == Message::System(SystemMessage::Exit(f, w));
                            assert(self.mailbox_of(q) == pre.mailbox_of(q).push(
                                Message::System(SystemMessage::Exit(victim, *reason)),
                            ));
                            assert(self.mailbox_of(q)[wit] == Message::System(
                                SystemMessage::Exit(f, w),
                            ));
                        } else {
                            let xi = pre.idx_of(x);
                            assert(pre.procs@[xi].pid == x);
                            assert(xi != qi);
                            assert(self.procs@[xi] == pre.procs@[xi]);
                            self.lemma_idx(x, xi);
                            assert(self.mailbox_of(x) == pre.mailbox_of(x));
                        }
                    }
                    assert(self.mailbox_of(q).last() == Message::System(
                        SystemMessage::Exit(victim, *reason),
                    ));
                    assert(has_exit_from(self.mailbox_of(q), victim, *reason));
                    assert forall|m: int|
                        0 <= m < t + 1 && gpeers[m] != victim && mid.is_alive(gpeers[m])
                            && mid.traps(gpeers[m]) implies #[trigger] has_exit_from(
                        self.mailbox_of(gpeers[m]),
                        victim,
                        *reason,
                    ) by {
                        if m < t {
                            assert(has_exit_from(pre.mailbox_of(gpeers[m]), victim, *reason));
                        } else {
                            assert(gpeers[m] == q);
                        }
                    }
                } else {
                    assert(self.procs@ == pre.procs@);
                    assert forall|x: Pid| mid.has_proc(x) implies #[trigger] self.mailbox_of(x)
                        == pre.mailbox_of(x) by {
                        Self::lemma_views_agree_weak(mid, pre, x);
                        assert(pre.has_proc(x));
                        let xi = pre.idx_of(x);
                        assert(pre.procs@[xi].pid == x);
                        self.lemma_idx(x, xi);
                    }
                    assert forall|m: int|
                        0 <= m < t + 1 && gpeers[m] != victim && mid.is_alive(gpeers[m])
                            && mid.traps(gpeers[m]) implies #[trigger] has_exit_from(
                        self.mailbox_of(gpeers[m]),
                        victim,
                        *reason,
                    ) by {
                        Self::lemma_views_agree_weak(mid, pre, gpeers[m]);
                        if m < t {
                            assert(has_exit_from(pre.mailbox_of(gpeers[m]), victim, *reason));
                            assert(self.mailbox_of(gpeers[m]) == pre.mailbox_of(gpeers[m]));
                        } else {
                            assert(gpeers[m] == q);
                            assert(pre.is_alive(q) && pre.traps(q));
                        }
                    }
                }
            }
            if prop {
                let ghost prevpend = pends@;
                pends.push((q, reason.clone()));
                proof {
                    assert(pends@[prevpend.len() as int] == (q, *reason));
                }
            }
            t += 1;
        }

        let ghost mid2 = *self;

        // Fire every monitor that was watching the victim.
        let ghost gfired = fired@;
        let mut t2: usize = 0;

        proof {
            assert forall|l: int| 0 <= l < gfired.len() implies (
            #[trigger] gfired[l]).reference.id < init.next_ref by {
                assert(gfired[l] == fired@[l]);
            }
        }

        while t2 < fired.len()
            invariant
                t2 <= gfired.len(),
                fired@ == gfired,
                mid.wf(),
                mid2.wf(),
                self.wf(),
                init.wf(),
                i < init.procs@.len(),
                victim == init.procs@[i as int].pid,
                forall|l: int|
                    0 <= l < gfired.len() ==> (#[trigger] gfired[l]).subject == victim,
                forall|l1: int, l2: int|
                    0 <= l1 < gfired.len() && 0 <= l2 < gfired.len() && l1 != l2 ==> (
                    #[trigger] gfired[l1]).reference != (#[trigger] gfired[l2]).reference,
                forall|l: int|
                    0 <= l < gfired.len() ==> (#[trigger] gfired[l]).reference.id
                        < init.next_ref,
                self.next_ref == init.next_ref,
                self.node == mid2.node,
                self.next_serial == mid2.next_serial,
                self.next_ref == mid2.next_ref,
                self.links@ == mid2.links@,
                self.monitors@ == mid2.monitors@,
                self.procs@.len() == mid2.procs@.len(),
                mid2.procs@.len() == mid.procs@.len(),
                forall|j: int|
                    0 <= j < mid2.procs@.len() ==> #[trigger] self.procs@[j] == (ProcessRecord {
                        mailbox: self.procs@[j].mailbox,
                        ..mid2.procs@[j]
                    }),
                forall|j: int|
                    0 <= j < mid.procs@.len() ==> #[trigger] mid2.procs@[j] == (ProcessRecord {
                        mailbox: mid2.procs@[j].mailbox,
                        ..mid.procs@[j]
                    }),
                forall|l: int|
                    0 <= l < t2 && gfired[l].watcher != victim && mid.is_alive(gfired[l].watcher)
                        ==> #[trigger] down_count(
                        self.mailbox_of(gfired[l].watcher),
                        gfired[l].reference,
                    ) == down_count(mid2.mailbox_of(gfired[l].watcher), gfired[l].reference) + 1,
                forall|q: Pid, s: Reference|
                    mid.has_proc(q) && !(exists|l: int|
                        0 <= l < t2 && (#[trigger] gfired[l]).reference == s) ==> #[trigger] down_count(
                        self.mailbox_of(q),
                        s,
                    ) == down_count(mid2.mailbox_of(q), s),
                forall|q: Pid, f: Pid, w: ExitReason|
                    mid.has_proc(q) && has_exit_from(mid2.mailbox_of(q), f, w) ==> #[trigger] has_exit_from(
                        self.mailbox_of(q),
                        f,
                        w,
                    ),
            decreases gfired.len() - t2,
        {
            let e = fired[t2];
            let ghost pre = *self;
            proof {
                assert(e == gfired[t2 as int]);
                assert(e.reference.id < self.next_ref);
            }
            self.fire_monitor(victim, e.watcher, e.reference, reason);
            proof {
                assert forall|x: Pid| true implies #[trigger] self.has_proc(x) == pre.has_proc(x)
                    && self.is_alive(x) == pre.is_alive(x) && self.traps(x) == pre.traps(x) && (
                pre.has_proc(x) ==> self.idx_of(x) == pre.idx_of(x)) by {
                    Self::lemma_views_agree_weak(pre, *self, x);
                }
                if e.watcher != victim && pre.is_alive(e.watcher) {
                    let wi = pre.idx_of(e.watcher);
                    assert(pre.procs@[wi].pid == e.watcher);
                    assert forall|x: Pid, s: Reference| mid.has_proc(x) implies #[trigger] (
                    down_count(self.mailbox_of(x), s)) == down_count(pre.mailbox_of(x), s) + (
                    if x == e.watcher && s == e.reference {
                        1nat
                    } else {
                        0nat
                    }) by {
                        Self::lemma_views_agree_weak(mid, pre, x);
                        assert(pre.has_proc(x));
                        if x == e.watcher {
                            assert(self.mailbox_of(x) == pre.mailbox_of(x).push(
                                Message::System(
                                    SystemMessage::ProcessDown(victim, e.reference, *reason),
                                ),
                            ));
                            lemma_down_count_push(
                                pre.mailbox_of(x),
                                Message::System(
                                    SystemMessage::ProcessDown(victim, e.reference, *reason),
                                ),
                                s,
                            );
                        } else {
                            let xi = pre.idx_of(x);
                            assert(pre.procs@[xi].pid == x);
                            assert(xi != wi);
                            assert(self.procs@[xi] == pre.procs@[xi]);
                            self.lemma_idx(x, xi);
                            assert(self.mailbox_of(x) == pre.mailbox_of(x));
                        }
                    }
                    assert forall|x: Pid, f: Pid, w: ExitReason| mid.has_proc(x)
                        && has_exit_from(pre.mailbox_of(x), f, w) implies #[trigger] has_exit_from(
                        self.mailbox_of(x),
                        f,
                        w,
                    ) by {
                        Self::lemma_views_agree_weak(mid, pre, x);
                        assert(pre.has_proc(x));
                        if x == e.watcher {
                            let wit = choose|ii: int|
                                0 <= ii < pre.mailbox_of(x).len() && pre.mailbox_of(x)[ii]
                                    == Message::System(SystemMessage::Exit(f, w));
                            assert(self.mailbox_of(x) == pre.mailbox_of(x).push(
                                Message::System(
                                    SystemMessage::ProcessDown(victim, e.reference, *reason),
                                ),
                            ));
                            assert(self.mailbox_of(x)[wit] == Message::System(
                                SystemMessage::Exit(f, w),
                            ));
                        } else {
                            let xi = pre.idx_of(x);
                            assert(pre.procs@[xi].pid == x);
                            assert(xi != wi);
                            assert(self.procs@[xi] == pre.procs@[xi]);
                            self.lemma_idx(x, xi);
                            assert(self.mailbox_of(x) == pre.mailbox_of(x));
                        }
                    }
                    assert forall|l: int|
                        0 <= l < t2 + 1 && gfired[l].watcher != victim && mid.is_alive(
                            gfired[l].watcher,
                        ) implies #[trigger] down_count(
                        self.mailbox_of(gfired[l].watcher),
                        gfired[l].reference,
                    ) == down_count(mid2.mailbox_of(gfired[l].watcher), gfired[l].reference)
                        + 1 by {
                        Self::lemma_views_agree_weak(mid, pre, gfired[l].watcher);
                        if l < t2 {
                            assert(down_count(pre.mailbox_of(gfired[l].watcher), gfired[l].reference)
                                == down_count(
                                mid2.mailbox_of(gfired[l].watcher),
                                gfired[l].reference,
                            ) + 1);
                            assert(gfired[l].reference != gfired[t2 as int].reference);
                        } else {
                            assert(gfired[l] == gfired[t2 as int]);
                            assert(!(exists|l2: int|
                                0 <= l2 < t2 && (#[trigger] gfired[l2]).reference
                                    == gfired[l].reference));
                            assert(down_count(pre.mailbox_of(gfired[l].watcher), gfired[l].reference)
                                == down_count(
                                mid2.mailbox_of(gfired[l].watcher),
                                gfired[l].reference,
                            ));
                        }
                    }
                    assert forall|q2: Pid, s: Reference|
                        mid.has_proc(q2) && !(exists|l: int|
                            0 <= l < t2 + 1 && (#[trigger] gfired[l]).reference
                                == s) implies #[trigger] down_count(self.mailbox_of(q2), s)
                        == down_count(mid2.mailbox_of(q2), s) by {
                        assert(!(exists|l: int|
                            0 <= l < t2 && (#[trigger] gfired[l]).reference == s));
                        assert(down_count(pre.mailbox_of(q2), s) == down_count(
                            mid2.mailbox_of(q2),
                            s,
                        ));
                        assert(s != gfired[t2 as int].reference);
                    }
                } else {
                    assert(self.procs@ == pre.procs@);
                    assert forall|x: Pid| mid.has_proc(x) implies #[trigger] self.mailbox_of(x)
                        == pre.mailbox_of(x) by {
                        Self::lemma_views_agree_weak(mid, pre, x);
                        assert(pre.has_proc(x));
                        let xi = pre.idx_of(x);
                        assert(pre.procs@[xi].pid == x);
                        self.lemma_idx(x, xi);
                    }
                    assert forall|l: int|
                        0 <= l < t2 + 1 && gfired[l].watcher != victim && mid.is_alive(
                            gfired[l].watcher,
                        ) implies #[trigger] down_count(
                        self.mailbox_of(gfired[l].watcher),
                        gfired[l].reference,
                    ) == down_count(mid2.mailbox_of(gfired[l].watcher), gfired[l].reference)
                        + 1 by {
                        Self::lemma_views_agree_weak(mid, pre, gfired[l].watcher);
                        if l < t2 {
                            assert(down_count(pre.mailbox_of(gfired[l].watcher), gfired[l].reference)
                                == down_count(
                                mid2.mailbox_of(gfired[l].watcher),
                                gfired[l].reference,
                            ) + 1);
                            assert(self.mailbox_of(gfired[l].watcher) == pre.mailbox_of(
                                gfired[l].watcher,
                            ));
                        } else {
                            assert(gfired[l] == gfired[t2 as int]);
                            assert(pre.is_alive(e.watcher) == mid.is_alive(e.watcher));
                        }
                    }
                }
            }
            t2 += 1;
        }

        proof {
            // records: pid and trap kept, only the victim's liveness flips
            assert forall|j: int| 0 <= j < init.procs@.len() implies (
            #[trigger] self.procs@[j]).pid == init.procs@[j].pid && self.procs@[j].trap_exit
                == init.procs@[j].trap_exit && self.procs@[j].alive == (init.procs@[j].alive && j
                != i) by {
                assert(mid.procs@[j] == aprocs[j]);
            }

            // the alive census drops by exactly one
            assert(self.procs@.len() == aprocs.len());
            lemma_alive_count_congruent(self.procs@, aprocs, aprocs.len() as int);

            // links: edges at the victim are gone, the rest are untouched
            assert forall|r: Pid, s: Pid| true implies #[trigger] self.linked(r, s) == (
            init.linked(r, s) && r != gvictim && s != gvictim) by {
                assert(self.links@ == kept@);
                if self.linked(r, s) {
                    let l = choose|l: int|
                        0 <= l < self.links@.len() && edge_joins(self.links@[l], r, s);
                    assert(blinks.contains(kept@[l]));
                    let m = choose|m: int| 0 <= m < blinks.len() && blinks[m] == kept@[l];
                    assert(edge_joins(init.links@[m], r, s));
                    assert(init.linked(r, s));
                }
                if init.linked(r, s) && r != gvictim && s != gvictim {
                    let m = choose|m: int| 0 <= m < blinks.len() && edge_joins(blinks[m], r, s);
                    assert(!(blinks[m].a == gvictim || blinks[m].b == gvictim));
                    assert(kept@.contains(blinks[m]));
                    let l = choose|l: int| 0 <= l < kept@.len() && kept@[l] == blinks[m];
                    assert(edge_joins(self.links@[l], r, s));
                }
            }

            // monitors: entries on the victim are gone, the rest stay
            assert forall|e: MonitorEntry| true implies #[trigger] self.monitors@.contains(e) == (
            init.monitors@.contains(e) && e.subject != gvictim) by {
                assert(self.monitors@ == mkept@);
                if self.monitors@.contains(e) {
                    let l = choose|l: int| 0 <= l < mkept@.len() && mkept@[l] == e;
                    let m = choose|m: int| 0 <= m < bmons.len() && bmons[m] == mkept@[l];
                    assert(init.monitors@[m] == e);
                    assert(init.monitors@.contains(e));
                }
                if init.monitors@.contains(e) && e.subject != gvictim {
                    let m = choose|m: int| 0 <= m < bmons.len() && bmons[m] == e;
                    assert(mkept@.contains(bmons[m]));
                }
            }

            // mailboxes only grow: exit entries persist
            assert forall|q: Pid, f: Pid, w: ExitReason|
                init.has_proc(q) && has_exit_from(init.mailbox_of(q), f, w) implies #[trigger] has_exit_from(
                self.mailbox_of(q),
                f,
                w,
            ) by {
                assert(mid.has_proc(q));
                assert(mid.mailbox_of(q) == init.mailbox_of(q));
                assert(has_exit_from(mid2.mailbox_of(q), f, w));
                assert(has_exit_from(self.mailbox_of(q), f, w));
            }

            // every linked trapping peer received the exit message
            assert forall|q: Pid|
                init.linked(gvictim, q) && q != gvictim && init.is_alive(q) && init.traps(
                q,
            ) implies #[trigger] has_exit_from(self.mailbox_of(q), gvictim, *reason) by {
                let m = choose|m: int|
                    0 <= m < blinks.len() && edge_joins(blinks[m], gvictim, q);
                assert(blinks[m].a == gvictim || blinks[m].b == gvictim);
                assert((if blinks[m].a == gvictim {
                    blinks[m].b
                } else {
                    blinks[m].a
                }) == q);
                assert(gpeers.contains(q));
                let t0 = choose|t0: int| 0 <= t0 < gpeers.len() && gpeers[t0] == q;
                assert(mid.is_alive(q));
                assert(mid.traps(q));
                assert(has_exit_from(mid2.mailbox_of(q), gvictim, *reason));
                assert(has_exit_from(self.mailbox_of(q), gvictim, *reason));
            }

            // each monitor of the victim fired exactly once
            assert forall|e: MonitorEntry|
                init.monitors@.contains(e) && e.subject == gvictim && e.watcher != gvictim
                    && init.is_alive(e.watcher) implies #[trigger] down_count(
                self.mailbox_of(e.watcher),
                e.reference,
            ) == down_count(init.mailbox_of(e.watcher), e.reference) + 1 by {
                let m = choose|m: int| 0 <= m < bmons.len() && bmons[m] == e;
                assert(gfired.contains(e));
                let l = choose|l: int| 0 <= l < gfired.len() && gfired[l] == e;
                assert(mid.is_alive(e.watcher));
                assert(mid.has_proc(e.watcher));
                assert(down_count(mid2.mailbox_of(e.watcher), e.reference) == down_count(
                    mid.mailbox_of(e.watcher),
                    e.reference,
                ));
                assert(down_count(self.mailbox_of(e.watcher), e.reference) == down_count(
                    mid2.mailbox_of(e.watcher),
                    e.reference,
                ) + 1);
            }

            // a reference with no monitor on the victim keeps its count
            assert forall|q: Pid, s: Reference|
                init.has_proc(q) && !(exists|e: MonitorEntry|
                    init.monitors@.contains(e) && e.subject == gvictim && e.reference
                        == s) implies #[trigger] down_count(self.mailbox_of(q), s) == down_count(
                init.mailbox_of(q),
                s,
            ) by {
                assert forall|l: int| 0 <= l < gfired.len() implies (
                #[trigger] gfired[l]).reference != s by {
                    let m = choose|m: int| 0 <= m < bmons.len() && bmons[m] == gfired[l];
                    assert(init.monitors@[m] == gfired[l]);
                    assert(init.monitors@.contains(gfired[l]));
                    assert(gfired[l].subject == gvictim);
                }
                assert(mid.has_proc(q));
                assert(down_count(mid2.mailbox_of(q), s) == down_count(mid.mailbox_of(q), s));
                assert(down_count(self.mailbox_of(q), s) == down_count(mid2.mailbox_of(q), s));
            }

            // the pending recursive terminations are non-trapping strangers
            assert forall|l: int| 0 <= l < pends@.len() implies (#[trigger] pends@[l]).1
                == *reason && pends@[l].0 != gvictim && !init.traps(pends@[l].0) by {
                assert(!mid.traps(pends@[l].0));
            }
        }

        pends
    }

    /// Terminates `target` with `reason` and folds the transitive closure
    /// of exit propagation at signal time: every linked trapping peer is
    /// handed a message, every monitor on a dying process fires exactly
    /// once, and non-trapping linked peers die in turn — except that a
    /// `Normal` reason never propagates past the target itself.
    pub fn terminate(&mut self, target: Pid, reason: &ExitReason)
        requires
            old(self).wf(),
        ensures
            final(self).wf(),
            final(self).node == old(self).node,
            final(self).next_serial == old(self).next_serial,
            final(self).next_ref == old(self).next_ref,
            final(self).procs@.len() == old(self).procs@.len(),
            forall|j: int|
                0 <= j < old(self).procs@.len() ==> (#[trigger] final(self).procs@[j]).pid == old(self).procs@[j].pid && final(self).procs@[j].trap_exit == old(self).procs@[j].trap_exit && (final(self).procs@[j].alive ==> old(self).procs@[j].alive),
            !old(self).is_alive(target) ==> *final(self) == *old(self),
            !final(self).is_alive(target),
            // a trapping process never dies from propagation
            forall|q: Pid|
                q != target && old(self).is_alive(q) && old(self).traps(q) ==> #[trigger] final(self).is_alive(q),
            // a Normal exit stops nobody else
            reason.spec_is_normal() ==> forall|q: Pid|
                q != target ==> #[trigger] final(self).is_alive(q) == old(self).is_alive(q),
            // mailboxes only grow
            forall|q: Pid, f: Pid, w: ExitReason|
                old(self).has_proc(q) && has_exit_from(old(self).mailbox_of(q), f, w)
                    ==> #[trigger] has_exit_from(final(self).mailbox_of(q), f, w),
            // the target's linked trapping peers are told
            forall|q: Pid|
                old(self).is_alive(target) && old(self).linked(target, q) && q != target && old(self).is_alive(q) && old(self).traps(q) ==> #[trigger] has_exit_from(
                    final(self).mailbox_of(q),
                    target,
                    *reason,
                ),
            // each monitor on the target fires exactly once
            forall|e: MonitorEntry|
                old(self).is_alive(target) && old(self).monitors@.contains(e) && e.subject
                    == target && e.watcher != target && old(self).is_alive(e.watcher)
                    ==> #[trigger] down_count(final(self).mailbox_of(e.watcher), e.reference)
                    == down_count(old(self).mailbox_of(e.watcher), e.reference) + 1,
            // a reference nobody monitors keeps its count everywhere
            forall|q: Pid, s: Reference|
                old(self).has_proc(q) && !old(self).monitored(s) ==> #[trigger] down_count(
                    final(self).mailbox_of(q),
                    s,
                ) == down_count(old(self).mailbox_of(q), s),
            // monitors only disappear, and none on the target is left
            forall|e: MonitorEntry| #[trigger]
                final(self).monitors@.contains(e) ==> old(self).monitors@.contains(e) && (old(self).is_alive(target) ==> e.subject != target),
    {
        let ghost init = *old(self);
        let ti = match self.find_index(target) {
            Some(j) => j,
            None => {
                return ;
            },
        };
        proof {
            self.lemma_idx(target, ti as int);
        }
        if !self.procs[ti].alive {
            return ;
        }

        let mut pending: Vec<(Pid, ExitReason)> = self.kill_one(ti, reason);

        while pending.len() > 0
            invariant
                self.wf(),
                init.wf(),
                ti < init.procs@.len(),
                init.procs@[ti as int].pid == target,
                init.procs@[ti as int].alive,
                self.node == init.node,
                self.next_serial == init.next_serial,
                self.next_ref == init.next_ref,
                self.procs@.len() == init.procs@.len(),
                forall|j: int|
                    0 <= j < init.procs@.len() ==> (#[trigger] self.procs@[j]).pid
                        == init.procs@[j].pid && self.procs@[j].trap_exit
                        == init.procs@[j].trap_exit && (self.procs@[j].alive
                        ==> init.procs@[j].alive),
                !self.procs@[ti as int].alive,
                forall|j: int|
                    0 <= j < init.procs@.len() && j != ti && init.procs@[j].alive
                        && init.procs@[j].trap_exit ==> (#[trigger] self.procs@[j]).alive,
                reason.spec_is_normal() ==> pending@.len() == 0,
                reason.spec_is_normal() ==> forall|j: int|
                    0 <= j < init.procs@.len() && j != ti ==> (#[trigger] self.procs@[j]).alive
                        == init.procs@[j].alive,
                forall|l: int|
                    0 <= l < pending@.len() ==> (#[trigger] pending@[l]).1 == *reason
                        && !init.traps(pending@[l].0),
                forall|q: Pid, f: Pid, w: ExitReason|
                    init.has_proc(q) && has_exit_from(init.mailbox_of(q), f, w)
                        ==> #[trigger] has_exit_from(self.mailbox_of(q), f, w),
                forall|q: Pid|
                    init.linked(target, q) && q != target && init.is_alive(q) && init.traps(q)
                        ==> #[trigger] has_exit_from(self.mailbox_of(q), target, *reason),
                forall|e: MonitorEntry|
                    init.monitors@.contains(e) && e.subject == target && e.watcher != target
                        && init.is_alive(e.watcher) ==> #[trigger] down_count(
                        self.mailbox_of(e.watcher),
                        e.reference,
                    ) == down_count(init.mailbox_of(e.watcher), e.reference) + 1,
                forall|q: Pid, s: Reference|
                    init.has_proc(q) && !init.monitored(s) ==> #[trigger] down_count(
                        self.mailbox_of(q),
                        s,
                    ) == down_count(init.mailbox_of(q), s),
                forall|e: MonitorEntry| #[trigger]
                    self.monitors@.contains(e) ==> init.monitors@.contains(e) && e.subject
                        != target,
            decreases alive_count(self.procs@), pending@.len(),
        {
            let entry = pending.pop().unwrap();
            let p = entry.0;
            let rsn = entry.1;
            let pi = match self.find_index(p) {
                Some(j) => j,
                None => {
                    continue ;
                },
            };
            proof {
                self.lemma_idx(p, pi as int);
            }
            if !self.procs[pi].alive {
                continue ;
            }

            let ghost cur = *self;
            let more = self.kill_one(pi, &rsn);
            let ghost gvictim2 = cur.procs@[pi as int].pid;

            proof {
                assert forall|q: Pid, f: Pid, w: ExitReason|
                    init.has_proc(q) && has_exit_from(init.mailbox_of(q), f, w) implies #[trigger] has_exit_from(
                    self.mailbox_of(q),
                    f,
                    w,
                ) by {
                    Self::lemma_views_agree_weak(init, cur, q);
                    assert(has_exit_from(cur.mailbox_of(q), f, w));
                }
                assert forall|q: Pid|
                    init.linked(target, q) && q != target && init.is_alive(q) && init.traps(
                    q,
                ) implies #[trigger] has_exit_from(self.mailbox_of(q), target, *reason) by {
                    Self::lemma_views_agree_weak(init, cur, q);
                    assert(has_exit_from(cur.mailbox_of(q), target, *reason));
                }
                assert forall|e: MonitorEntry|
                    init.monitors@.contains(e) && e.subject == target && e.watcher != target
                        && init.is_alive(e.watcher) implies #[trigger] down_count(
                    self.mailbox_of(e.watcher),
                    e.reference,
                ) == down_count(init.mailbox_of(e.watcher), e.reference) + 1 by {
                    Self::lemma_views_agree_weak(init, cur, e.watcher);
                    assert(!(exists|e2: MonitorEntry|
                        cur.monitors@.contains(e2) && e2.subject == gvictim2 && e2.reference
                            == e.reference)) by {
                        if exists|e2: MonitorEntry|
                            cur.monitors@.contains(e2) && e2.subject == gvictim2 && e2.reference
                                == e.reference {
                            let e2 = choose|e2: MonitorEntry|
                                cur.monitors@.contains(e2) && e2.subject == gvictim2
                                    && e2.reference == e.reference;
                            assert(init.monitors@.contains(e2) && e2.subject != target);
                            let m1 = choose|m: int|
                                0 <= m < init.monitors@.len() && init.monitors@[m] == e2;
                            let m2 = choose|m: int|
                                0 <= m < init.monitors@.len() && init.monitors@[m] == e;
                            assert(m1 != m2 ==> init.monitors@[m1].reference
                                != init.monitors@[m2].reference);
                            assert(e2 == e);
                        }
                    }
                    assert(down_count(self.mailbox_of(e.watcher), e.reference) == down_count(
                        cur.mailbox_of(e.watcher),
                        e.reference,
                    ));
                }
                assert forall|q: Pid, s: Reference|
                    init.has_proc(q) && !init.monitored(s) implies #[trigger] down_count(
                    self.mailbox_of(q),
                    s,
                ) == down_count(init.mailbox_of(q), s) by {
                    Self::lemma_views_agree_weak(init, cur, q);
                    assert(!(exists|e2: MonitorEntry|
                        cur.monitors@.contains(e2) && e2.subject == gvictim2 && e2.reference
                            == s)) by {
                        if exists|e2: MonitorEntry|
                            cur.monitors@.contains(e2) && e2.subject == gvictim2 && e2.reference
                                == s {
                            let e2 = choose|e2: MonitorEntry|
                                cur.monitors@.contains(e2) && e2.subject == gvictim2
                                    && e2.reference == s;
                            assert(init.monitors@.contains(e2));
                            let l = choose|l: int|
                                0 <= l < init.monitors@.len() && init.monitors@[l] == e2;
                            assert(init.monitored(s));
                        }
                    }
                    assert(down_count(self.mailbox_of(q), s) == down_count(
                        cur.mailbox_of(q),
                        s,
                    ));
                }
            }

            let mut more = more;
            while more.len() > 0
                invariant
                    forall|l: int|
                        0 <= l < more@.len() ==> (#[trigger] more@[l]).1 == rsn && !cur.traps(
                            more@[l].0,
                        ),
                    rsn == *reason,
                    init.wf(),
                    cur.wf(),
                    init.procs@.len() == cur.procs@.len(),
                    forall|j: int|
                        0 <= j < init.procs@.len() ==> (#[trigger] cur.procs@[j]).pid
                            == init.procs@[j].pid && cur.procs@[j].trap_exit
                            == init.procs@[j].trap_exit,
                    forall|l: int|
                        0 <= l < pending@.len() ==> (#[trigger] pending@[l]).1 == *reason
                            && !init.traps(pending@[l].0),
                decreases more@.len(),
            {
                let item = more.pop().unwrap();
                proof {
                    Self::lemma_views_agree_weak(init, cur, item.0);
                }
                pending.push(item);
            }
        }

        proof {
            assert(!self.procs@[ti as int].alive);
            if self.has_proc(target) {
                let j = self.idx_of(target);
                self.lemma_idx(target, ti as int);
            }
            assert forall|q: Pid|
                q != target && init.is_alive(q) && init.traps(q) implies #[trigger] self.is_alive(
                q,
            ) by {
                let j = init.idx_of(q);
                init.lemma_idx(q, j);
                self.lemma_idx(q, j);
                if j == ti as int {
                    assert(init.procs@[j].pid == target);
                }
            }
            if reason.spec_is_normal() {
                assert forall|q: Pid| q != target implies #[trigger] self.is_alive(q)
                    == init.is_alive(q) by {
                    if init.has_proc(q) {
                        let j = init.idx_of(q);
                        init.lemma_idx(q, j);
                        self.lemma_idx(q, j);
                        if j == ti as int {
                            assert(init.procs@[j].pid == target);
                        }
                    }
                    if self.has_proc(q) {
                        let j = self.idx_of(q);
                        self.lemma_idx(q, j);
                        init.lemma_idx(q, j);
                    }
                }
            }
        }
    }

    /// Whether `exit(from, to, reason)` is delivered as a mailbox message:
    /// the target is alive and traps exits, and the reason is not `Kill`,
    /// which is never trappable.
    pub open spec fn spec_exit_delivers(self, to: Pid, reason: ExitReason) -> bool {
        self.is_alive(to) && !reason.spec_is_kill() && self.traps(to)
    }

    /// Whether `exit(from, to, reason)` terminates the target: `Kill`
    /// does so unconditionally; any other reason terminates a non-trapping
    /// target unless it is `Normal` from another process.
    pub open spec fn spec_exit_kills(self, from: Pid, to: Pid, reason: ExitReason) -> bool {
        self.is_alive(to) && (reason.spec_is_kill() || (!self.traps(to)
            && !(reason.spec_is_normal() && from != to)))
    }

    /// Sends the exit signal `exit(to, reason)` on behalf of `from`,
    /// under the signalling rules: `Kill` terminates unconditionally; a
    /// trapping target receives `Exit(from, reason)` as a message instead;
    /// a `Normal` reason from another process is ignored by a non-trapping
    /// target; anything else terminates the target, propagating across its
    /// links.
    pub fn exit_signal(&mut self, from: Pid, to: Pid, reason: &ExitReason)
        requires
            old(self).wf(),
        ensures
            final(self).wf(),
            final(self).node == old(self).node,
            final(self).next_serial == old(self).next_serial,
            final(self).next_ref == old(self).next_ref,
            final(self).procs@.len() == old(self).procs@.len(),
            forall|j: int|
                0 <= j < old(self).procs@.len() ==> (#[trigger] final(self).procs@[j]).pid == old(self).procs@[j].pid && final(self).procs@[j].trap_exit == old(self).procs@[j].trap_exit && (final(self).procs@[j].alive ==> old(self).procs@[j].alive),
            !old(self).is_alive(to) && !old(self).spec_exit_delivers(to, *reason) && !old(self).spec_exit_kills(from, to, *reason) ==> *final(self) == *old(self),
            old(self).is_alive(to) && !old(self).spec_exit_delivers(to, *reason) && !old(self).spec_exit_kills(from, to, *reason) ==> *final(self) == *old(self),
            old(self).spec_exit_delivers(to, *reason) ==> {
                &&& final(self).links@ == old(self).links@
                &&& final(self).monitors@ == old(self).monitors@
                &&& forall|j: int|
                    0 <= j < old(self).procs@.len() && j != old(self).idx_of(to) ==> final(self).procs@[j] == old(self).procs@[j]
                &&& final(self).mailbox_of(to) == old(self).mailbox_of(to).push(
                    Message::System(SystemMessage::Exit(from, *reason)),
                )
                &&& forall|q: Pid| #[trigger] final(self).is_alive(q) == old(self).is_alive(q)
            },
            old(self).spec_exit_kills(from, to, *reason) ==> {
                &&& !final(self).is_alive(to)
                &&& forall|q: Pid|
                    q != to && old(self).is_alive(q) && old(self).traps(q)
                        ==> #[trigger] final(self).is_alive(q)
                &&& (reason.spec_is_normal() ==> forall|q: Pid|
                    q != to ==> #[trigger] final(self).is_alive(q) == old(self).is_alive(q))
                &&& forall|q: Pid, f: Pid, w: ExitReason|
                    old(self).has_proc(q) && has_exit_from(old(self).mailbox_of(q), f, w)
                        ==> #[trigger] has_exit_from(final(self).mailbox_of(q), f, w)
                &&& forall|q: Pid|
                    old(self).linked(to, q) && q != to && old(self).is_alive(q) && old(self).traps(q) ==> #[trigger] has_exit_from(
                        final(self).mailbox_of(q),
                        to,
                        *reason,
                    )
                &&& forall|e: MonitorEntry|
                    old(self).monitors@.contains(e) && e.subject == to && e.watcher != to && old(self).is_alive(e.watcher) ==> #[trigger] down_count(
                        final(self).mailbox_of(e.watcher),
                        e.reference,
                    ) == down_count(old(self).mailbox_of(e.watcher), e.reference) + 1
                &&& forall|q: Pid, s: Reference|
                    old(self).has_proc(q) && !old(self).monitored(s) ==> #[trigger] down_count(
                        final(self).mailbox_of(q),
                        s,
                    ) == down_count(old(self).mailbox_of(q), s)
                &&& forall|e: MonitorEntry| #[trigger]
                    final(self).monitors@.contains(e) ==> old(self).monitors@.contains(e)
                        && e.subject != to
            },
    {
        let ti = match self.find_index(to) {
            Some(j) => j,
            None => {
                return ;
            },
        };
        proof {
            self.lemma_idx(to, ti as int);
        }
        if !self.procs[ti].alive {
            return ;
        }

        if reason.is_kill() {
            self.terminate(to, reason);
        } else if self.procs[ti].trap_exit {
            self.push_to_mailbox(ti, Message::System(SystemMessage::Exit(from, reason.clone())));
            proof {
                self.lemma_idx(to, ti as int);
                assert forall|q: Pid| true implies #[trigger] self.is_alive(q) == old(self).is_alive(q) by {
                    Self::lemma_views_agree_weak(*old(self), *self, q);
                }
            }
        } else if reason.is_normal() && !(from.node == to.node && from.serial == to.serial) {
            // ignored
        } else {
            assert(from != to ==> !reason.spec_is_normal());
            self.terminate(to, reason);
        }
    }

    /// Selective receive of the monitor message tagged `reference` from
    /// `owner`'s mailbox: removes the first matching `ProcessDown` and
    /// returns its subject and reason, leaving every other message in its
    /// original position and order.
    pub fn take_down(&mut self, owner: Pid, reference: Reference) -> (r: Option<(Pid, ExitReason)>)
        requires
            old(self).wf(),
            old(self).has_proc(owner),
        ensures
            final(self).wf(),
            final(self).node == old(self).node,
            final(self).next_serial == old(self).next_serial,
            final(self).next_ref == old(self).next_ref,
            final(self).links@ == old(self).links@,
            final(self).monitors@ == old(self).monitors@,
            final(self).procs@.len() == old(self).procs@.len(),
            forall|j: int|
                0 <= j < old(self).procs@.len() && j != old(self).idx_of(owner) ==> final(self).procs@[j] == old(self).procs@[j],
            final(self).procs@[old(self).idx_of(owner)] == (ProcessRecord {
                mailbox: final(self).procs@[old(self).idx_of(owner)].mailbox,
                ..old(self).procs@[old(self).idx_of(owner)]
            }),
            match r {
                None => {
                    &&& *final(self) == *old(self)
                    &&& forall|ii: int|
                        0 <= ii < old(self).mailbox_of(owner).len() ==> !(#[trigger] old(self).mailbox_of(owner)[ii]).spec_is_down_with(reference)
                },
                Some((subject, why)) => exists|ii: int|
                    {
                        &&& 0 <= ii < old(self).mailbox_of(owner).len()
                        &&& old(self).mailbox_of(owner)[ii] == Message::System(
                            SystemMessage::ProcessDown(subject, reference, why),
                        )
                        &&& forall|jj: int|
                            0 <= jj < ii ==> !(#[trigger] old(self).mailbox_of(owner)[jj]).spec_is_down_with(
                                reference,
                            )
                        &&& final(self).mailbox_of(owner) == old(self).mailbox_of(owner).remove(
                            ii,
                        )
                    },
            },
    {
        let oi = self.find_index(owner).unwrap();
        proof {
            self.lemma_idx(owner, oi as int);
        }
        let ghost mb0 = self.procs@[oi as int].mailbox@;

        let mut ii: usize = 0;
        while ii < self.procs[oi].mailbox.len()
            invariant
                *self == *old(self),
                self.wf(),
                oi < self.procs@.len(),
                self.procs@[oi as int].pid == owner,
                self.procs@[oi as int].mailbox@ == mb0,
                ii <= mb0.len(),
                forall|jj: int|
                    0 <= jj < ii ==> !(#[trigger] mb0[jj]).spec_is_down_with(reference),
            decreases mb0.len() - ii,
        {
            let matched = match &self.procs[oi].mailbox[ii] {
                Message::System(SystemMessage::ProcessDown(_, tag, _)) => tag.id == reference.id,
                _ => false,
            };
            if matched {
                proof {
                    assert(mb0[ii as int].spec_is_down_with(reference));
                }
                let m = self.procs[oi].mailbox.remove(ii);
                proof {
                    assert forall|i2: int, mi: int|
                        0 <= i2 < self.procs@.len() && 0 <= mi
                            < self.procs@[i2].mailbox@.len() implies down_ref_ok(
                        #[trigger] self.procs@[i2].mailbox@[mi],
                        self.next_ref,
                    ) by {
                        if i2 == oi as int {
                            assert(mb0.remove(ii as int) =~= mb0.take(ii as int) + mb0.skip(
                                ii as int + 1,
                            ));
                            if mi < ii as int {
                                assert(self.procs@[i2].mailbox@[mi] == mb0[mi]);
                            } else {
                                assert(self.procs@[i2].mailbox@[mi] == mb0[mi + 1]);
                            }
                        }
                    }
                    self.lemma_idx(owner, oi as int);
                    old(self).lemma_idx(owner, oi as int);
                    assert(old(self).mailbox_of(owner) == mb0);
                    assert(self.mailbox_of(owner) == mb0.remove(ii as int));
                    assert(m == mb0[ii as int]);
                }
                match m {
                    Message::System(SystemMessage::ProcessDown(subject, _, why)) => {
                        proof {
                            assert(mb0[ii as int] == Message::System(
                                SystemMessage::ProcessDown(subject, reference, why),
                            ));
                        }
                        return Some((subject, why));
                    },
                    _ => {
                        // cannot happen: the scan matched a ProcessDown
                        proof {
                            assert(false);
                        }
                        return None;
                    },
                }
            }
            ii += 1;
        }

        None
    }

    /// Unlinks `owner` from `pid` and flushes the mailbox: every pending
    /// `Exit(pid, _)` message is removed, so no late exit signal can be
    /// misattributed to an unrelated process. Returns the reason of the
    /// first flushed signal, or `default_reason` if none was pending.
    pub fn unlink_flush(&mut self, owner: Pid, pid: Pid, default_reason: ExitReason) -> (r:
        ExitReason)
        requires
            old(self).wf(),
            old(self).has_proc(owner),
        ensures
            final(self).wf(),
            final(self).node == old(self).node,
            final(self).next_serial == old(self).next_serial,
            final(self).next_ref == old(self).next_ref,
            final(self).monitors@ == old(self).monitors@,
            !final(self).linked(owner, pid),
            forall|x: Pid, y: Pid|
                !same_pair(x, y, owner, pid) ==> #[trigger] final(self).linked(x, y) == old(self).linked(x, y),
            final(self).procs@.len() == old(self).procs@.len(),
            forall|j: int|
                0 <= j < old(self).procs@.len() && j != old(self).idx_of(owner) ==> final(self).procs@[j] == old(self).procs@[j],
            final(self).procs@[old(self).idx_of(owner)] == (ProcessRecord {
                mailbox: final(self).procs@[old(self).idx_of(owner)].mailbox,
                ..old(self).procs@[old(self).idx_of(owner)]
            }),
            // the flush leaves no Exit(pid, _) behind
            final(self).mailbox_of(owner) == old(self).mailbox_of(owner).filter(
                spec_not_exit_from(pid),
            ),
            forall|ii: int|
                0 <= ii < final(self).mailbox_of(owner).len() ==> !(#[trigger] final(self).mailbox_of(owner)[ii]).spec_is_exit_from(pid),
            // the reason handed back is the first pending signal's, if any
            ({
                let mb = old(self).mailbox_of(owner);
                if exists|ii: int| 0 <= ii < mb.len() && (#[trigger] mb[ii]).spec_is_exit_from(
                    pid,
                ) {
                    exists|ii: int|
                        {
                            &&& 0 <= ii < mb.len()
                            &&& mb[ii] == Message::System(SystemMessage::Exit(pid, r))
                            &&& forall|jj: int|
                                0 <= jj < ii ==> !(#[trigger] mb[jj]).spec_is_exit_from(pid)
                        }
                } else {
                    r == default_reason
                }
            }),
    {
        self.unlink(owner, pid);
        proof {
            old(self).lemma_idx(owner, old(self).idx_of(owner));
        }
        let ghost k1 = *self;
        let ghost links1 = self.links@;
        let oi = self.find_index(owner).unwrap();
        proof {
            self.lemma_idx(owner, oi as int);
            old(self).lemma_idx(owner, oi as int);
        }
        let ghost mb0 = self.procs@[oi as int].mailbox@;
        assert(mb0 == old(self).mailbox_of(owner));
        let ghost pred = spec_not_exit_from(pid);

        let mut kept: Vec<Message> = Vec::new();
        let mut found: Option<ExitReason> = None;
        let mut ii: usize = 0;

        proof {
            reveal(Seq::filter);
            assert(mb0.take(0) =~= Seq::<Message>::empty());
            assert(mb0.take(0).filter(pred) =~= Seq::<Message>::empty());
        }

        while ii < self.procs[oi].mailbox.len()
            invariant
                self.wf(),
                self.procs@ == old(self).procs@,
                self.links@ == links1,
                self.monitors@ == old(self).monitors@,
                self.node == old(self).node,
                self.next_serial == old(self).next_serial,
                self.next_ref == old(self).next_ref,
                oi < self.procs@.len(),
                self.procs@[oi as int].pid == owner,
                oi == old(self).idx_of(owner),
                self.procs@[oi as int].mailbox@ == mb0,
                ii <= mb0.len(),
                pred == spec_not_exit_from(pid),
                kept@ == mb0.take(ii as int).filter(pred),
                match found {
                    None => forall|jj: int|
                        0 <= jj < ii ==> !(#[trigger] mb0[jj]).spec_is_exit_from(pid),
                    Some(why) => exists|jj: int|
                        {
                            &&& 0 <= jj < ii
                            &&& mb0[jj] == Message::System(SystemMessage::Exit(pid, why))
                            &&& forall|ll: int|
                                0 <= ll < jj ==> !(#[trigger] mb0[ll]).spec_is_exit_from(pid)
                        },
                },
            decreases mb0.len() - ii,
        {
            proof {
                lemma_filter_take_step(mb0, pred, ii as int);
            }
            let m = self.procs[oi].mailbox[ii].clone();
            proof {
                assert(m == mb0[ii as int]);
            }
            let is_match = match &m {
                Message::System(SystemMessage::Exit(epid, _)) => epid.node == pid.node
                    && epid.serial == pid.serial,
                _ => false,
            };
            if is_match {
                proof {
                    assert(m.spec_is_exit_from(pid));
                }
                if found.is_none() {
                    match m {
                        Message::System(SystemMessage::Exit(_, ereason)) => {
                            proof {
                                assert(mb0[ii as int] == Message::System(
                                    SystemMessage::Exit(pid, ereason),
                                ));
                            }
                            found = Some(ereason);
                        },
                        _ => {
                            proof {
                                assert(false);
                            }
                        },
                    }
                }
            } else {
                proof {
                    assert(!m.spec_is_exit_from(pid));
                }
                kept.push(m);
            }
            ii += 1;
        }

        proof {
            assert(mb0.take(mb0.len() as int) =~= mb0);
        }

        self.procs[oi].mailbox = kept;

        proof {
            assert forall|i2: int, mi: int|
                0 <= i2 < self.procs@.len() && 0 <= mi
                    < self.procs@[i2].mailbox@.len() implies down_ref_ok(
                #[trigger] self.procs@[i2].mailbox@[mi],
                self.next_ref,
            ) by {
                if i2 == oi as int {
                    let msg = self.procs@[i2].mailbox@[mi];
                    assert(mb0.filter(pred).contains(msg));
                    mb0.lemma_filter_contains_rev(pred, msg);
                    let src_at = choose|jj: int| 0 <= jj < mb0.len() && mb0[jj] == msg;
                    assert(down_ref_ok(mb0[src_at], self.next_ref));
                }
            }
            self.lemma_idx(owner, oi as int);
            assert(self.mailbox_of(owner) == mb0.filter(pred));
            assert forall|iii: int| 0 <= iii < self.mailbox_of(owner).len() implies !(
            #[trigger] self.mailbox_of(owner)[iii]).spec_is_exit_from(pid) by {
                mb0.lemma_filter_pred(pred, iii);
            }
            assert(!self.linked(owner, pid)) by {
                assert(!k1.linked(owner, pid));
                assert(self.links@ == k1.links@);
            }
            assert forall|x: Pid, y: Pid| !same_pair(x, y, owner, pid) implies #[trigger] self.linked(
                x,
                y,
            ) == old(self).linked(x, y) by {
                assert(k1.linked(x, y) == old(self).linked(x, y));
                assert(self.links@ == k1.links@);
            }
        }

        match found {
            Some(reason) => reason,
            None => default_reason,
        }
    }

    /// Whether the process `p` exists and has not terminated.
    pub fn find_alive(&self, p: Pid) -> (r: bool)
        requires
            self.wf(),
        ensures
            r == self.is_alive(p),
    {
        match self.find_index(p) {
            Some(i) => {
                proof {
                    self.lemma_idx(p, i as int);
                }
                self.procs[i].alive
            },
            None => false,
        }
    }

    /// Starts a process and links it to `parent` in the same step.
    pub fn spawn_link(&mut self, parent: Pid, trap_exit: bool) -> (p: Pid)
        requires
            old(self).wf(),
            old(self).is_alive(parent),
            old(self).next_serial < u64::MAX,
        ensures
            final(self).wf(),
            !old(self).has_proc(p),
            final(self).is_alive(p),
            final(self).is_alive(parent),
            final(self).traps(p) == trap_exit,
            final(self).linked(parent, p),
            final(self).monitors@ == old(self).monitors@,
            forall|r: Pid, s: Pid|
                !same_pair(r, s, parent, p) ==> #[trigger] final(self).linked(r, s) == old(
                    self,
                ).linked(r, s),
            forall|q: Pid| #[trigger]
                old(self).is_alive(q) ==> final(self).is_alive(q) && final(self).mailbox_of(q)
                    == old(self).mailbox_of(q),
    {
        let p = self.spawn(trap_exit);
        proof {
            assert(self.is_alive(parent));
            assert(self.is_alive(p));
            assert(!old(self).has_proc(p)) by {
                if old(self).has_proc(p) {
                    let i = old(self).idx_of(p);
                    old(self).lemma_idx(p, i);
                    assert(self.procs@[i] == old(self).procs@[i]);
                }
            }
            assert(parent != p);
        }
        let ghost k1 = *self;
        self.link(parent, p);
        proof {
            assert forall|q: Pid| #[trigger] old(self).is_alive(q) implies self.is_alive(q)
                && self.mailbox_of(q) == old(self).mailbox_of(q) by {
                assert(k1.is_alive(q) && k1.mailbox_of(q) == old(self).mailbox_of(q));
                Self::lemma_views_agree_weak(k1, *self, q);
            }
            Self::lemma_views_agree_weak(k1, *self, p);
            Self::lemma_views_agree_weak(k1, *self, parent);
        }
        p
    }

    /// A reference at or above `next_ref` was never handed out, so no
    /// mailbox can hold a `ProcessDown` tagged with it: a fresh monitor
    /// has no stale firing.
    pub proof fn lemma_fresh_ref_unfired(self, p: Pid, r: Reference)
        requires
            self.wf(),
            self.has_proc(p),
            r.id >= self.next_ref,
        ensures
            down_count(self.mailbox_of(p), r) == 0,
    {
        let i = self.idx_of(p);
        self.lemma_idx(p, i);
        let mb = self.mailbox_of(p);
        let pred = |m: Message| m.spec_is_down_with(r);
        assert forall|mi: int| 0 <= mi < mb.len() implies !pred(mb[mi]) by {
            assert(down_ref_ok(self.procs@[i].mailbox@[mi], self.next_ref));
        }
        mb.lemma_all_neg_filter_empty(pred);
    }

    /// A mailbox that holds a `ProcessDown` tagged `r` has a positive
    /// count for it.
    pub proof fn lemma_down_present_counts(mb: Seq<Message>, r: Reference, ii: int)
        requires
            0 <= ii < mb.len(),
            mb[ii].spec_is_down_with(r),
        ensures
            down_count(mb, r) > 0,
    {
        let pred = |m: Message| m.spec_is_down_with(r);
        mb.lemma_filter_contains(pred, ii);
        let l = choose|l: int| 0 <= l < mb.filter(pred).len() && mb.filter(pred)[l] == mb[ii];
    }

    /// Removing a mailbox entry that is a `ProcessDown` tagged `r` lowers
    /// the count for `r` by exactly one.
    pub proof fn lemma_down_count_remove(mb: Seq<Message>, r: Reference, ii: int)
        requires
            0 <= ii < mb.len(),
            mb[ii].spec_is_down_with(r),
        ensures
            down_count(mb.remove(ii), r) + 1 == down_count(mb, r),
    {
        let pred = |m: Message| m.spec_is_down_with(r);
        assert(mb =~= mb.take(ii) + (seq![mb[ii]] + mb.skip(ii + 1)));
        assert(mb.remove(ii) =~= mb.take(ii) + mb.skip(ii + 1));
        Seq::filter_distributes_over_add(mb.take(ii), seq![mb[ii]] + mb.skip(ii + 1), pred);
        Seq::filter_distributes_over_add(seq![mb[ii]], mb.skip(ii + 1), pred);
        Seq::filter_distributes_over_add(mb.take(ii), mb.skip(ii + 1), pred);
        reveal_with_fuel(Seq::filter, 2);
        assert(seq![mb[ii]].drop_last() =~= Seq::<Message>::empty());
        assert(seq![mb[ii]].filter(pred) =~= Seq::<Message>::empty().push(mb[ii]));
    }

    /// A filter that keeps every `ProcessDown` keeps every count: the
    /// flush removes only exit signals.
    pub proof fn lemma_down_count_filter(mb: Seq<Message>, p: spec_fn(Message) -> bool, r: Reference)
        requires
            forall|m: Message| #[trigger] m.spec_is_down_with(r) ==> p(m),
        ensures
            down_count(mb.filter(p), r) == down_count(mb, r),
        decreases mb.len(),
    {
        reveal(Seq::filter);
        let pred = |m: Message| m.spec_is_down_with(r);
        if mb.len() > 0 {
            Self::lemma_down_count_filter(mb.drop_last(), p, r);
            let last = mb.last();
            if p(last) {
                assert(mb.filter(p) == mb.drop_last().filter(p).push(last));
                lemma_down_count_push(mb.drop_last().filter(p), last, r);
            } else {
                assert(!last.spec_is_down_with(r));
                assert(mb.filter(p) == mb.drop_last().filter(p));
            }
            assert(mb =~= mb.drop_last().push(last));
            lemma_down_count_push(mb.drop_last(), last, r);
        } else {
            assert(mb.filter(p) =~= mb);
        }
    }

    /// The law that makes links usable for supervision: for all processes
    /// `p` and `q`, `q` is linked to `p` exactly when `p` is linked to
    /// `q`, at every observable point. It holds by construction here: one
    /// edge carries both directions, so no operation can sever or create
    /// one side alone.
    pub proof fn lemma_link_symmetry(self, p: Pid, q: Pid)
        ensures
            self.linked(p, q) == self.linked(q, p),
    {
        if self.linked(p, q) {
            let k = choose|k: int|
                0 <= k < self.links@.len() && edge_joins(self.links@[k], p, q);
            assert(edge_joins(self.links@[k], q, p));
        }
        if self.linked(q, p) {
            let k = choose|k: int|
                0 <= k < self.links@.len() && edge_joins(self.links@[k], q, p);
            assert(edge_joins(self.links@[k], p, q));
        }
    }

    /// The law behind one-shot monitors: in a well-formed kernel a
    /// reference tags at most one pending monitor, so when a subject dies
    /// the watcher receives exactly one `ProcessDown` for it (the
    /// termination contract adds one per entry and removes the entry),
    /// and none can ever follow a `demonitor` (references are never
    /// reused: they stay below `next_ref`).
    pub proof fn lemma_monitor_one_shot(self, i: int, j: int)
        requires
            self.wf(),
            0 <= i < self.monitors@.len(),
            0 <= j < self.monitors@.len(),
            self.monitors@[i].reference == self.monitors@[j].reference,
        ensures
            i == j,
    {
    }

    /// Delivers a user payload to a live process's mailbox; enqueue is
    /// possible from any sender. Returns whether the target was alive.
    pub fn send_user(&mut self, to: Pid, token: u64) -> (delivered: bool)
        requires
            old(self).wf(),
        ensures
            final(self).wf(),
            delivered == old(self).is_alive(to),
            final(self).links@ == old(self).links@,
            final(self).monitors@ == old(self).monitors@,
            final(self).node == old(self).node,
            final(self).next_serial == old(self).next_serial,
            final(self).next_ref == old(self).next_ref,
            !delivered ==> *final(self) == *old(self),
            delivered ==> {
                &&& final(self).procs@.len() == old(self).procs@.len()
                &&& forall|j: int|
                    0 <= j < old(self).procs@.len() && j != old(self).idx_of(to) ==> final(self).procs@[j] == old(self).procs@[j]
                &&& final(self).mailbox_of(to) == old(self).mailbox_of(to).push(
                    Message::User(token),
                )
            },
    {
        let ti = self.find_index(to);
        match ti {
            None => false,
            Some(i) => {
                proof {
                    self.lemma_idx(to, i as int);
                }
                if self.procs[i].alive {
                    self.push_to_mailbox(i, Message::User(token));
                    proof {
                        self.lemma_idx(to, i as int);
                    }
                    true
                } else {
                    false
                }
            },
        }
    }
}

} // verus!
