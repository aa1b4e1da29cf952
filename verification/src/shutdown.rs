//! The graceful-then-brutal shutdown protocol: terminate a process and do
//! not return before its death is confirmed through a monitor, flushing
//! any pending exit signal afterwards so it cannot be misattributed.
//!
//! The wait on the monitor is a selective receive that matches on the
//! monitor reference, never on the pid, so an unrelated `ProcessDown`
//! cannot satisfy it.

use vstd::prelude::*;

use crate::child::Shutdown;
use crate::kernel::down_count;
use crate::kernel::lemma_down_count_push;
use crate::kernel::Kernel;
use crate::kernel::MonitorEntry;
use crate::types::ExitReason;
use crate::types::Message;
use crate::types::Pid;
use crate::types::SystemMessage;
use crate::types::Reference;

verus! {

/// The monitor `monitor` held by `self_pid` on `pid` is armed and has
/// not fired yet, or it has already fired into the caller's mailbox —
/// over a dead subject — and can never fire again. A freshly created
/// monitor is always in one of the two states.
pub open spec fn monitor_armed(k: Kernel, self_pid: Pid, pid: Pid, monitor: Reference) -> bool {
    (k.monitors@.contains(MonitorEntry { reference: monitor, watcher: self_pid, subject: pid })
        && down_count(k.mailbox_of(self_pid), monitor) == 0) || (down_count(
        k.mailbox_of(self_pid),
        monitor,
    ) == 1 && !k.monitored(monitor) && !k.is_alive(pid))
}

/// What every step of the protocol preserves: identities, trap flags, and
/// that nobody comes back to life.
pub open spec fn shutdown_frame(pre: Kernel, post: Kernel) -> bool {
    &&& post.wf()
    &&& post.node == pre.node
    &&& post.next_serial == pre.next_serial
    &&& post.procs@.len() == pre.procs@.len()
    &&& forall|j: int|
        0 <= j < pre.procs@.len() ==> (#[trigger] post.procs@[j]).pid == pre.procs@[j].pid
            && post.procs@[j].trap_exit == pre.procs@[j].trap_exit && (post.procs@[j].alive
            ==> pre.procs@[j].alive)
}

/// After a step inside the protocol, every process identity observation
/// carries over; liveness carries over wherever the flags agree.
proof fn lemma_step_agree(a: Kernel, b: Kernel, p: Pid)
    requires
        a.wf(),
        b.wf(),
        a.procs@.len() == b.procs@.len(),
        forall|j: int| 0 <= j < a.procs@.len() ==> b.procs@[j].pid == a.procs@[j].pid,
    ensures
        b.has_proc(p) == a.has_proc(p),
        a.has_proc(p) ==> b.idx_of(p) == a.idx_of(p),
        (forall|j: int| 0 <= j < a.procs@.len() ==> b.procs@[j].alive == a.procs@[j].alive)
            ==> b.is_alive(p) == a.is_alive(p),
        (forall|j: int|
            0 <= j < a.procs@.len() ==> b.procs@[j].trap_exit == a.procs@[j].trap_exit)
            ==> b.traps(p) == a.traps(p),
{
    Kernel::lemma_views_agree_weak(a, b, p);
}

/// A process dead before a step that never revives anyone is dead after.
pub proof fn lemma_stays_dead(a: Kernel, b: Kernel, p: Pid)
    requires
        a.wf(),
        b.wf(),
        a.procs@.len() == b.procs@.len(),
        forall|j: int|
            0 <= j < a.procs@.len() ==> (#[trigger] b.procs@[j]).pid == a.procs@[j].pid && (
            b.procs@[j].alive ==> a.procs@[j].alive),
        !a.is_alive(p),
    ensures
        !b.is_alive(p),
{
    Kernel::lemma_views_agree_weak(a, b, p);
    if b.is_alive(p) {
        let i = b.idx_of(p);
        b.lemma_idx(p, i);
        a.lemma_idx(p, i);
    }
}

/// Terminates `pid` by forcefully killing it and waiting for the monitor
/// to fire, then flushes the severed link. `Kill` is never trappable, so
/// the target is down when this returns.
pub fn shutdown_brutal_kill(k: &mut Kernel, self_pid: Pid, pid: Pid, monitor: Reference) -> (r:
    Result<(), ExitReason>)
    requires
        old(k).wf(),
        old(k).has_proc(self_pid),
        self_pid != pid,
        monitor_armed(*old(k), self_pid, pid, monitor),
    ensures
        shutdown_frame(*old(k), *final(k)),
        final(k).next_ref == old(k).next_ref,
        old(k).traps(self_pid) && old(k).is_alive(self_pid) ==> final(k).is_alive(self_pid),
        !final(k).is_alive(pid),
        r is Ok,
        // for a live trapping caller — the supervisor's posture — the
        // awaited monitor message is consumed and the monitor spent
        old(k).is_alive(self_pid) && old(k).traps(self_pid) ==> down_count(
            final(k).mailbox_of(self_pid),
            monitor,
        ) == 0,
        old(k).is_alive(pid) || !old(k).monitored(monitor) ==> !final(k).monitored(monitor),
        forall|ii: int|
            0 <= ii < final(k).mailbox_of(self_pid).len() ==> !(#[trigger] final(k).mailbox_of(
                self_pid,
            )[ii]).spec_is_exit_from(pid),
{
    k.exit_signal(self_pid, pid, &ExitReason::Kill);
    proof {
        let e = MonitorEntry { reference: monitor, watcher: self_pid, subject: pid };
        if old(k).is_alive(pid) {
            assert(old(k).spec_exit_kills(self_pid, pid, ExitReason::Kill));
            assert(old(k).monitors@.contains(e));
            if old(k).is_alive(self_pid) && old(k).traps(self_pid) {
                assert(down_count(k.mailbox_of(e.watcher), e.reference) == down_count(
                    old(k).mailbox_of(e.watcher),
                    e.reference,
                ) + 1);
                assert(down_count(k.mailbox_of(self_pid), monitor) == 1);
            }
            assert(!k.monitored(monitor)) by {
                if k.monitored(monitor) {
                    let l = choose|l: int|
                        0 <= l < k.monitors@.len() && k.monitors@[l].reference == monitor;
                    assert(k.monitors@.contains(k.monitors@[l]));
                    assert(old(k).monitors@.contains(k.monitors@[l]));
                    let m1 = choose|m: int|
                        0 <= m < old(k).monitors@.len() && old(k).monitors@[m]
                            == k.monitors@[l];
                    let m2 = choose|m: int|
                        0 <= m < old(k).monitors@.len() && old(k).monitors@[m] == e;
                    assert(m1 != m2 ==> old(k).monitors@[m1].reference
                        != old(k).monitors@[m2].reference);
                    assert(k.monitors@[l] == e);
                }
            }
        } else {
            lemma_stays_dead(*old(k), *k, pid);
            assert(*k == *old(k));
        }
        lemma_step_agree(*old(k), *k, self_pid);
        assert(!k.is_alive(pid));
        if old(k).is_alive(self_pid) && old(k).traps(self_pid) {
            assert(k.is_alive(self_pid));
            assert(down_count(k.mailbox_of(self_pid), monitor) == 0 || down_count(
                k.mailbox_of(self_pid),
                monitor,
            ) == 1);
        }
        assert(!old(k).monitored(monitor) ==> !k.monitored(monitor)) by {
            if !old(k).monitored(monitor) && k.monitored(monitor) {
                let l = choose|l: int|
                    0 <= l < k.monitors@.len() && k.monitors@[l].reference == monitor;
                assert(k.monitors@.contains(k.monitors@[l]));
                if old(k).is_alive(pid) {
                    assert(old(k).monitors@.contains(k.monitors@[l]));
                    let m = choose|m: int|
                        0 <= m < old(k).monitors@.len() && old(k).monitors@[m]
                            == k.monitors@[l];
                }
            }
        }
    }

    let ghost k1 = *k;
    let found = k.take_down(self_pid, monitor);
    proof {
        lemma_step_agree(k1, *k, self_pid);
        lemma_stays_dead(k1, *k, pid);
    }
    let reason = match found {
        Some(pair) => {
            proof {
                if old(k).is_alive(self_pid) && old(k).traps(self_pid) {
                    let ii = choose|ii: int|
                        0 <= ii < k1.mailbox_of(self_pid).len() && k1.mailbox_of(self_pid)[ii]
                            == Message::System(
                            SystemMessage::ProcessDown(pair.0, monitor, pair.1),
                        ) && (forall|jj: int|
                            0 <= jj < ii ==> !(#[trigger] k1.mailbox_of(self_pid)[jj]).spec_is_down_with(
                                monitor,
                            ));
                    assert(k1.mailbox_of(self_pid)[ii].spec_is_down_with(monitor));
                    Kernel::lemma_down_present_counts(k1.mailbox_of(self_pid), monitor, ii);
                    Kernel::lemma_down_count_remove(k1.mailbox_of(self_pid), monitor, ii);
                    assert(down_count(k.mailbox_of(self_pid), monitor) == 0);
                }
            }
            pair.1
        },
        None => {
            proof {
                if old(k).is_alive(self_pid) && old(k).traps(self_pid) {
                    let pred = |m: Message| m.spec_is_down_with(monitor);
                    k1.mailbox_of(self_pid).lemma_all_neg_filter_empty(pred);
                    assert(down_count(k.mailbox_of(self_pid), monitor) == 0);
                }
            }
            ExitReason::Kill
        },
    };
    let ghost k2 = *k;
    k.unlink_flush(self_pid, pid, reason);
    proof {
        lemma_step_agree(k2, *k, self_pid);
        lemma_stays_dead(k2, *k, pid);
        if old(k).is_alive(self_pid) && old(k).traps(self_pid) {
            assert forall|m: Message| #[trigger] m.spec_is_down_with(
                monitor,
            ) implies crate::kernel::spec_not_exit_from(pid)(m) by {}
            Kernel::lemma_down_count_filter(
                k2.mailbox_of(self_pid),
                crate::kernel::spec_not_exit_from(pid),
                monitor,
            );
            assert(down_count(k.mailbox_of(self_pid), monitor) == 0);
        }
        assert(k.monitors@ == k2.monitors@);
    }
    Ok(())
}

/// Terminates `pid` by gracefully asking first, then forcefully killing
/// it if the monitor has not fired within the caller's window. The window
/// itself elapses at the caller; by the time this returns, a non-trapping
/// target is down.
pub fn shutdown_timeout(k: &mut Kernel, self_pid: Pid, pid: Pid, monitor: Reference, timeout: u64)
    -> (r: Result<(), ExitReason>)
    requires
        old(k).wf(),
        old(k).has_proc(self_pid),
        self_pid != pid,
        monitor_armed(*old(k), self_pid, pid, monitor),
    ensures
        shutdown_frame(*old(k), *final(k)),
        final(k).next_ref == old(k).next_ref,
        old(k).traps(self_pid) && old(k).is_alive(self_pid) ==> final(k).is_alive(self_pid),
        !final(k).is_alive(pid),
        r is Ok,
        // for a live trapping caller — the supervisor's posture — the
        // awaited monitor message is consumed and the monitor spent
        old(k).is_alive(self_pid) && old(k).traps(self_pid) ==> down_count(
            final(k).mailbox_of(self_pid),
            monitor,
        ) == 0,
        old(k).is_alive(pid) || !old(k).monitored(monitor) ==> !final(k).monitored(monitor),
        forall|ii: int|
            0 <= ii < final(k).mailbox_of(self_pid).len() ==> !(#[trigger] final(k).mailbox_of(
                self_pid,
            )[ii]).spec_is_exit_from(pid),
{
    let _unused: u64 = timeout;
    let ask = ExitReason::custom("shutdown");
    k.exit_signal(self_pid, pid, &ask);
    proof {
        let e = MonitorEntry { reference: monitor, watcher: self_pid, subject: pid };
        if old(k).is_alive(pid) && !old(k).traps(pid) {
            assert(old(k).spec_exit_kills(self_pid, pid, ask));
            assert(!k.is_alive(pid));
            assert(old(k).monitors@.contains(e));
            if old(k).is_alive(self_pid) && old(k).traps(self_pid) {
                assert(down_count(k.mailbox_of(e.watcher), e.reference) == down_count(
                    old(k).mailbox_of(e.watcher),
                    e.reference,
                ) + 1);
                assert(down_count(k.mailbox_of(self_pid), monitor) == 1);
            }
            assert(!k.monitored(monitor)) by {
                if k.monitored(monitor) {
                    let l = choose|l: int|
                        0 <= l < k.monitors@.len() && k.monitors@[l].reference == monitor;
                    assert(k.monitors@.contains(k.monitors@[l]));
                    assert(old(k).monitors@.contains(k.monitors@[l]));
                    let m1 = choose|m: int|
                        0 <= m < old(k).monitors@.len() && old(k).monitors@[m]
                            == k.monitors@[l];
                    let m2 = choose|m: int|
                        0 <= m < old(k).monitors@.len() && old(k).monitors@[m] == e;
                    assert(m1 != m2 ==> old(k).monitors@[m1].reference
                        != old(k).monitors@[m2].reference);
                    assert(k.monitors@[l] == e);
                }
            }
        }
        if !old(k).is_alive(pid) {
            lemma_stays_dead(*old(k), *k, pid);
            assert(*k == *old(k));
        }
        if old(k).is_alive(pid) && old(k).traps(pid) {
            // the request is trapped: the armed monitor has not fired, and
            // the graceful delivery cannot fire it either
            assert(old(k).spec_exit_delivers(pid, ask));
            assert(down_count(old(k).mailbox_of(self_pid), monitor) == 0);
            let si = old(k).idx_of(self_pid);
            let ti = old(k).idx_of(pid);
            old(k).lemma_idx(self_pid, si);
            old(k).lemma_idx(pid, ti);
            assert(si != ti);
            Kernel::lemma_views_agree_weak(*old(k), *k, self_pid);
            assert(k.procs@[si] == old(k).procs@[si]);
            assert(k.mailbox_of(self_pid) == old(k).mailbox_of(self_pid));
            assert(down_count(k.mailbox_of(self_pid), monitor) == 0);
        }
        lemma_step_agree(*old(k), *k, self_pid);
    }

    let ghost k1 = *k;
    match k.take_down(self_pid, monitor) {
        Some(pair) => {
            proof {
                lemma_step_agree(k1, *k, self_pid);
                let ii = choose|ii: int|
                    0 <= ii < k1.mailbox_of(self_pid).len() && k1.mailbox_of(self_pid)[ii]
                        == Message::System(
                        SystemMessage::ProcessDown(pair.0, monitor, pair.1),
                    ) && (forall|jj: int|
                        0 <= jj < ii ==> !(#[trigger] k1.mailbox_of(self_pid)[jj]).spec_is_down_with(
                            monitor,
                        ));
                assert(k1.mailbox_of(self_pid)[ii].spec_is_down_with(monitor));
                Kernel::lemma_down_present_counts(k1.mailbox_of(self_pid), monitor, ii);
                if old(k).is_alive(pid) && old(k).traps(pid) {
                    // a ProcessDown tagged with the armed monitor was taken
                    // out of a mailbox that provably held none
                    assert(false);
                }
                if old(k).is_alive(self_pid) && old(k).traps(self_pid) {
                    Kernel::lemma_down_count_remove(k1.mailbox_of(self_pid), monitor, ii);
                    assert(down_count(k.mailbox_of(self_pid), monitor) == 0);
                }
                lemma_stays_dead(k1, *k, pid);
            }
            let ghost k2 = *k;
            k.unlink_flush(self_pid, pid, pair.1);
            proof {
                lemma_step_agree(k2, *k, self_pid);
                lemma_stays_dead(k2, *k, pid);
                if old(k).is_alive(self_pid) && old(k).traps(self_pid) {
                    assert forall|m: Message| #[trigger] m.spec_is_down_with(
                        monitor,
                    ) implies crate::kernel::spec_not_exit_from(pid)(m) by {}
                    Kernel::lemma_down_count_filter(
                        k2.mailbox_of(self_pid),
                        crate::kernel::spec_not_exit_from(pid),
                        monitor,
                    );
                    assert(down_count(k.mailbox_of(self_pid), monitor) == 0);
                }
                assert(k.monitors@ == k2.monitors@);
            }
            Ok(())
        },
        None => {
            // The graceful window elapsed without the monitor firing:
            // escalate to a kill, reusing the same monitor.
            proof {
                lemma_step_agree(k1, *k, self_pid);
                if old(k).is_alive(self_pid) && old(k).traps(self_pid) {
                    let pred = |m: Message| m.spec_is_down_with(monitor);
                    k1.mailbox_of(self_pid).lemma_all_neg_filter_empty(pred);
                    assert(down_count(k.mailbox_of(self_pid), monitor) == 0);
                }
            }
            let ghost kb = *k;
            k.exit_signal(self_pid, pid, &ExitReason::Kill);
            proof {
                let e = MonitorEntry { reference: monitor, watcher: self_pid, subject: pid };
                if kb.is_alive(pid) {
                    assert(kb.spec_exit_kills(self_pid, pid, ExitReason::Kill));
                    if old(k).monitors@.contains(e) {
                        assert(kb.monitors@.contains(e));
                        if old(k).is_alive(self_pid) && old(k).traps(self_pid) {
                            assert(kb.is_alive(self_pid) && kb.traps(self_pid));
                            assert(down_count(k.mailbox_of(e.watcher), e.reference)
                                == down_count(kb.mailbox_of(e.watcher), e.reference) + 1);
                            assert(down_count(k.mailbox_of(self_pid), monitor) == 1);
                        }
                    } else {
                        assert(!kb.monitored(monitor)) by {
                            if kb.monitored(monitor) {
                                let l = choose|l: int|
                                    0 <= l < kb.monitors@.len() && kb.monitors@[l].reference
                                        == monitor;
                                assert(kb.monitors@.contains(kb.monitors@[l]));
                                assert(old(k).monitors@.contains(kb.monitors@[l]));
                                let m1 = choose|m: int|
                                    0 <= m < old(k).monitors@.len() && old(k).monitors@[m]
                                        == kb.monitors@[l];
                            }
                        }
                        if old(k).is_alive(self_pid) && old(k).traps(self_pid) {
                            assert(down_count(k.mailbox_of(self_pid), monitor) == down_count(
                                kb.mailbox_of(self_pid),
                                monitor,
                            ));
                        }
                    }
                } else {
                    lemma_stays_dead(kb, *k, pid);
                    assert(*k == kb);
                }
                lemma_step_agree(kb, *k, self_pid);
                assert(!k.is_alive(pid));
                // the monitor is spent on every live path
                if old(k).is_alive(pid) || !old(k).monitored(monitor) {
                    assert(!k.monitored(monitor)) by {
                        if k.monitored(monitor) {
                            let l = choose|l: int|
                                0 <= l < k.monitors@.len() && k.monitors@[l].reference
                                    == monitor;
                            assert(k.monitors@.contains(k.monitors@[l]));
                            if kb.is_alive(pid) {
                                assert(kb.monitors@.contains(k.monitors@[l])
                                    && k.monitors@[l].subject != pid);
                                assert(old(k).monitors@.contains(k.monitors@[l]));
                                let m1 = choose|m: int|
                                    0 <= m < old(k).monitors@.len() && old(k).monitors@[m]
                                        == k.monitors@[l];
                                if old(k).monitored(monitor) {
                                    let e2 = MonitorEntry {
                                        reference: monitor,
                                        watcher: self_pid,
                                        subject: pid,
                                    };
                                    let m2 = choose|m: int|
                                        0 <= m < old(k).monitors@.len() && old(k).monitors@[m]
                                            == e2;
                                    assert(m1 != m2 ==> old(k).monitors@[m1].reference
                                        != old(k).monitors@[m2].reference);
                                    assert(k.monitors@[l] == e2);
                                } else {
                                    let l2 = choose|l2: int|
                                        0 <= l2 < old(k).monitors@.len()
                                            && old(k).monitors@[l2] == k.monitors@[l];
                                    assert(old(k).monitored(monitor));
                                }
                            } else {
                                assert(kb.monitored(monitor));
                                assert(old(k).is_alive(pid) ==> !kb.is_alive(pid));
                                assert(!old(k).is_alive(pid));
                                let l2 = choose|l2: int|
                                    0 <= l2 < kb.monitors@.len() && kb.monitors@[l2].reference
                                        == monitor;
                                assert(kb.monitors@.contains(kb.monitors@[l2]));
                                assert(old(k).monitors@.contains(kb.monitors@[l2]));
                                let m3 = choose|m: int|
                                    0 <= m < old(k).monitors@.len() && old(k).monitors@[m]
                                        == kb.monitors@[l2];
                                assert(old(k).monitored(monitor));
                            }
                        }
                    }
                }
            }
            let ghost kc = *k;
            let found = k.take_down(self_pid, monitor);
            proof {
                lemma_step_agree(kc, *k, self_pid);
                lemma_stays_dead(kc, *k, pid);
            }
            let reason = match found {
                Some(pair) => {
                    proof {
                        if old(k).is_alive(self_pid) && old(k).traps(self_pid) {
                            let ii = choose|ii: int|
                                0 <= ii < kc.mailbox_of(self_pid).len() && kc.mailbox_of(
                                    self_pid,
                                )[ii] == Message::System(
                                    SystemMessage::ProcessDown(pair.0, monitor, pair.1),
                                ) && (forall|jj: int|
                                    0 <= jj < ii ==> !(#[trigger] kc.mailbox_of(self_pid)[jj]).spec_is_down_with(
                                        monitor,
                                    ));
                            assert(kc.mailbox_of(self_pid)[ii].spec_is_down_with(monitor));
                            Kernel::lemma_down_present_counts(
                                kc.mailbox_of(self_pid),
                                monitor,
                                ii,
                            );
                            Kernel::lemma_down_count_remove(kc.mailbox_of(self_pid), monitor, ii);
                            assert(down_count(k.mailbox_of(self_pid), monitor) == 0);
                        }
                    }
                    pair.1
                },
                None => {
                    proof {
                        if old(k).is_alive(self_pid) && old(k).traps(self_pid) {
                            let pred = |m: Message| m.spec_is_down_with(monitor);
                            kc.mailbox_of(self_pid).lemma_all_neg_filter_empty(pred);
                            assert(down_count(k.mailbox_of(self_pid), monitor) == 0);
                        }
                    }
                    ExitReason::Kill
                },
            };
            let ghost kd = *k;
            k.unlink_flush(self_pid, pid, reason);
            proof {
                lemma_step_agree(kd, *k, self_pid);
                lemma_stays_dead(kd, *k, pid);
                if old(k).is_alive(self_pid) && old(k).traps(self_pid) {
                    assert forall|m: Message| #[trigger] m.spec_is_down_with(
                        monitor,
                    ) implies crate::kernel::spec_not_exit_from(pid)(m) by {}
                    Kernel::lemma_down_count_filter(
                        kd.mailbox_of(self_pid),
                        crate::kernel::spec_not_exit_from(pid),
                        monitor,
                    );
                    assert(down_count(k.mailbox_of(self_pid), monitor) == 0);
                }
                assert(k.monitors@ == kd.monitors@);
            }
            Ok(())
        },
    }
}

/// Terminates `pid` by gracefully waiting for the monitor to fire, with
/// no time bound. In this synchronous model the wait cannot suspend: if
/// the target traps the request and stays alive, the pending wait is
/// reported as an error instead of blocking forever.
pub fn shutdown_infinity(k: &mut Kernel, self_pid: Pid, pid: Pid, monitor: Reference) -> (r:
    Result<(), ExitReason>)
    requires
        old(k).wf(),
        old(k).is_alive(self_pid),
        self_pid != pid,
        monitor_armed(*old(k), self_pid, pid, monitor),
    ensures
        shutdown_frame(*old(k), *final(k)),
        final(k).next_ref == old(k).next_ref,
        old(k).traps(self_pid) && old(k).is_alive(self_pid) ==> final(k).is_alive(self_pid),
        old(k).is_alive(pid) && !old(k).traps(pid) ==> r is Ok && !final(k).is_alive(pid),
        old(k).is_alive(pid) && old(k).traps(pid) ==> r is Err && final(k).is_alive(pid),
{
    let ask = ExitReason::custom("shutdown");
    k.exit_signal(self_pid, pid, &ask);
    proof {
        let e = MonitorEntry { reference: monitor, watcher: self_pid, subject: pid };
        if old(k).is_alive(pid) && !old(k).traps(pid) {
            assert(old(k).spec_exit_kills(self_pid, pid, ask));
            if old(k).monitors@.contains(e) {
                assert(down_count(k.mailbox_of(e.watcher), e.reference) == down_count(
                    old(k).mailbox_of(e.watcher),
                    e.reference,
                ) + 1);
            } else {
                assert(!old(k).monitored(monitor));
                assert(down_count(k.mailbox_of(self_pid), monitor) == down_count(
                    old(k).mailbox_of(self_pid),
                    monitor,
                ));
            }
            assert(down_count(k.mailbox_of(self_pid), monitor) > 0);
        }
        if old(k).is_alive(pid) && old(k).traps(pid) {
            assert(old(k).spec_exit_delivers(pid, ask));
            assert(down_count(old(k).mailbox_of(self_pid), monitor) == 0);
            let si = old(k).idx_of(self_pid);
            let ti = old(k).idx_of(pid);
            old(k).lemma_idx(self_pid, si);
            old(k).lemma_idx(pid, ti);
            assert(si != ti);
            Kernel::lemma_views_agree_weak(*old(k), *k, self_pid);
            assert(k.procs@[si] == old(k).procs@[si]);
            assert(k.mailbox_of(self_pid) == old(k).mailbox_of(self_pid));
            assert(down_count(k.mailbox_of(self_pid), monitor) == 0);
        }
        lemma_step_agree(*old(k), *k, self_pid);
    }

    let ghost asked = *k;
    match k.take_down(self_pid, monitor) {
        Some(pair) => {
            proof {
                lemma_step_agree(asked, *k, self_pid);
                if old(k).is_alive(pid) && old(k).traps(pid) {
                    let ii = choose|ii: int|
                        0 <= ii < asked.mailbox_of(self_pid).len() && asked.mailbox_of(
                            self_pid,
                        )[ii] == Message::System(
                            SystemMessage::ProcessDown(pair.0, monitor, pair.1),
                        ) && (forall|jj: int|
                            0 <= jj < ii ==> !(#[trigger] asked.mailbox_of(self_pid)[jj]).spec_is_down_with(
                                monitor,
                            ));
                    assert(asked.mailbox_of(self_pid)[ii].spec_is_down_with(monitor));
                    Kernel::lemma_down_present_counts(asked.mailbox_of(self_pid), monitor, ii);
                    assert(false);
                }
                if old(k).is_alive(pid) && !old(k).traps(pid) {
                    lemma_stays_dead(asked, *k, pid);
                }
            }
            let ghost k2 = *k;
            k.unlink_flush(self_pid, pid, pair.1);
            proof {
                lemma_step_agree(k2, *k, self_pid);
                if old(k).is_alive(pid) && !old(k).traps(pid) {
                    lemma_stays_dead(k2, *k, pid);
                }
            }
            Ok(())
        },
        None => {
            proof {
                if old(k).is_alive(pid) && !old(k).traps(pid) {
                    let pred = |m: Message| m.spec_is_down_with(monitor);
                    asked.mailbox_of(self_pid).lemma_all_neg_filter_empty(pred);
                    assert(down_count(asked.mailbox_of(self_pid), monitor) == 0);
                    assert(false);
                }
                if old(k).is_alive(pid) && old(k).traps(pid) {
                    assert(k.is_alive(pid));
                }
            }
            Err(ExitReason::custom("timeout"))
        },
    }
}

/// Terminates the given `pid` using the given `policy`, from the process
/// `self_pid`: monitor the target, dispatch by policy, and do not return
/// before the target is confirmed down (for a non-trapping target; a
/// trapping one can hold off everything but `BrutalKill`).
pub fn shutdown(k: &mut Kernel, self_pid: Pid, pid: Pid, policy: Shutdown) -> (r: Result<
    (),
    ExitReason,
>)
    requires
        old(k).wf(),
        old(k).is_alive(self_pid),
        self_pid != pid,
        old(k).next_ref < u64::MAX,
    ensures
        final(k).wf(),
        final(k).next_ref == old(k).next_ref + 1,
        final(k).node == old(k).node,
        final(k).next_serial == old(k).next_serial,
        old(k).traps(self_pid) ==> final(k).is_alive(self_pid),
        final(k).procs@.len() == old(k).procs@.len(),
        forall|j: int|
            0 <= j < old(k).procs@.len() ==> (#[trigger] final(k).procs@[j]).pid == old(
                k,
            ).procs@[j].pid && final(k).procs@[j].trap_exit == old(k).procs@[j].trap_exit && (
            final(k).procs@[j].alive ==> old(k).procs@[j].alive),
        policy == Shutdown::BrutalKill ==> !final(k).is_alive(pid) && r is Ok,
        policy matches Shutdown::Duration(_) ==> !final(k).is_alive(pid) && r is Ok,
        policy != Shutdown::Infinity ==> forall|ii: int|
            0 <= ii < final(k).mailbox_of(self_pid).len() ==> !(#[trigger] final(k).mailbox_of(
                self_pid,
            )[ii]).spec_is_exit_from(pid),
        // one monitor was created, tagged with the old reference bound;
        // on the completed policies its one firing is consumed by the
        // caller — a live trapping one, the supervisor's posture — and it
        // can never fire again
        policy != Shutdown::Infinity && old(k).traps(self_pid) ==> down_count(
            final(k).mailbox_of(self_pid),
            Reference { id: old(k).next_ref },
        ) == 0 && !final(k).monitored(Reference { id: old(k).next_ref }),
        policy == Shutdown::Infinity ==> (old(k).is_alive(pid) && !old(k).traps(pid) ==> r is Ok
            && !final(k).is_alive(pid)),
{
    let monitor = k.monitor(self_pid, pid);
    proof {
        old(k).lemma_fresh_ref_unfired(self_pid, monitor);
        if old(k).is_alive(pid) {
            assert(k.monitors@[old(k).monitors@.len() as int] == (MonitorEntry {
                reference: monitor,
                watcher: self_pid,
                subject: pid,
            }));
            assert(k.monitors@.contains(
                MonitorEntry { reference: monitor, watcher: self_pid, subject: pid },
            ));
            assert(k.procs@ == old(k).procs@);
            Kernel::lemma_views_agree_weak(*old(k), *k, self_pid);
            assert(k.mailbox_of(self_pid) == old(k).mailbox_of(self_pid));
            assert(down_count(k.mailbox_of(self_pid), monitor) == 0);
        } else {
            lemma_down_count_push(
                old(k).mailbox_of(self_pid),
                k.mailbox_of(self_pid).last(),
                monitor,
            );
            assert(!k.monitored(monitor)) by {
                if k.monitored(monitor) {
                    let l = choose|l: int|
                        0 <= l < k.monitors@.len() && k.monitors@[l].reference == monitor;
                    assert(old(k).monitors@[l].reference.id < old(k).next_ref);
                }
            }
        }
        assert(monitor_armed(*k, self_pid, pid, monitor));
        lemma_step_agree(*old(k), *k, self_pid);
        Kernel::lemma_views_agree_weak(*old(k), *k, pid);
        assert(k.is_alive(self_pid));
        assert(old(k).traps(self_pid) ==> k.traps(self_pid));
        assert(old(k).is_alive(pid) ==> k.is_alive(pid));
        assert(!old(k).is_alive(pid) ==> !k.is_alive(pid) && !k.monitored(monitor));
        assert(monitor == (Reference { id: old(k).next_ref }));
    }

    match policy {
        Shutdown::BrutalKill => shutdown_brutal_kill(k, self_pid, pid, monitor),
        Shutdown::Duration(timeout) => shutdown_timeout(k, self_pid, pid, monitor, timeout),
        Shutdown::Infinity => shutdown_infinity(k, self_pid, pid, monitor),
    }
}

} // verus!
