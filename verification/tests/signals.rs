use hydra::child::Shutdown;
use hydra::kernel::Kernel;
use hydra::session::accept_handshake;
use hydra::session::receiver_step;
use hydra::session::sender_step;
use hydra::session::supervisor_step;
use hydra::session::validate_hello;
use hydra::session::Frame;
use hydra::session::HandshakeConfig;
use hydra::session::Hello;
use hydra::session::ReceiverAction;
use hydra::session::ReceiverEvent;
use hydra::session::SenderAction;
use hydra::session::SenderEvent;
use hydra::shutdown::shutdown;
use hydra::types::ExitReason;
use hydra::types::Message;
use hydra::types::Pid;
use hydra::types::Reference;
use hydra::types::SystemMessage;

fn mailbox_of(k: &Kernel, p: Pid) -> Vec<Message> {
    for rec in &k.procs {
        if rec.pid == p {
            return rec.mailbox.clone();
        }
    }
    panic!("no such process");
}

fn count_downs(k: &Kernel, p: Pid, tag: Reference) -> usize {
    mailbox_of(k, p)
        .iter()
        .filter(|m| matches!(m, Message::System(SystemMessage::ProcessDown(_, t, _)) if *t == tag))
        .count()
}

fn count_exits_from(k: &Kernel, p: Pid, from: Pid) -> usize {
    mailbox_of(k, p)
        .iter()
        .filter(|m| matches!(m, Message::System(SystemMessage::Exit(f, _)) if *f == from))
        .count()
}

#[test]
fn links_are_symmetric_and_severed_on_both_ends() {
    let mut k = Kernel::new(1);
    let a = k.spawn(false);
    let b = k.spawn(false);
    k.link(a, b);
    assert!(k.is_linked(a, b));
    assert!(k.is_linked(b, a));
    k.unlink(b, a);
    assert!(!k.is_linked(a, b));
    assert!(!k.is_linked(b, a));
}

#[test]
fn normal_exit_does_not_terminate_a_non_trapping_peer() {
    let mut k = Kernel::new(1);
    let a = k.spawn(false);
    let b = k.spawn_link(a, false);
    k.terminate(b, &ExitReason::Normal);
    // b is gone, its non-trapping linked peer is untouched
    assert!(k.find_alive(a));
    assert!(!k.find_alive(b));
}

#[test]
fn abnormal_exit_cascades_over_links() {
    let mut k = Kernel::new(1);
    let a = k.spawn(false);
    let b = k.spawn_link(a, false);
    k.terminate(b, &ExitReason::custom("boom"));
    assert!(!k.find_alive(a));
    assert!(!k.find_alive(b));
}

#[test]
fn a_trapping_peer_gets_a_message_instead_of_dying() {
    let mut k = Kernel::new(1);
    let a = k.spawn(true);
    let b = k.spawn_link(a, false);
    k.terminate(b, &ExitReason::custom("boom"));
    assert!(k.find_alive(a));
    assert_eq!(count_exits_from(&k, a, b), 1);
}

#[test]
fn monitor_fires_exactly_once() {
    let mut k = Kernel::new(1);
    let watcher = k.spawn(false);
    let subject = k.spawn(false);
    let tag = k.monitor(watcher, subject);
    k.terminate(subject, &ExitReason::custom("boom"));
    assert_eq!(count_downs(&k, watcher, tag), 1);
    // the entry is one-shot: nothing else can fire it again
    k.exit_signal(watcher, subject, &ExitReason::Kill);
    assert_eq!(count_downs(&k, watcher, tag), 1);
}

#[test]
fn demonitor_silences_the_monitor() {
    let mut k = Kernel::new(1);
    let watcher = k.spawn(false);
    let subject = k.spawn(false);
    let tag = k.monitor(watcher, subject);
    k.demonitor(tag);
    k.terminate(subject, &ExitReason::custom("boom"));
    assert_eq!(count_downs(&k, watcher, tag), 0);
}

#[test]
fn monitoring_a_dead_process_reports_noproc_at_once() {
    let mut k = Kernel::new(1);
    let watcher = k.spawn(false);
    let subject = k.spawn(false);
    k.terminate(subject, &ExitReason::Normal);
    let tag = k.monitor(watcher, subject);
    let mb = mailbox_of(&k, watcher);
    assert_eq!(mb.len(), 1);
    match &mb[0] {
        Message::System(SystemMessage::ProcessDown(s, t, reason)) => {
            assert_eq!(*s, subject);
            assert_eq!(*t, tag);
            assert_eq!(*reason, ExitReason::custom("noproc"));
        }
        other => panic!("expected a ProcessDown, got {:?}", other),
    }
}

#[test]
fn unlink_flush_leaves_no_exit_from_the_peer() {
    let mut k = Kernel::new(1);
    let sup = k.spawn(true);
    let child = k.spawn_link(sup, false);
    k.terminate(child, &ExitReason::custom("late"));
    assert_eq!(count_exits_from(&k, sup, child), 1);

    let reason = k.unlink_flush(sup, child, ExitReason::Normal);
    assert_eq!(reason, ExitReason::custom("late"));
    assert_eq!(count_exits_from(&k, sup, child), 0);
}

#[test]
fn unlink_flush_returns_the_default_when_nothing_is_pending() {
    let mut k = Kernel::new(1);
    let sup = k.spawn(true);
    let other = k.spawn(false);
    let reason = k.unlink_flush(sup, other, ExitReason::custom("fallback"));
    assert_eq!(reason, ExitReason::custom("fallback"));
}

#[test]
fn kill_is_not_trappable() {
    let mut k = Kernel::new(1);
    let a = k.spawn(false);
    let b = k.spawn(true);
    k.exit_signal(a, b, &ExitReason::Kill);
    assert!(!k.find_alive(b));
}

#[test]
fn a_trapped_exit_signal_is_delivered_as_a_message() {
    let mut k = Kernel::new(1);
    let a = k.spawn(false);
    let b = k.spawn(true);
    k.exit_signal(a, b, &ExitReason::custom("stop"));
    assert!(k.find_alive(b));
    assert_eq!(count_exits_from(&k, b, a), 1);
}

#[test]
fn shutdown_brutal_kill_confirms_the_death() {
    let mut k = Kernel::new(1);
    let sup = k.spawn(true);
    let child = k.spawn_link(sup, false);
    let r = shutdown(&mut k, sup, child, Shutdown::BrutalKill);
    assert!(r.is_ok());
    assert!(!k.find_alive(child));
    assert!(k.find_alive(sup));
    assert_eq!(count_exits_from(&k, sup, child), 0);
}

#[test]
fn shutdown_timeout_escalates_on_a_child_that_ignores_it() {
    // The child traps exits and never honors the "shutdown" request; the
    // graceful window elapses and the kill brings it down anyway.
    let mut k = Kernel::new(1);
    let sup = k.spawn(true);
    let child = k.spawn_link(sup, true);
    let r = shutdown(&mut k, sup, child, Shutdown::Duration(100));
    assert!(r.is_ok());
    assert!(!k.find_alive(child));
    assert!(k.find_alive(sup));
}

#[test]
fn shutdown_timeout_takes_the_graceful_path_when_honored() {
    let mut k = Kernel::new(1);
    let sup = k.spawn(true);
    let child = k.spawn_link(sup, false);
    let r = shutdown(&mut k, sup, child, Shutdown::Duration(100));
    assert!(r.is_ok());
    assert!(!k.find_alive(child));
}

#[test]
fn shutdown_infinity_waits_on_a_trapping_child() {
    let mut k = Kernel::new(1);
    let sup = k.spawn(true);
    let child = k.spawn_link(sup, true);
    let r = shutdown(&mut k, sup, child, Shutdown::Infinity);
    // the child holds the graceful request off: the wait is still pending
    assert!(r.is_err());
    assert!(k.find_alive(child));
}

#[test]
fn handshake_rejects_a_mismatched_cookie() {
    let config = HandshakeConfig { cookie: b"secret".to_vec(), version: 1 };
    let hello = Hello {
        name: b"peer".to_vec(),
        broadcast_address: b"10.0.0.2:4000".to_vec(),
        cookie: b"wrong".to_vec(),
        version: 1,
    };
    assert!(!validate_hello(&hello, &config));
    assert!(accept_handshake(Frame::Hello(hello), &config).is_err());
}

#[test]
fn handshake_accepts_a_matching_hello() {
    let config = HandshakeConfig { cookie: b"secret".to_vec(), version: 1 };
    let hello = Hello {
        name: b"peer".to_vec(),
        broadcast_address: b"10.0.0.2:4000".to_vec(),
        cookie: b"secret".to_vec(),
        version: 1,
    };
    assert!(validate_hello(&hello, &config));
    assert!(accept_handshake(Frame::Hello(hello), &config).is_ok());
}

#[test]
fn handshake_rejects_an_empty_name_and_a_version_skew() {
    let config = HandshakeConfig { cookie: Vec::new(), version: 1 };
    let unnamed = Hello {
        name: Vec::new(),
        broadcast_address: Vec::new(),
        cookie: Vec::new(),
        version: 1,
    };
    assert!(!validate_hello(&unnamed, &config));
    let skewed = Hello {
        name: b"peer".to_vec(),
        broadcast_address: Vec::new(),
        cookie: Vec::new(),
        version: 2,
    };
    assert!(!validate_hello(&skewed, &config));
    assert!(accept_handshake(Frame::Ping, &config).is_err());
}

#[test]
fn receiver_times_out_when_the_peer_goes_quiet() {
    // With heartbeat_timeout elapsed and no frame read, the receiver
    // stops, and the link graph tears the session down.
    assert!(matches!(receiver_step(ReceiverEvent::TimedOut), ReceiverAction::Stop));
    assert!(matches!(receiver_step(ReceiverEvent::ReadError), ReceiverAction::Stop));
    assert!(matches!(
        receiver_step(ReceiverEvent::Got(Frame::Ping)),
        ReceiverAction::AskPong
    ));
    assert!(matches!(
        receiver_step(ReceiverEvent::Got(Frame::Pong)),
        ReceiverAction::RecordLiveness
    ));
    match receiver_step(ReceiverEvent::Got(Frame::User(7, 99))) {
        ReceiverAction::Deliver(serial, payload) => {
            assert_eq!(serial, 7);
            assert_eq!(payload, 99);
        }
        other => panic!("expected a delivery, got {:?}", other),
    }
}

#[test]
fn sender_pings_on_a_quiet_interval() {
    assert!(matches!(
        sender_step(SenderEvent::TimedOut),
        SenderAction::Write(Frame::Ping)
    ));
    assert!(matches!(
        sender_step(SenderEvent::SendFrame(Frame::Pong)),
        SenderAction::Write(Frame::Pong)
    ));
}

#[test]
fn session_supervisor_routes_pongs_through_the_sender() {
    let sender = Pid { node: 1, serial: 42 };
    match supervisor_step(true, sender) {
        Some((target, frame)) => {
            assert_eq!(target, sender);
            assert!(matches!(frame, Frame::Pong));
        }
        None => panic!("expected a forwarded pong"),
    }
    assert!(supervisor_step(false, sender).is_none());
}

#[test]
fn trap_exit_can_be_set_after_spawn() {
    let mut k = Kernel::new(1);
    let a = k.spawn(false);
    let b = k.spawn(false);
    k.set_trap_exit(b, true);
    k.exit_signal(a, b, &ExitReason::custom("stop"));
    assert!(k.find_alive(b));
    assert_eq!(count_exits_from(&k, b, a), 1);
}

#[test]
fn send_user_reaches_only_live_processes() {
    let mut k = Kernel::new(1);
    let a = k.spawn(false);
    assert!(k.send_user(a, 7));
    assert_eq!(mailbox_of(&k, a).len(), 1);
    k.terminate(a, &ExitReason::Normal);
    assert!(!k.send_user(a, 8));
}
