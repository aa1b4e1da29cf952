//! The remote-node session logic: the handshake validation and the
//! decision steps of the sender, receiver and session-supervisor
//! processes. The socket work around them — reads, writes, timers —
//! happens outside; each step takes what arrived and says what to do.

use vstd::prelude::*;

use crate::types::Pid;

verus! {

/// What a `Hello` frame carries: the peer's name, where it can be
/// reached, the shared-secret cookie, and the protocol version.
#[derive(Clone, Debug)]
pub struct Hello {
    pub name: Vec<u8>,
    pub broadcast_address: Vec<u8>,
    pub cookie: Vec<u8>,
    pub version: u16,
}

/// One frame of the wire protocol.
#[derive(Clone, Debug)]
pub enum Frame {
    /// Sent exactly once per connection, first.
    Hello(Hello),
    /// Heartbeat request.
    Ping,
    /// Heartbeat reply.
    Pong,
    /// An envelope carrying a serialized cross-node message: the target's
    /// local serial and an opaque payload token.
    User(u64, u64),
}

/// The local node's handshake expectations.
#[derive(Clone, Debug)]
pub struct HandshakeConfig {
    /// Empty means no cookie is configured and none is checked.
    pub cookie: Vec<u8>,
    pub version: u16,
}

/// Compares two byte strings.
fn bytes_eq(a: &Vec<u8>, b: &Vec<u8>) -> (r: bool)
    ensures
        r == (a@ == b@),
{
    if a.len() != b.len() {
        proof {
            assert(a@ != b@);
        }
        return false;
    }
    let mut i: usize = 0;
    while i < a.len()
        invariant
            i <= a@.len(),
            a@.len() == b@.len(),
            forall|j: int| 0 <= j < i ==> a@[j] == b@[j],
        decreases a@.len() - i,
    {
        if a[i] != b[i] {
            proof {
                assert(a@[i as int] != b@[i as int]);
            }
            return false;
        }
        i += 1;
    }
    proof {
        assert(a@ =~= b@);
    }
    true
}

/// Whether a peer `Hello` is acceptable: the name is non-empty, the
/// version matches, and the cookie matches whenever one is configured.
pub open spec fn spec_hello_valid(hello: Hello, config: HandshakeConfig) -> bool {
    &&& hello.name@.len() > 0
    &&& hello.version == config.version
    &&& (config.cookie@.len() > 0 ==> hello.cookie@ == config.cookie@)
}

/// Validates a peer `Hello` against the local expectations.
pub fn validate_hello(hello: &Hello, config: &HandshakeConfig) -> (r: bool)
    ensures
        r == spec_hello_valid(*hello, *config),
{
    if hello.name.len() == 0 {
        return false;
    }
    if hello.version != config.version {
        return false;
    }
    if config.cookie.len() > 0 {
        return bytes_eq(&hello.cookie, &config.cookie);
    }
    true
}

/// What the handshake decides about the first frame a peer sends: the
/// session goes ahead with the validated `Hello`, or the socket is
/// closed with nothing registered.
pub fn accept_handshake(frame: Frame, config: &HandshakeConfig) -> (r: Result<Hello, ()>)
    ensures
        match r {
            Ok(hello) => frame == Frame::Hello(hello) && spec_hello_valid(hello, *config),
            Err(()) => !(frame matches Frame::Hello(h) && spec_hello_valid(h, *config)),
        },
{
    match frame {
        Frame::Hello(hello) => {
            if validate_hello(&hello, config) {
                Ok(hello)
            } else {
                Err(())
            }
        },
        _ => Err(()),
    }
}

/// What drove one turn of the receiver task.
#[derive(Clone, Debug)]
pub enum ReceiverEvent {
    /// No frame arrived within `heartbeat_timeout`.
    TimedOut,
    /// The transport failed.
    ReadError,
    /// A frame arrived.
    Got(Frame),
}

/// What the receiver does next. The receiver never writes to the socket
/// itself, so a heartbeat reply is routed through the session supervisor
/// to the sender, preserving frame ordering.
#[derive(Clone, Debug)]
pub enum ReceiverAction {
    /// Terminate the session: the link graph tears the triad down.
    Stop,
    /// Ask the session supervisor to have the sender emit a `Pong`.
    AskPong,
    /// Record that the peer is alive.
    RecordLiveness,
    /// Hand the payload to the addressed local process.
    Deliver(u64, u64),
}

/// One turn of the receiver task: a timeout or a transport error ends the
/// session; `Ping` asks for a `Pong`; `Pong` records liveness; `User` is
/// demultiplexed; a mid-session `Hello` is a protocol error.
pub fn receiver_step(event: ReceiverEvent) -> (r: ReceiverAction)
    ensures
        match event {
            ReceiverEvent::TimedOut => r == ReceiverAction::Stop,
            ReceiverEvent::ReadError => r == ReceiverAction::Stop,
            ReceiverEvent::Got(frame) => match frame {
                Frame::Hello(_) => r == ReceiverAction::Stop,
                Frame::Ping => r == ReceiverAction::AskPong,
                Frame::Pong => r == ReceiverAction::RecordLiveness,
                Frame::User(serial, payload) => r == ReceiverAction::Deliver(serial, payload),
            },
        },
{
    match event {
        ReceiverEvent::TimedOut => ReceiverAction::Stop,
        ReceiverEvent::ReadError => ReceiverAction::Stop,
        ReceiverEvent::Got(frame) => match frame {
            Frame::Hello(_) => ReceiverAction::Stop,
            Frame::Ping => ReceiverAction::AskPong,
            Frame::Pong => ReceiverAction::RecordLiveness,
            Frame::User(serial, payload) => ReceiverAction::Deliver(serial, payload),
        },
    }
}

/// What drove one turn of the sender task.
#[derive(Clone, Debug)]
pub enum SenderEvent {
    /// No send request arrived within `heartbeat_interval`.
    TimedOut,
    /// A frame was asked to be sent.
    SendFrame(Frame),
}

/// What the sender does next: on a quiet interval it emits a heartbeat,
/// otherwise it writes the requested frame. A write error afterwards
/// terminates the sender, and the link tears the session down.
#[derive(Clone, Debug)]
pub enum SenderAction {
    Write(Frame),
}

/// One turn of the sender task.
pub fn sender_step(event: SenderEvent) -> (r: SenderAction)
    ensures
        match event {
            SenderEvent::TimedOut => r == SenderAction::Write(Frame::Ping),
            SenderEvent::SendFrame(frame) => r == SenderAction::Write(frame),
        },
{
    match event {
        SenderEvent::TimedOut => SenderAction::Write(Frame::Ping),
        SenderEvent::SendFrame(frame) => SenderAction::Write(frame),
    }
}

/// What the session supervisor does with a mailbox entry: a `SendPong`
/// request is forwarded to the sender process; everything else is not a
/// supervisor message and stops the session.
pub fn supervisor_step(ask_pong: bool, sender: Pid) -> (r: Option<(Pid, Frame)>)
    ensures
        ask_pong ==> r == Some((sender, Frame::Pong)),
        !ask_pong ==> r is None,
{
    if ask_pong {
        Some((sender, Frame::Pong))
    } else {
        None
    }
}

} // verus!
