//! Handshake client logic: the fixed 68-byte wire message, the reading
//! of the remote participant's identifier out of the reply, and the
//! decision table of the handshake's little state machine. The socket
//! itself is an outside collaborator that connects, writes and reads.
use vstd::prelude::*;

verus! {

/// What went wrong during a handshake.
#[derive(Debug, Clone, Copy, PartialEq, Eq, Structural)]
pub enum ProtocolFault {
    /// The stream closed before the full reply arrived.
    ShortRead,
    /// The reply does not open with the protocol name preamble.
    BadProtocolName,
}

#[derive(Debug, Clone, Copy, PartialEq, Eq, Structural)]
pub enum HandshakeError {
    /// Connecting failed, or the message could not be written whole.
    ConnectionError,
    /// The remote broke the wire protocol.
    ProtocolError(ProtocolFault),
    /// A bound on connecting or reading ran out.
    Timeout,
}

/// The states of one handshake attempt; the last two are terminal.
#[derive(Debug, Clone, Copy, PartialEq, Eq, Structural)]
pub enum HandshakeState {
    Connecting,
    HandshakeSent,
    HandshakeConfirmed,
    Failed,
}

/// What the outside transport reports back after each action.
#[derive(Debug, Clone, Copy, PartialEq, Eq, Structural)]
pub enum HandshakeEvent {
    /// The connection is open.
    Connected,
    /// The connection could not be opened.
    ConnectFailed,
    /// This many bytes of the message were written before the stream
    /// stopped taking more.
    Wrote(usize),
    /// This many bytes of the reply arrived before the stream closed.
    Read(usize),
    /// The operation's time bound ran out.
    TimedOut,
}

/// What the driver must do next.
#[derive(Debug, Clone, Copy, PartialEq, Eq, Structural)]
pub enum HandshakeAction {
    /// Write the whole 68-byte message.
    Send,
    /// Read exactly 68 bytes back.
    Receive,
    /// The handshake stands; read the remote identifier out of the
    /// reply.
    Finish,
    /// Give the attempt up with this error.
    Fail(HandshakeError),
}

/// The 19 bytes of the literal protocol name.
pub open spec fn protocol_name() -> Seq<u8> {
    seq![
        66u8, 105u8, 116u8, 84u8, 111u8, 114u8, 114u8, 101u8, 110u8, 116u8, 32u8, 112u8, 114u8,
        111u8, 116u8, 111u8, 99u8, 111u8, 108u8,
    ]
}

/// The fixed 68-byte message: the name-length byte, the protocol name,
/// eight reserved zero bytes, the raw content identifier, and the
/// local participant identifier.
pub open spec fn spec_handshake(hash: Seq<u8>, peer: Seq<u8>) -> Seq<u8> {
    seq![19u8] + protocol_name() + seq![0u8, 0u8, 0u8, 0u8, 0u8, 0u8, 0u8, 0u8] + hash + peer
}

/// Builds the wire message for one handshake attempt.
pub fn build_handshake(info_hash: &[u8], peer_id: &[u8]) -> (r: Vec<u8>)
    requires
        info_hash@.len() == 20,
        peer_id@.len() == 20,
    ensures
        r@ == spec_handshake(info_hash@, peer_id@),
        r@.len() == 68,
{
    let mut out: Vec<u8> = Vec::new();
    out.push(19);
    out.push(66);
    out.push(105);
    out.push(116);
    out.push(84);
    out.push(111);
    out.push(114);
    out.push(114);
    out.push(101);
    out.push(110);
    out.push(116);
    out.push(32);
    out.push(112);
    out.push(114);
    out.push(111);
    out.push(116);
    out.push(111);
    out.push(99);
    out.push(111);
    out.push(108);
    let mut i: usize = 0;
    while i < 8
        invariant
            0 <= i <= 8,
            out@ == seq![19u8] + protocol_name() + seq![0u8, 0u8, 0u8, 0u8, 0u8, 0u8, 0u8, 0u8]
                .take(i as int),
        decreases 8 - i,
    {
        out.push(0);
        proof {
            assert(out@ =~= seq![19u8] + protocol_name() + seq![
                0u8, 0u8, 0u8, 0u8, 0u8, 0u8, 0u8, 0u8,
            ].take(i as int + 1));
        }
        i += 1;
    }
    out.extend_from_slice(info_hash);
    out.extend_from_slice(peer_id);
    proof {
        assert(out@ =~= spec_handshake(info_hash@, peer_id@));
    }
    out
}

/// The remote participant's identifier: the last 20 bytes of the reply.
pub fn remote_peer_id(msg: &[u8]) -> (r: Vec<u8>)
    requires
        msg@.len() == 68,
    ensures
        r@ == msg@.subrange(48, 68),
{
    vstd::slice::slice_to_vec(vstd::slice::slice_subrange(msg, 48, 68))
}

/// Whether the reply opens with the name-length byte and the literal
/// protocol name.
pub fn validate_handshake(msg: &[u8]) -> (r: bool)
    requires
        msg@.len() == 68,
    ensures
        r == (msg@.subrange(0, 20) == seq![19u8] + protocol_name()),
{
    let expected = build_handshake_preamble();
    let r = crate::bencode::bytes_eq(vstd::slice::slice_subrange(msg, 0, 20), expected.as_slice());
    r
}

fn build_handshake_preamble() -> (r: Vec<u8>)
    ensures
        r@ == seq![19u8] + protocol_name(),
{
    let mut out: Vec<u8> = Vec::new();
    out.push(19);
    out.push(66);
    out.push(105);
    out.push(116);
    out.push(84);
    out.push(111);
    out.push(114);
    out.push(114);
    out.push(101);
    out.push(110);
    out.push(116);
    out.push(32);
    out.push(112);
    out.push(114);
    out.push(111);
    out.push(116);
    out.push(111);
    out.push(99);
    out.push(111);
    out.push(108);
    proof {
        assert(out@ =~= seq![19u8] + protocol_name());
    }
    out
}

/// The decision table of one handshake attempt: from the state it was
/// in and the event the transport reported, the next state and what to
/// do. A short write fails the attempt as a connection error; a short
/// read fails it as a protocol error; either time bound running out
/// fails it as a timeout.
pub open spec fn spec_step(s: HandshakeState, e: HandshakeEvent) -> (HandshakeState,
    HandshakeAction) {
    match (s, e) {
        (HandshakeState::Connecting, HandshakeEvent::Connected) => (
            HandshakeState::HandshakeSent,
            HandshakeAction::Send,
        ),
        (HandshakeState::Connecting, HandshakeEvent::TimedOut) => (
            HandshakeState::Failed,
            HandshakeAction::Fail(HandshakeError::Timeout),
        ),
        (HandshakeState::Connecting, _) => (
            HandshakeState::Failed,
            HandshakeAction::Fail(HandshakeError::ConnectionError),
        ),
        (HandshakeState::HandshakeSent, HandshakeEvent::Wrote(n)) => if n == 68 {
            (HandshakeState::HandshakeSent, HandshakeAction::Receive)
        } else {
            (HandshakeState::Failed, HandshakeAction::Fail(HandshakeError::ConnectionError))
        },
        (HandshakeState::HandshakeSent, HandshakeEvent::Read(n)) => if n == 68 {
            (HandshakeState::HandshakeConfirmed, HandshakeAction::Finish)
        } else {
            (
                HandshakeState::Failed,
                HandshakeAction::Fail(HandshakeError::ProtocolError(ProtocolFault::ShortRead)),
            )
        },
        (HandshakeState::HandshakeSent, HandshakeEvent::TimedOut) => (
            HandshakeState::Failed,
            HandshakeAction::Fail(HandshakeError::Timeout),
        ),
        (HandshakeState::HandshakeSent, _) => (
            HandshakeState::Failed,
            HandshakeAction::Fail(HandshakeError::ConnectionError),
        ),
        (_, _) => (HandshakeState::Failed, HandshakeAction::Fail(HandshakeError::ConnectionError)),
    }
}

/// Advances the handshake state machine by one reported event.
pub fn handshake_step(s: HandshakeState, e: HandshakeEvent) -> (r: (HandshakeState,
    HandshakeAction))
    ensures
        r == spec_step(s, e),
{
    match (s, e) {
        (HandshakeState::Connecting, HandshakeEvent::Connected) => (
            HandshakeState::HandshakeSent,
            HandshakeAction::Send,
        ),
        (HandshakeState::Connecting, HandshakeEvent::TimedOut) => (
            HandshakeState::Failed,
            HandshakeAction::Fail(HandshakeError::Timeout),
        ),
        (HandshakeState::Connecting, _) => (
            HandshakeState::Failed,
            HandshakeAction::Fail(HandshakeError::ConnectionError),
        ),
        (HandshakeState::HandshakeSent, HandshakeEvent::Wrote(n)) => if n == 68 {
            (HandshakeState::HandshakeSent, HandshakeAction::Receive)
        } else {
            (HandshakeState::Failed, HandshakeAction::Fail(HandshakeError::ConnectionError))
        },
        (HandshakeState::HandshakeSent, HandshakeEvent::Read(n)) => if n == 68 {
            (HandshakeState::HandshakeConfirmed, HandshakeAction::Finish)
        } else {
            (
                HandshakeState::Failed,
                HandshakeAction::Fail(HandshakeError::ProtocolError(ProtocolFault::ShortRead)),
            )
        },
        (HandshakeState::HandshakeSent, HandshakeEvent::TimedOut) => (
            HandshakeState::Failed,
            HandshakeAction::Fail(HandshakeError::Timeout),
        ),
        (HandshakeState::HandshakeSent, _) => (
            HandshakeState::Failed,
            HandshakeAction::Fail(HandshakeError::ConnectionError),
        ),
        (_, _) => (HandshakeState::Failed, HandshakeAction::Fail(HandshakeError::ConnectionError)),
    }
}

} // verus!
