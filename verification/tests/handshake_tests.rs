use torrent_core::handshake::{
    build_handshake, handshake_step, remote_peer_id, validate_handshake, HandshakeAction,
    HandshakeError, HandshakeEvent, HandshakeState, ProtocolFault,
};

#[test]
fn handshake_message_shape() {
    let info_hash = [0u8; 20];
    let peer_id = b"00112233445566778899";
    let msg = build_handshake(&info_hash, peer_id);
    assert_eq!(msg.len(), 68);
    assert_eq!(msg[0], 19);
    assert_eq!(&msg[1..20], b"BitTorrent protocol");
    assert_eq!(&msg[20..28], &[0u8; 8]);
    assert_eq!(&msg[28..48], &[0u8; 20]);
    assert_eq!(&msg[48..68], peer_id.as_slice());
}

#[test]
fn remote_identifier_is_last_twenty_bytes() {
    let msg = build_handshake(&[7u8; 20], b"99887766554433221100");
    let remote = remote_peer_id(&msg);
    assert_eq!(remote, b"99887766554433221100".to_vec());
}

#[test]
fn validates_protocol_name_preamble() {
    let msg = build_handshake(&[1u8; 20], b"00112233445566778899");
    assert!(validate_handshake(&msg));
    let mut broken = msg.clone();
    broken[1] = b'X';
    assert!(!validate_handshake(&broken));
    let mut wrong_len = msg;
    wrong_len[0] = 18;
    assert!(!validate_handshake(&wrong_len));
}

#[test]
fn connect_then_full_exchange_confirms() {
    let (s, a) = handshake_step(HandshakeState::Connecting, HandshakeEvent::Connected);
    assert_eq!(s, HandshakeState::HandshakeSent);
    assert_eq!(a, HandshakeAction::Send);
    let (s, a) = handshake_step(s, HandshakeEvent::Wrote(68));
    assert_eq!(s, HandshakeState::HandshakeSent);
    assert_eq!(a, HandshakeAction::Receive);
    let (s, a) = handshake_step(s, HandshakeEvent::Read(68));
    assert_eq!(s, HandshakeState::HandshakeConfirmed);
    assert_eq!(a, HandshakeAction::Finish);
}

#[test]
fn connect_failure_is_connection_error() {
    let (s, a) = handshake_step(HandshakeState::Connecting, HandshakeEvent::ConnectFailed);
    assert_eq!(s, HandshakeState::Failed);
    assert_eq!(a, HandshakeAction::Fail(HandshakeError::ConnectionError));
}

#[test]
fn short_write_is_connection_error() {
    let (s, a) = handshake_step(HandshakeState::HandshakeSent, HandshakeEvent::Wrote(40));
    assert_eq!(s, HandshakeState::Failed);
    assert_eq!(a, HandshakeAction::Fail(HandshakeError::ConnectionError));
}

#[test]
fn short_read_is_protocol_error() {
    let (s, a) = handshake_step(HandshakeState::HandshakeSent, HandshakeEvent::Read(12));
    assert_eq!(s, HandshakeState::Failed);
    assert_eq!(
        a,
        HandshakeAction::Fail(HandshakeError::ProtocolError(ProtocolFault::ShortRead))
    );
}

#[test]
fn timeouts_fail_with_timeout() {
    let (s, a) = handshake_step(HandshakeState::Connecting, HandshakeEvent::TimedOut);
    assert_eq!(s, HandshakeState::Failed);
    assert_eq!(a, HandshakeAction::Fail(HandshakeError::Timeout));
    let (s, a) = handshake_step(HandshakeState::HandshakeSent, HandshakeEvent::TimedOut);
    assert_eq!(s, HandshakeState::Failed);
    assert_eq!(a, HandshakeAction::Fail(HandshakeError::Timeout));
}
