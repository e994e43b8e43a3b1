use zmq_core::handshake::{Handshake, GREETING_LEN};
use zmq_core::msg::{Message, SocketType, ZmqCommand, ZmqFrame, ZmqGreeting};
use zmq_core::ZmqError;

fn valid_greeting() -> Message {
    let mut bytes = vec![0u8; GREETING_LEN];
    bytes[0] = 0xff;
    bytes[9] = 0x7f;
    bytes[10] = 3;
    Message::Greeting(ZmqGreeting { bytes })
}

#[test]
fn handshake_succeeds_with_compatible_peer() {
    let mut h = Handshake::new(SocketType::REP);
    assert!(h.on_message(&valid_greeting()).is_ok());
    assert!(!h.is_established());
    let ready = Message::Command(ZmqCommand::Ready(SocketType::REQ));
    assert!(h.on_message(&ready).is_ok());
    assert!(h.is_established());
}

#[test]
fn pub_and_sub_are_compatible() {
    let mut h = Handshake::new(SocketType::SUB);
    assert!(h.on_message(&valid_greeting()).is_ok());
    let ready = Message::Command(ZmqCommand::Ready(SocketType::PUB));
    assert!(h.on_message(&ready).is_ok());
    assert!(h.is_established());
}

#[test]
fn invalid_signature_never_establishes() {
    let mut bytes = vec![0u8; GREETING_LEN];
    bytes[0] = 0xfe; // broken signature head
    bytes[9] = 0x7f;
    bytes[10] = 3;
    let mut h = Handshake::new(SocketType::REP);
    match h.on_message(&Message::Greeting(ZmqGreeting { bytes })) {
        Err(ZmqError::HandshakeFailed) => {}
        _ => panic!("a broken greeting signature must fail the handshake"),
    }
    assert!(!h.is_established());
    // The failure is final: even a compatible ready cannot recover it.
    let ready = Message::Command(ZmqCommand::Ready(SocketType::REQ));
    assert!(h.on_message(&ready).is_err());
    assert!(!h.is_established());
}

#[test]
fn truncated_greeting_fails() {
    let mut h = Handshake::new(SocketType::REP);
    let g = Message::Greeting(ZmqGreeting { bytes: vec![0xff, 0x7f, 3] });
    assert!(h.on_message(&g).is_err());
    assert!(!h.is_established());
}

#[test]
fn incompatible_socket_type_is_rejected() {
    let mut h = Handshake::new(SocketType::REP);
    assert!(h.on_message(&valid_greeting()).is_ok());
    let ready = Message::Command(ZmqCommand::Ready(SocketType::PUB));
    match h.on_message(&ready) {
        Err(ZmqError::HandshakeFailed) => {}
        _ => panic!("an incompatible socket type must fail the handshake"),
    }
    assert!(!h.is_established());
}

#[test]
fn data_frame_during_handshake_fails() {
    let mut h = Handshake::new(SocketType::REP);
    let m = Message::Message(ZmqFrame { data: b"rude".to_vec(), more: false });
    assert!(h.on_message(&m).is_err());
    assert!(!h.is_established());
}

#[test]
fn premature_close_fails_the_handshake() {
    let mut h = Handshake::new(SocketType::REP);
    assert!(h.on_message(&valid_greeting()).is_ok());
    match h.on_closed() {
        Err(ZmqError::HandshakeFailed) => {}
        _ => panic!("a premature close must fail as HandshakeFailed"),
    }
    assert!(!h.is_established());
}

#[test]
fn close_after_establishment_is_fine() {
    let mut h = Handshake::new(SocketType::REQ);
    assert!(h.on_message(&valid_greeting()).is_ok());
    let ready = Message::Command(ZmqCommand::Ready(SocketType::REP));
    assert!(h.on_message(&ready).is_ok());
    assert!(h.on_closed().is_ok());
    assert!(h.is_established());
}
