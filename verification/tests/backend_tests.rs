use zmq_core::backend::{GenericSocketBackend, InboundOutcome, DEFAULT_QUEUE_SIZE};
use zmq_core::msg::{Message, SocketType, ZmqCommand, ZmqFrame, ZmqGreeting};
use zmq_core::ZmqError;

fn data_msg(payload: &[u8]) -> Message {
    Message::Message(ZmqFrame { data: payload.to_vec(), more: false })
}

fn payload_of(m: &Message) -> Vec<u8> {
    match m {
        Message::Message(f) => f.data.clone(),
        _ => panic!("expected a single data frame"),
    }
}

#[test]
fn round_robin_order_a_b_c_a() {
    let mut b = GenericSocketBackend::new(SocketType::REP, DEFAULT_QUEUE_SIZE);
    b.peer_connected(1);
    b.peer_connected(2);
    b.peer_connected(3);
    let mut recipients: Vec<u64> = Vec::new();
    for i in 0..4u8 {
        let r = b.send_round_robin(data_msg(&[i]));
        recipients.push(r.expect("dispatch should succeed"));
    }
    assert_eq!(recipients, vec![1, 2, 3, 1]);
}

#[test]
fn fairness_each_peer_once() {
    let mut b = GenericSocketBackend::new(SocketType::REP, DEFAULT_QUEUE_SIZE);
    for id in 1..=5u64 {
        b.peer_connected(id);
    }
    for i in 0..5u8 {
        let r = b.send_round_robin(data_msg(&[i])).expect("dispatch should succeed");
        assert_eq!(r, (i as u64) + 1);
    }
    for id in 1..=5u64 {
        let m = b.take_outbound(id).expect("each peer got exactly one message");
        assert_eq!(payload_of(&m), vec![(id as u8) - 1]);
        assert!(b.take_outbound(id).is_none());
    }
}

#[test]
fn greeting_through_round_robin_is_contract_violation() {
    let mut b = GenericSocketBackend::new(SocketType::REP, DEFAULT_QUEUE_SIZE);
    let g = Message::Greeting(ZmqGreeting { bytes: vec![0xff; 64] });
    match b.send_round_robin(g) {
        Err(ZmqError::ContractViolation) => {}
        _ => panic!("greeting must be rejected as a contract violation"),
    }
    // The same holds with peers registered.
    b.peer_connected(7);
    let c = Message::Command(ZmqCommand::Ready(SocketType::REQ));
    match b.send_round_robin(c) {
        Err(ZmqError::ContractViolation) => {}
        _ => panic!("command must be rejected as a contract violation"),
    }
}

#[test]
fn no_peers_returns_payload_unmodified() {
    let mut b = GenericSocketBackend::new(SocketType::REP, DEFAULT_QUEUE_SIZE);
    match b.send_round_robin(data_msg(b"precious")) {
        Err(ZmqError::NoPeersAvailable(m)) => {
            assert_eq!(payload_of(&m), b"precious".to_vec());
        }
        _ => panic!("dispatch without peers must return the message"),
    }
}

#[test]
fn multipart_no_peers_returns_all_frames() {
    let mut b = GenericSocketBackend::new(SocketType::REP, DEFAULT_QUEUE_SIZE);
    let mp = Message::Multipart(vec![
        ZmqFrame { data: b"head".to_vec(), more: true },
        ZmqFrame { data: b"tail".to_vec(), more: false },
    ]);
    match b.send_round_robin(mp) {
        Err(ZmqError::NoPeersAvailable(Message::Multipart(frames))) => {
            assert_eq!(frames.len(), 2);
            assert_eq!(frames[0].data, b"head".to_vec());
            assert!(frames[0].more);
            assert_eq!(frames[1].data, b"tail".to_vec());
            assert!(!frames[1].more);
        }
        _ => panic!("dispatch without peers must return the multipart message"),
    }
}

#[test]
fn message_received_after_disconnect_is_noop() {
    let mut b = GenericSocketBackend::new(SocketType::REP, DEFAULT_QUEUE_SIZE);
    b.peer_connected(9);
    b.peer_disconnected(9);
    // The identity still sits in the rotation queue, yet delivery for it
    // is silently ignored.
    match b.message_received(9, data_msg(b"late")) {
        InboundOutcome::Ignored => {}
        _ => panic!("delivery for a departed peer must be ignored"),
    }
    assert!(b.next_inbound().is_none());
    // The stale rotation entry self-heals on the next dispatch.
    match b.send_round_robin(data_msg(b"x")) {
        Err(ZmqError::NoPeersAvailable(_)) => {}
        _ => panic!("no live peer may receive the message"),
    }
}

#[test]
fn full_peer_does_not_block_others() {
    let mut b = GenericSocketBackend::new(SocketType::REP, 1);
    b.peer_connected(1);
    b.peer_connected(2);
    assert_eq!(b.send_round_robin(data_msg(b"a")).expect("peer 1 has room"), 1);
    // Peer 1 is now at capacity; the next dispatch must reach peer 2.
    assert_eq!(b.send_round_robin(data_msg(b"b")).expect("peer 2 has room"), 2);
    // Once peer 1 drains it resumes receiving in rotation order.
    let drained = b.take_outbound(1).expect("peer 1 had one message queued");
    assert_eq!(payload_of(&drained), b"a".to_vec());
    assert_eq!(b.send_round_robin(data_msg(b"c")).expect("peer 1 drained"), 1);
}

#[test]
fn sole_full_peer_gets_message_after_drain() {
    let mut b = GenericSocketBackend::new(SocketType::REP, 2);
    b.peer_connected(1);
    assert_eq!(b.send_round_robin(data_msg(b"one")).unwrap(), 1);
    assert_eq!(b.send_round_robin(data_msg(b"two")).unwrap(), 1);
    // The queue is at capacity: the peer stays registered, and the bounded
    // pass hands the message back for a later retry.
    let returned = match b.send_round_robin(data_msg(b"three")) {
        Err(ZmqError::NoPeersAvailable(m)) => m,
        _ => panic!("a full sole peer cannot accept more this pass"),
    };
    assert_eq!(payload_of(&returned), b"three".to_vec());
    // Drain one slot and retry: the message is eventually delivered.
    assert_eq!(payload_of(&b.take_outbound(1).unwrap()), b"one".to_vec());
    assert_eq!(b.send_round_robin(returned).expect("room after draining"), 1);
    assert_eq!(payload_of(&b.take_outbound(1).unwrap()), b"two".to_vec());
    assert_eq!(payload_of(&b.take_outbound(1).unwrap()), b"three".to_vec());
}

#[test]
fn merger_is_fair_across_ready_peers() {
    let mut b = GenericSocketBackend::new(SocketType::REP, DEFAULT_QUEUE_SIZE);
    b.peer_connected(1);
    b.peer_connected(2);
    assert!(matches!(b.message_received(1, data_msg(b"a1")), InboundOutcome::Delivered));
    assert!(matches!(b.message_received(1, data_msg(b"a2")), InboundOutcome::Delivered));
    assert!(matches!(b.message_received(2, data_msg(b"b1")), InboundOutcome::Delivered));
    let (id, m) = b.next_inbound().expect("peer 1 is ready first");
    assert_eq!(id, 1);
    assert_eq!(payload_of(&m), b"a1".to_vec());
    // Peer 1 moved to the tail after being served: peer 2 goes next even
    // though peer 1 still has traffic pending.
    let (id, m) = b.next_inbound().expect("peer 2 is served before peer 1 again");
    assert_eq!(id, 2);
    assert_eq!(payload_of(&m), b"b1".to_vec());
    let (id, m) = b.next_inbound().expect("peer 1's second message");
    assert_eq!(id, 1);
    assert_eq!(payload_of(&m), b"a2".to_vec());
    assert!(b.next_inbound().is_none());
}

#[test]
fn message_received_applies_backpressure_when_full() {
    let mut b = GenericSocketBackend::new(SocketType::REP, 1);
    b.peer_connected(1);
    assert!(matches!(b.message_received(1, data_msg(b"first")), InboundOutcome::Delivered));
    match b.message_received(1, data_msg(b"second")) {
        InboundOutcome::Full(m) => assert_eq!(payload_of(&m), b"second".to_vec()),
        _ => panic!("a full inbound queue must hand the message back"),
    }
    // After the merger drains one message the retry goes through.
    let (id, _) = b.next_inbound().expect("one message pending");
    assert_eq!(id, 1);
    assert!(matches!(b.message_received(1, data_msg(b"second")), InboundOutcome::Delivered));
}

#[test]
fn shutdown_clears_all_peers() {
    let mut b = GenericSocketBackend::new(SocketType::PUB, DEFAULT_QUEUE_SIZE);
    assert!(matches!(b.socket_type(), SocketType::PUB));
    b.peer_connected(1);
    b.peer_connected(2);
    b.shutdown();
    match b.send_round_robin(data_msg(b"gone")) {
        Err(ZmqError::NoPeersAvailable(_)) => {}
        _ => panic!("no peer may remain after shutdown"),
    }
    assert!(b.next_inbound().is_none());
    assert!(matches!(b.socket_type(), SocketType::PUB));
}

#[test]
fn reconnect_replaces_peer_record() {
    let mut b = GenericSocketBackend::new(SocketType::REP, DEFAULT_QUEUE_SIZE);
    b.peer_connected(4);
    assert_eq!(b.send_round_robin(data_msg(b"old")).unwrap(), 4);
    b.peer_connected(4);
    // The fresh record starts with empty queues.
    assert!(b.take_outbound(4).is_none());
}
