use zmq_core::msg::{Message, ZmqFrame};
use zmq_core::rep::RepSocket;
use zmq_core::ZmqError;

fn frame(payload: &[u8], more: bool) -> Message {
    Message::Message(ZmqFrame { data: payload.to_vec(), more })
}

#[test]
fn send_shapes_delimiter_then_payload() {
    let mut s = RepSocket::new();
    s.send(b"pong".to_vec()).expect("send always queues");
    let m = s.take_outgoing().expect("one message queued");
    match m {
        Message::Multipart(frames) => {
            assert_eq!(frames.len(), 2);
            assert!(frames[0].data.is_empty());
            assert!(frames[0].more);
            assert_eq!(frames[1].data, b"pong".to_vec());
            assert!(!frames[1].more);
        }
        _ => panic!("send must queue one multipart message"),
    }
    assert!(s.take_outgoing().is_none());
}

#[test]
fn round_trip_yields_payload() {
    // One side sends; the wire carries the multipart as two frames, which
    // the other side receives in order.
    let mut sender = RepSocket::new();
    sender.send(b"pong".to_vec()).unwrap();
    let frames = match sender.take_outgoing().unwrap() {
        Message::Multipart(fs) => fs,
        _ => panic!("send must queue one multipart message"),
    };
    let mut receiver = RepSocket::new();
    for f in frames {
        receiver.deliver(Message::Message(f));
    }
    assert_eq!(receiver.recv().expect("a full exchange arrived"), b"pong".to_vec());
    // Nothing further: a clean end of stream.
    match receiver.recv() {
        Err(ZmqError::NoMessage) => {}
        _ => panic!("an empty stream yields no message"),
    }
}

#[test]
fn delimiter_then_close_is_no_message() {
    let mut s = RepSocket::new();
    s.deliver(frame(b"", true));
    match s.recv() {
        Err(ZmqError::NoMessage) => {}
        _ => panic!("a delimiter with nothing after it is a clean end, not a payload"),
    }
}

#[test]
fn bad_first_frame_is_framing_error() {
    let mut s = RepSocket::new();
    s.deliver(frame(b"not-a-delimiter", false));
    s.deliver(frame(b"payload", false));
    match s.recv() {
        Err(ZmqError::ProtocolFraming) => {}
        _ => panic!("a non-delimiter first frame is a framing error"),
    }
}

#[test]
fn empty_frame_without_continuation_is_framing_error() {
    let mut s = RepSocket::new();
    s.deliver(frame(b"", false));
    match s.recv() {
        Err(ZmqError::ProtocolFraming) => {}
        _ => panic!("the delimiter must carry the continuation flag"),
    }
}

#[test]
fn recv_on_empty_stream_is_no_message() {
    let mut s = RepSocket::new();
    match s.recv() {
        Err(ZmqError::NoMessage) => {}
        _ => panic!("an empty stream yields no message"),
    }
}

#[test]
fn non_frame_second_message_is_framing_error() {
    let mut s = RepSocket::new();
    s.deliver(frame(b"", true));
    s.deliver(Message::Multipart(vec![ZmqFrame { data: b"odd".to_vec(), more: false }]));
    match s.recv() {
        Err(ZmqError::ProtocolFraming) => {}
        _ => panic!("the payload must arrive as a single data frame"),
    }
}
