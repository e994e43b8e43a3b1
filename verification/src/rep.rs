//! The REP-pattern adapter: shapes application payloads into the two-frame
//! form the protocol expects, and validates inbound traffic against it.
//!
//! `send` wraps a payload as a delimiter frame (empty, continuation set)
//! followed by the payload frame (continuation clear). `recv` reads exactly
//! two frames back: the delimiter, then the payload. The raw stream itself
//! is driven by the embedding runtime, which moves whole frames between the
//! adapter's buffers and the wire codec.

use vstd::prelude::*;

use crate::msg::{
    frames_view, msgs_view, Message, MessageView, FrameView, ZmqFrame,
};
use crate::{res_view, ErrorView, ZmqError, ZmqResult};

verus! {

/// The delimiter frame: empty, with the continuation flag set.
pub open spec fn delimiter_frame() -> FrameView {
    FrameView { data: Seq::<u8>::empty(), more: true }
}

/// A frame is a delimiter when it carries no bytes and signals
/// continuation.
pub open spec fn is_delimiter(f: FrameView) -> bool {
    f.data.len() == 0 && f.more
}

/// How `send` wraps an application payload: delimiter, then payload with no
/// continuation.
pub open spec fn rep_wrap(data: Seq<u8>) -> MessageView {
    MessageView::Multipart(
        seq![delimiter_frame(), FrameView { data, more: false }],
    )
}

/// How a message appears on the wire: a multipart message travels as its
/// frames in order, one `Message` item each; anything else travels whole.
pub open spec fn frames_on_wire(m: MessageView) -> Seq<MessageView> {
    match m {
        MessageView::Multipart(fs) => fs.map_values(|f: FrameView| MessageView::Message(f)),
        _ => seq![m],
    }
}

/// What one `recv` call consumes from the inbound buffer and returns.
pub struct RecvOutcome {
    pub rest: Seq<MessageView>,
    pub result: Result<Seq<u8>, ErrorView>,
}

/// One `recv` against an inbound buffer: no frame at all is a clean end of
/// stream; a first frame that is not the delimiter is a framing error; a
/// stream that ends after the delimiter is again a clean end; the second
/// frame's bytes are the payload.
pub open spec fn rep_recv_spec(inc: Seq<MessageView>) -> RecvOutcome {
    if inc.len() == 0 {
        RecvOutcome { rest: inc, result: Err(ErrorView::NoMessage) }
    } else if !(inc[0] matches MessageView::Message(f) && is_delimiter(f)) {
        RecvOutcome { rest: inc.drop_first(), result: Err(ErrorView::ProtocolFraming) }
    } else if inc.len() == 1 {
        RecvOutcome { rest: inc.drop_first(), result: Err(ErrorView::NoMessage) }
    } else if !(inc[1] is Message) {
        RecvOutcome {
            rest: inc.drop_first().drop_first(),
            result: Err(ErrorView::ProtocolFraming),
        }
    } else {
        RecvOutcome {
            rest: inc.drop_first().drop_first(),
            result: Ok(inc[1]->Message_0.data),
        }
    }
}

/// Mathematical value of a REP socket: its inbound and outbound buffers.
pub struct RepView {
    pub incoming: Seq<MessageView>,
    pub outgoing: Seq<MessageView>,
}

/// A REP socket over one established, handshake-completed connection.
pub struct RepSocket {
    incoming: Vec<Message>,
    outgoing: Vec<Message>,
}

impl View for RepSocket {
    type V = RepView;

    closed spec fn view(&self) -> RepView {
        RepView { incoming: msgs_view(self.incoming@), outgoing: msgs_view(self.outgoing@) }
    }
}

impl RepSocket {
    /// A fresh adapter with empty buffers.
    pub fn new() -> (s: RepSocket)
        ensures
            s@.incoming == Seq::<MessageView>::empty(),
            s@.outgoing == Seq::<MessageView>::empty(),
    {
        RepSocket { incoming: Vec::new(), outgoing: Vec::new() }
    }

    /// The runtime hands the adapter one decoded inbound message.
    pub fn deliver(&mut self, m: Message)
        ensures
            final(self)@.incoming == old(self)@.incoming.push(m@),
            final(self)@.outgoing == old(self)@.outgoing,
    {
        proof {
            crate::msg::lemma_msgs_view_push(self.incoming@, m);
        }
        self.incoming.push(m);
    }

    /// The runtime takes the oldest outbound message to encode onto the
    /// wire, if any is pending.
    pub fn take_outgoing(&mut self) -> (r: Option<Message>)
        ensures
            final(self)@.incoming == old(self)@.incoming,
            match r {
                Some(m) => old(self)@.outgoing.len() > 0 && m@ == old(self)@.outgoing[0]
                    && final(self)@.outgoing == old(self)@.outgoing.drop_first(),
                None => old(self)@.outgoing.len() == 0
                    && final(self)@.outgoing == old(self)@.outgoing,
            },
    {
        if self.outgoing.len() == 0 {
            None
        } else {
            proof {
                crate::msg::lemma_msgs_view_drop_first(self.outgoing@);
            }
            Some(self.outgoing.remove(0))
        }
    }

    /// Queues an application payload for the peer, in the REP two-frame
    /// shape: delimiter frame, then the payload frame.
    pub fn send(&mut self, data: Vec<u8>) -> (r: ZmqResult<()>)
        ensures
            r is Ok,
            final(self)@.outgoing == old(self)@.outgoing.push(rep_wrap(data@)),
            final(self)@.incoming == old(self)@.incoming,
    {
        let ghost dv = data@;
        let delimiter = ZmqFrame { data: Vec::new(), more: true };
        let payload = ZmqFrame { data, more: false };
        let mut frames: Vec<ZmqFrame> = Vec::new();
        frames.push(delimiter);
        frames.push(payload);
        proof {
            assert(frames_view(frames@) =~= seq![
                delimiter_frame(),
                FrameView { data: dv, more: false },
            ]);
        }
        let m = Message::Multipart(frames);
        proof {
            assert(m@ == rep_wrap(dv));
            crate::msg::lemma_msgs_view_push(self.outgoing@, m);
        }
        self.outgoing.push(m);
        Ok(())
    }

    /// Reads one payload from the peer: consumes the delimiter frame and
    /// the payload frame and returns the payload's bytes. Errors exactly as
    /// `rep_recv_spec` states.
    pub fn recv(&mut self) -> (r: ZmqResult<Vec<u8>>)
        ensures
            final(self)@.outgoing == old(self)@.outgoing,
            final(self)@.incoming == rep_recv_spec(old(self)@.incoming).rest,
            res_view(r) == rep_recv_spec(old(self)@.incoming).result,
    {
        if self.incoming.len() == 0 {
            return Err(ZmqError::NoMessage);
        }
        proof {
            crate::msg::lemma_msgs_view_drop_first(self.incoming@);
        }
        let first = self.incoming.remove(0);
        let delim_ok = match &first {
            Message::Message(f) => f.data.len() == 0 && f.more,
            _ => false,
        };
        if !delim_ok {
            return Err(ZmqError::ProtocolFraming);
        }
        if self.incoming.len() == 0 {
            return Err(ZmqError::NoMessage);
        }
        proof {
            crate::msg::lemma_msgs_view_drop_first(self.incoming@);
        }
        let second = self.incoming.remove(0);
        match second {
            Message::Message(f) => Ok(f.data),
            _ => Err(ZmqError::ProtocolFraming),
        }
    }
}

/// REP round trip: the frames that `send` puts on the wire are exactly one
/// delimiter frame and one payload frame, and feeding them to a receiver
/// yields the payload unmodified; a stream that ends right after the
/// delimiter yields a clean "no message" instead.
pub proof fn lemma_rep_round_trip(data: Seq<u8>)
    ensures
        frames_on_wire(rep_wrap(data)) == seq![
            MessageView::Message(delimiter_frame()),
            MessageView::Message(FrameView { data, more: false }),
        ],
        rep_recv_spec(frames_on_wire(rep_wrap(data))).result == Ok::<Seq<u8>, ErrorView>(data),
        rep_recv_spec(frames_on_wire(rep_wrap(data))).rest == Seq::<MessageView>::empty(),
        rep_recv_spec(seq![MessageView::Message(delimiter_frame())]).result == Err::<
            Seq<u8>,
            ErrorView,
        >(ErrorView::NoMessage),
{
    let fs = seq![delimiter_frame(), FrameView { data, more: false }];
    let wire = fs.map_values(|f: FrameView| MessageView::Message(f));
    assert(wire =~= seq![
        MessageView::Message(delimiter_frame()),
        MessageView::Message(FrameView { data, more: false }),
    ]);
    assert(rep_recv_spec(wire).rest =~= Seq::<MessageView>::empty());
}

} // verus!
