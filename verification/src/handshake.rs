//! The connection handshake: greeting exchange, then ready exchange.
//!
//! A fresh raw connection must present a well-formed greeting and then a
//! ready command declaring a socket type compatible with the local one
//! before it may be admitted as a peer. Transitions never go backward; any
//! malformed or out-of-place frame, or a premature close, aborts the
//! handshake for good.

use vstd::prelude::*;

use crate::msg::{Message, MessageView, SocketType, ZmqCommand, ZmqGreeting};
use crate::{ZmqError, ZmqResult};

verus! {

/// Expected length of the raw greeting payload.
pub const GREETING_LEN: usize = 64;

/// First signature marker byte of a well-formed greeting.
pub const SIGNATURE_HEAD: u8 = 0xff;

/// Last signature marker byte of a well-formed greeting.
pub const SIGNATURE_TAIL: u8 = 0x7f;

/// Protocol major version this core understands.
pub const PROTOCOL_MAJOR: u8 = 3;

/// A greeting is well formed when it has the fixed length, carries both
/// signature markers, and declares the supported protocol major version.
pub open spec fn greeting_valid(g: Seq<u8>) -> bool {
    &&& g.len() == GREETING_LEN
    &&& g[0] == SIGNATURE_HEAD
    &&& g[9] == SIGNATURE_TAIL
    &&& g[10] == PROTOCOL_MAJOR
}

/// Socket-type compatibility: which remote pattern may talk to which local
/// pattern.
pub open spec fn compatible(local: SocketType, remote: SocketType) -> bool {
    match (local, remote) {
        (SocketType::REQ, SocketType::REP) => true,
        (SocketType::REP, SocketType::REQ) => true,
        (SocketType::PUB, SocketType::SUB) => true,
        (SocketType::SUB, SocketType::PUB) => true,
        _ => false,
    }
}

/// Checks the signature markers and version of a raw greeting payload.
pub fn check_greeting(g: &ZmqGreeting) -> (r: bool)
    ensures
        r == greeting_valid(g@),
{
    g.bytes.len() == GREETING_LEN && g.bytes[0] == SIGNATURE_HEAD && g.bytes[9] == SIGNATURE_TAIL
        && g.bytes[10] == PROTOCOL_MAJOR
}

/// Checks pattern compatibility of a local and a remote socket type.
pub fn check_compatible(local: SocketType, remote: SocketType) -> (r: bool)
    ensures
        r == compatible(local, remote),
{
    match (local, remote) {
        (SocketType::REQ, SocketType::REP) => true,
        (SocketType::REP, SocketType::REQ) => true,
        (SocketType::PUB, SocketType::SUB) => true,
        (SocketType::SUB, SocketType::PUB) => true,
        _ => false,
    }
}

/// The phases of a handshake. `Failed` is absorbing: once a connection has
/// sent a bad frame it can never become a peer.
#[derive(Clone, Copy, PartialEq, Eq, Structural, Debug)]
pub enum HandshakeState {
    AwaitingGreeting,
    AwaitingReady,
    Established,
    Failed,
}

/// One transition of the handshake on a received message.
pub open spec fn handshake_step(st: HandshakeState, local: SocketType, m: MessageView)
    -> HandshakeState {
    match st {
        HandshakeState::AwaitingGreeting => match m {
            MessageView::Greeting(g) => if greeting_valid(g) {
                HandshakeState::AwaitingReady
            } else {
                HandshakeState::Failed
            },
            _ => HandshakeState::Failed,
        },
        HandshakeState::AwaitingReady => match m {
            MessageView::Command(ZmqCommand::Ready(t)) => if compatible(local, t) {
                HandshakeState::Established
            } else {
                HandshakeState::Failed
            },
            _ => HandshakeState::Failed,
        },
        HandshakeState::Established => HandshakeState::Established,
        HandshakeState::Failed => HandshakeState::Failed,
    }
}

/// The state reached after feeding a whole sequence of messages to a
/// handshake that starts in `st`.
pub open spec fn handshake_run(st: HandshakeState, local: SocketType, ms: Seq<MessageView>)
    -> HandshakeState
    decreases ms.len(),
{
    if ms.len() == 0 {
        st
    } else {
        handshake_run(handshake_step(st, local, ms[0]), local, ms.drop_first())
    }
}

/// The handshake driver for one raw connection.
pub struct Handshake {
    pub state: HandshakeState,
    pub local_type: SocketType,
}

impl Handshake {
    /// A fresh handshake awaiting the remote greeting.
    pub fn new(local_type: SocketType) -> (h: Handshake)
        ensures
            h.state == HandshakeState::AwaitingGreeting,
            h.local_type == local_type,
    {
        Handshake { state: HandshakeState::AwaitingGreeting, local_type }
    }

    /// True once the connection may be admitted as a peer.
    pub fn is_established(&self) -> (r: bool)
        ensures
            r == (self.state == HandshakeState::Established),
    {
        self.state == HandshakeState::Established
    }

    /// Feeds one received message to the handshake. Returns
    /// `HandshakeFailed` exactly when the machine lands in (or was already
    /// in) the failed state: a malformed or out-of-place frame is a
    /// recoverable, per-connection condition, never a fatal one.
    pub fn on_message(&mut self, m: &Message) -> (r: ZmqResult<()>)
        ensures
            final(self).local_type == old(self).local_type,
            final(self).state == handshake_step(old(self).state, old(self).local_type, m@),
            r is Ok <==> !(final(self).state is Failed),
            final(self).state is Failed ==> r matches Err(ZmqError::HandshakeFailed),
    {
        let next = match self.state {
            HandshakeState::AwaitingGreeting => match m {
                Message::Greeting(g) => if check_greeting(g) {
                    HandshakeState::AwaitingReady
                } else {
                    HandshakeState::Failed
                },
                _ => HandshakeState::Failed,
            },
            HandshakeState::AwaitingReady => match m {
                Message::Command(ZmqCommand::Ready(t)) => if check_compatible(
                    self.local_type,
                    *t,
                ) {
                    HandshakeState::Established
                } else {
                    HandshakeState::Failed
                },
                _ => HandshakeState::Failed,
            },
            HandshakeState::Established => HandshakeState::Established,
            HandshakeState::Failed => HandshakeState::Failed,
        };
        self.state = next;
        match next {
            HandshakeState::Failed => Err(ZmqError::HandshakeFailed),
            _ => Ok(()),
        }
    }

    /// Records a premature close of the raw stream: the handshake fails
    /// with the recoverable `HandshakeFailed` class unless it had already
    /// completed.
    pub fn on_closed(&mut self) -> (r: ZmqResult<()>)
        ensures
            final(self).local_type == old(self).local_type,
            old(self).state is Established ==> final(self).state is Established && r is Ok,
            !(old(self).state is Established) ==> final(self).state is Failed && r matches Err(
                ZmqError::HandshakeFailed,
            ),
    {
        match self.state {
            HandshakeState::Established => Ok(()),
            _ => {
                self.state = HandshakeState::Failed;
                Err(ZmqError::HandshakeFailed)
            },
        }
    }
}

/// A connection becomes established only by presenting a well-formed
/// greeting first and a compatible ready command second: no sequence of
/// messages that starts otherwise is ever admitted as a peer.
pub proof fn lemma_established_needs_valid_handshake(
    local: SocketType,
    ms: Seq<MessageView>,
)
    requires
        handshake_run(HandshakeState::AwaitingGreeting, local, ms) is Established,
    ensures
        ms.len() >= 2,
        ms[0] matches MessageView::Greeting(g) && greeting_valid(g),
        ms[1] matches MessageView::Command(ZmqCommand::Ready(t)) && compatible(local, t),
{
    if ms.len() == 0 {
        assert(handshake_run(HandshakeState::AwaitingGreeting, local, ms)
            == HandshakeState::AwaitingGreeting);
    }
    let st1 = handshake_step(HandshakeState::AwaitingGreeting, local, ms[0]);
    let rest = ms.drop_first();
    assert(handshake_run(HandshakeState::AwaitingGreeting, local, ms)
        == handshake_run(st1, local, rest));
    if st1 is Failed {
        lemma_failed_is_absorbing(local, rest);
    }
    assert(st1 is AwaitingReady);
    if rest.len() == 0 {
        assert(handshake_run(st1, local, rest) == st1);
    }
    let st2 = handshake_step(st1, local, rest[0]);
    assert(handshake_run(st1, local, rest) == handshake_run(st2, local, rest.drop_first()));
    if st2 is Failed {
        lemma_failed_is_absorbing(local, rest.drop_first());
    }
    assert(st2 is Established);
    assert(ms[1] == rest[0]);
}

/// A failed handshake never recovers, whatever is fed to it afterwards.
pub proof fn lemma_failed_is_absorbing(local: SocketType, ms: Seq<MessageView>)
    ensures
        handshake_run(HandshakeState::Failed, local, ms) is Failed,
    decreases ms.len(),
{
    if ms.len() > 0 {
        lemma_failed_is_absorbing(local, ms.drop_first());
    }
}

} // verus!
