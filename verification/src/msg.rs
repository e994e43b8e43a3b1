//! Message model: the tagged variants a socket exchanges with its peers.
//!
//! `Greeting` and `Command` are protocol-level frames used only during the
//! handshake; `Message` and `Multipart` carry application data and are the
//! only variants the round-robin dispatcher accepts.

use vstd::prelude::*;

verus! {

/// The socket pattern a backend or a remote peer declares during the
/// ready exchange of the handshake.
#[derive(Clone, Copy, PartialEq, Eq, Structural, Debug)]
pub enum SocketType {
    REQ,
    REP,
    PUB,
    SUB,
}

/// A single data frame: raw payload bytes plus the "more frames follow" flag.
#[derive(Debug)]
pub struct ZmqFrame {
    pub data: Vec<u8>,
    pub more: bool,
}

/// Mathematical value of a frame.
pub struct FrameView {
    pub data: Seq<u8>,
    pub more: bool,
}

impl View for ZmqFrame {
    type V = FrameView;

    open spec fn view(&self) -> FrameView {
        FrameView { data: self.data@, more: self.more }
    }
}

/// The raw greeting payload a peer sends first on a fresh connection.
#[derive(Debug)]
pub struct ZmqGreeting {
    pub bytes: Vec<u8>,
}

impl View for ZmqGreeting {
    type V = Seq<u8>;

    open spec fn view(&self) -> Seq<u8> {
        self.bytes@
    }
}

/// A protocol control frame. The only command this core interprets is the
/// ready announcement carrying the remote side's declared socket type.
#[derive(Clone, Copy, PartialEq, Eq, Structural, Debug)]
pub enum ZmqCommand {
    Ready(SocketType),
}

/// A message as seen by the backend: a handshake greeting, a control
/// command, a single data frame, or an ordered multipart sequence.
#[derive(Debug)]
pub enum Message {
    Greeting(ZmqGreeting),
    Command(ZmqCommand),
    Message(ZmqFrame),
    Multipart(Vec<ZmqFrame>),
}

/// Mathematical value of a message.
pub enum MessageView {
    Greeting(Seq<u8>),
    Command(ZmqCommand),
    Message(FrameView),
    Multipart(Seq<FrameView>),
}

/// The mathematical values of a sequence of frames.
pub open spec fn frames_view(s: Seq<ZmqFrame>) -> Seq<FrameView> {
    s.map_values(|f: ZmqFrame| f@)
}

impl View for Message {
    type V = MessageView;

    open spec fn view(&self) -> MessageView {
        match self {
            Message::Greeting(g) => MessageView::Greeting(g@),
            Message::Command(c) => MessageView::Command(*c),
            Message::Message(f) => MessageView::Message(f@),
            Message::Multipart(fs) => MessageView::Multipart(frames_view(fs@)),
        }
    }
}

/// The mathematical values of a sequence of messages.
pub open spec fn msgs_view(s: Seq<Message>) -> Seq<MessageView> {
    s.map_values(|m: Message| m@)
}

/// Appending a message and then taking views appends the message's view.
pub proof fn lemma_msgs_view_push(s: Seq<Message>, m: Message)
    ensures
        msgs_view(s.push(m)) == msgs_view(s).push(m@),
{
    assert(msgs_view(s.push(m)) =~= msgs_view(s).push(m@));
}

/// Removing the front message and then taking views drops the first view.
pub proof fn lemma_msgs_view_drop_first(s: Seq<Message>)
    requires
        s.len() > 0,
    ensures
        msgs_view(s.remove(0)) == msgs_view(s).drop_first(),
        msgs_view(s.drop_first()) == msgs_view(s).drop_first(),
{
    assert(msgs_view(s.remove(0)) =~= msgs_view(s).drop_first());
    assert(msgs_view(s.drop_first()) =~= msgs_view(s).drop_first());
}

/// A message is data when it may travel through the round-robin
/// dispatcher; greetings and commands never may.
pub open spec fn is_data_view(m: MessageView) -> bool {
    m is Message || m is Multipart
}

impl Message {
    /// True exactly for the `Message` and `Multipart` variants.
    pub fn is_data(&self) -> (r: bool)
        ensures
            r == is_data_view(self@),
    {
        match self {
            Message::Message(_) => true,
            Message::Multipart(_) => true,
            _ => false,
        }
    }
}

} // verus!
