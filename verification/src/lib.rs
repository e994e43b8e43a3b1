//! A verified multi-peer socket core in the style of ZeroMQ patterns.
//!
//! One logical socket multiplexes many peer connections: a registry of live
//! peers, a round-robin rotation for outbound dispatch, a fair merger for
//! inbound traffic, a two-phase handshake that gates raw connections into
//! peers, and a REP-pattern adapter that frames application payloads.
//!
//! The core is purely in-memory and single-owner; an embedding runtime
//! drives it from its I/O tasks and supplies the byte-level codec.

use vstd::prelude::*;

pub mod backend;
pub mod handshake;
pub mod msg;
pub mod rep;
pub mod rotation;

use crate::msg::{Message, MessageView};

verus! {

/// Errors surfaced by the socket core.
#[derive(Debug)]
pub enum ZmqError {
    /// A caller broke an internal contract, such as routing a greeting or a
    /// command through the round-robin dispatcher. Fatal, never retried.
    ContractViolation,
    /// Round-robin dispatch found no eligible peer; the original message is
    /// handed back unmodified so no data is lost.
    NoPeersAvailable(Message),
    /// The greeting or ready negotiation on a fresh connection failed; the
    /// connection is discarded, the socket is unaffected.
    HandshakeFailed,
    /// An established peer sent frames that violate the socket pattern's
    /// expected shape.
    ProtocolFraming,
    /// A clean end of stream where a message was awaited.
    NoMessage,
}

/// Mathematical value of an error.
pub enum ErrorView {
    ContractViolation,
    NoPeersAvailable(MessageView),
    HandshakeFailed,
    ProtocolFraming,
    NoMessage,
}

impl View for ZmqError {
    type V = ErrorView;

    open spec fn view(&self) -> ErrorView {
        match self {
            ZmqError::ContractViolation => ErrorView::ContractViolation,
            ZmqError::NoPeersAvailable(m) => ErrorView::NoPeersAvailable(m@),
            ZmqError::HandshakeFailed => ErrorView::HandshakeFailed,
            ZmqError::ProtocolFraming => ErrorView::ProtocolFraming,
            ZmqError::NoMessage => ErrorView::NoMessage,
        }
    }
}

/// Result type used throughout the core.
pub type ZmqResult<T> = Result<T, ZmqError>;

/// The mathematical value of a `ZmqResult`.
pub open spec fn res_view<T: View>(r: ZmqResult<T>) -> Result<T::V, ErrorView> {
    match r {
        Ok(v) => Ok(v@),
        Err(e) => Err(e@),
    }
}

} // verus!
