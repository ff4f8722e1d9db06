//! Error types of the framing layer.

use vstd::prelude::*;

verus! {

/// A transport-level failure reported by a [`crate::Stream`] implementation.
///
/// A "would block" condition is not an error: a non-blocking read that finds
/// no data reports zero bytes instead.
#[derive(Debug, Clone, Copy, PartialEq, Eq)]
pub enum IoError {
    /// A write call accepted zero bytes, so the frame cannot make progress.
    WriteZero,
    /// A blocking read delivered no bytes: the stream is closed or
    /// exhausted, so waiting longer cannot complete the frame.
    Closed,
    /// Any other I/O failure of the underlying transport.
    Failed,
}

/// A failure of the message codec: a value could not be encoded, or a
/// payload slice could not be decoded.
#[derive(Debug, Clone, Copy, PartialEq, Eq)]
pub struct CodecError;

/// The outcome of a receive attempt that did not produce a message.
#[derive(Debug)]
pub enum RecvError {
    /// No bytes are currently available; purely informational.
    NoBytes,
    /// Some bytes are buffered but the frame is incomplete; the payload is
    /// the occupancy so far, purely informational.
    InsufficientBytes(usize),
    /// The underlying stream reported a real I/O error.
    SocketErr(IoError),
    /// A complete frame arrived whose payload the codec rejected.
    CodecErr(CodecError),
}

/// The outcome of a send that did not transmit the whole frame.
#[derive(Debug)]
pub enum SendError {
    /// The encoded payload exceeds the range of the 4-byte length header.
    PayloadTooLarge,
    /// The codec could not encode the outgoing value.
    CodecErr(CodecError),
    /// The underlying stream reported a real I/O error.
    SocketErr(IoError),
}

} // verus!
