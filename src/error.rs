//! The ways a message can fail on the wire.
use vstd::prelude::*;

verus! {

/// Every failure aborts the message in progress; "need more input" is not an error
/// and is reported as `Ok(None)` or as a decoder that is not yet done.
#[derive(PartialEq, Eq, Structural, Clone, Copy, Debug)]
pub enum Error {
    /// The request line or status line does not follow the grammar.
    MalformedStartLine,
    /// A header line does not follow the grammar, or a line break is bare.
    MalformedHeader,
    /// Chunked body framing is broken.
    InvalidChunkFraming,
    /// Content-Length is repeated, unreadable, or present beside chunked coding.
    ConflictingContentLength,
    /// The buffer ceiling was reached before a head was complete.
    TooLarge,
    /// The peer ended the stream in the middle of a message.
    UnexpectedEof,
    /// The peer ended the stream between messages: the connection is over.
    Closed,
    /// The transport failed.
    Transport,
    /// More or fewer body bytes were written than the declared length.
    BodyLengthMismatch,
}

} // verus!
