//! The closed set of failure conditions of the protocol engine.

use vstd::prelude::*;

verus! {

/// One failure kind per distinct protocol or transport condition.
///
/// `StreamReadError`, `StreamWriteError` and `LineReadError` are fatal to a
/// connection; the remaining kinds describe one malformed command whose bytes
/// have been fully consumed, so the owning loop may report and continue.
#[derive(Clone, Copy, Debug, PartialEq, Eq, Structural)]
pub enum TcpTransportError {
    /// The byte source failed or was exhausted mid-read.
    StreamReadError,
    /// The byte sink failed or could not be flushed.
    StreamWriteError,
    /// A carriage return was not followed by a line feed.
    LineReadError,
    /// A byte sequence expected to be text was not valid UTF-8.
    Utf8Error,
    /// A numeric field failed strict decimal parsing.
    NumberParseError,
    /// A structurally malformed command: wrong word count, mismatched
    /// terminator, or truncated payload.
    CommandParseError,
    /// An unrecognized command keyword.
    InvalidCmd,
}

/// Result alias used by every fallible operation of the transport.
pub type TcpTransportResult<T> = Result<T, TcpTransportError>;

} // verus!
