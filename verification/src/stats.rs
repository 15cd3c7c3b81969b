//! Byte counters for one connection's transport.

use vstd::prelude::*;

verus! {

/// A pair of append-only counters: bytes obtained from the byte source and
/// bytes accepted by the byte sink, over the lifetime of one connection.
///
/// The engine owns one value exclusively; callers sample it through a value
/// copy, so a snapshot never changes after it is taken.
#[derive(Clone, Copy, Debug, PartialEq, Eq, Structural)]
pub struct TransportStats {
    pub bytes_read: u64,
    pub bytes_written: u64,
}

impl TransportStats {
    /// Fresh counters, both zero.
    pub fn new() -> (r: TransportStats)
        ensures
            r.bytes_read == 0,
            r.bytes_written == 0,
    {
        TransportStats { bytes_read: 0, bytes_written: 0 }
    }
}

} // verus!
