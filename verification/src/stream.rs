//! The duplex byte stream the transport runs on, and an in-memory
//! implementation of it.
//!
//! A stream is modelled by three ghost quantities: `inbound`, the bytes it
//! will still deliver to reads; `outbound`, the bytes it has accepted for
//! writing; and `live`, which holds for a stream whose operations are
//! promised to succeed while input remains. `MemStream` implements the
//! trait inside the library and is verified against it. An implementation
//! outside the library — a network socket — is not verified: every proof
//! that runs the transport over it rests on trusting that implementation to
//! behave as if some byte sequence modelled its input, delivering those
//! bytes in order, one per successful read. That is the trust the design
//! places in its byte source/sink collaborator; `live` defaults to false
//! for such a stream, so nothing conditioned on liveness is assumed of it.

use vstd::prelude::*;

verus! {

/// A blocking duplex byte stream: one byte in per read, whole buffers out
/// per write, with an explicit flush.
///
/// The method contracts speak of the ghost model below. An implementation
/// inside this library proves them; one outside it (unverified code over a
/// socket) is trusted to meet them — in particular, that each successful
/// read hands over the head of one fixed pending byte sequence.
pub trait ByteStream: Sized {
    /// The bytes this stream will still deliver, in order. A stream that
    /// does not model its input, such as a network socket, leaves the
    /// default: nothing is promised about it.
    open spec fn inbound(&self) -> Seq<u8> {
        Seq::empty()
    }

    /// The bytes this stream has accepted for writing, in order.
    open spec fn outbound(&self) -> Seq<u8> {
        Seq::empty()
    }

    /// Whether reads are promised to succeed while `inbound` is nonempty,
    /// and writes and flushes to succeed always. Holds only for streams
    /// that model their input.
    open spec fn live(&self) -> bool {
        false
    }

    /// Deliver the next inbound byte, or nothing if the stream failed or is
    /// exhausted. A failed read consumes nothing.
    fn read_one(&mut self) -> (r: Option<u8>)
        ensures
            final(self).outbound() == old(self).outbound(),
            final(self).live() == old(self).live(),
            match r {
                Some(b) => {
                    &&& old(self).inbound().len() > 0
                    &&& b == old(self).inbound()[0]
                    &&& final(self).inbound() == old(self).inbound().drop_first()
                },
                None => {
                    &&& final(self).inbound() == old(self).inbound()
                    &&& (old(self).live() ==> old(self).inbound().len() == 0)
                },
            },
    ;

    /// Accept all of `bytes` for writing, or fail accepting nothing.
    fn write_all(&mut self, bytes: &[u8]) -> (r: bool)
        ensures
            final(self).inbound() == old(self).inbound(),
            final(self).live() == old(self).live(),
            r ==> final(self).outbound() == old(self).outbound() + bytes@,
            !r ==> final(self).outbound() == old(self).outbound(),
            old(self).live() ==> r,
    ;

    /// Push accepted bytes down to the underlying sink.
    fn flush_all(&mut self) -> (r: bool)
        ensures
            final(self).inbound() == old(self).inbound(),
            final(self).outbound() == old(self).outbound(),
            final(self).live() == old(self).live(),
            old(self).live() ==> r,
    ;
}

/// An in-memory stream: reads walk a fixed input buffer, writes append to an
/// output buffer. It is always live, which makes it the reference stream for
/// tests and proofs.
pub struct MemStream {
    input: Vec<u8>,
    pos: usize,
    output: Vec<u8>,
}

impl MemStream {
    /// A stream that will deliver exactly `input` and has written nothing.
    pub fn new(input: Vec<u8>) -> (r: MemStream)
        ensures
            r.inbound() == input@,
            r.outbound() == Seq::<u8>::empty(),
            r.live(),
    {
        MemStream { input, pos: 0, output: Vec::new() }
    }

    /// The bytes written so far.
    pub fn written(&self) -> (r: &Vec<u8>)
        ensures
            r@ == self.outbound(),
    {
        &self.output
    }
}

impl ByteStream for MemStream {
    closed spec fn inbound(&self) -> Seq<u8> {
        if self.pos <= self.input.len() {
            self.input@.skip(self.pos as int)
        } else {
            Seq::empty()
        }
    }

    closed spec fn outbound(&self) -> Seq<u8> {
        self.output@
    }

    closed spec fn live(&self) -> bool {
        true
    }

    fn read_one(&mut self) -> (r: Option<u8>)
        ensures
            final(self).outbound() == old(self).outbound(),
            final(self).live() == old(self).live(),
            match r {
                Some(b) => {
                    &&& old(self).inbound().len() > 0
                    &&& b == old(self).inbound()[0]
                    &&& final(self).inbound() == old(self).inbound().drop_first()
                },
                None => {
                    &&& final(self).inbound() == old(self).inbound()
                    &&& (old(self).live() ==> old(self).inbound().len() == 0)
                },
            },
    {
        if self.pos < self.input.len() {
            let b = self.input[self.pos];
            self.pos = self.pos + 1;
            proof {
                assert(self.inbound() =~= old(self).inbound().drop_first());
            }
            Some(b)
        } else {
            None
        }
    }

    fn write_all(&mut self, bytes: &[u8]) -> (r: bool)
        ensures
            final(self).inbound() == old(self).inbound(),
            final(self).live() == old(self).live(),
            r ==> final(self).outbound() == old(self).outbound() + bytes@,
            !r ==> final(self).outbound() == old(self).outbound(),
            old(self).live() ==> r,
    {
        self.output.extend_from_slice(bytes);
        proof {
            assert(self.outbound() =~= old(self).outbound() + bytes@);
        }
        true
    }

    fn flush_all(&mut self) -> (r: bool)
        ensures
            final(self).inbound() == old(self).inbound(),
            final(self).outbound() == old(self).outbound(),
            final(self).live() == old(self).live(),
            old(self).live() ==> r,
    {
        true
    }
}

} // verus!
