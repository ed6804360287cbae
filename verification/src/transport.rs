//! The byte-stream abstraction that connections are generic over.
//!
//! The server and the connections never name a concrete transport: any
//! type that can produce and accept bytes without blocking can stand
//! behind a connection. Each stream carries two ghost logs, the bytes it
//! has delivered and the bytes written to it, and the two exchange
//! methods say how one read or write moves those logs.

use vstd::prelude::*;

/// The ghost byte sequences of the stream model, re-exported so that
/// outside implementors of `ByteStream` can name them when they stub the
/// two logs; the stubs are never executed.
pub use vstd::seq::Seq as SpecBytes;

verus! {

/// What one non-blocking read of a stream produced.
pub enum ReadOutcome {
    /// The stream delivered these bytes; never empty.
    Data(Vec<u8>),
    /// The peer has closed its side; no further bytes will arrive.
    Closed,
    /// No bytes are available right now.
    WouldBlock,
    /// The read failed, with the stream's account of the failure.
    Failed(String),
}

/// What one non-blocking write to a stream did.
pub enum WriteOutcome {
    /// The stream accepted this many bytes from the front of the buffer;
    /// never zero.
    Wrote(usize),
    /// The peer is gone; nothing was written.
    Closed,
    /// The stream cannot accept bytes right now.
    WouldBlock,
    /// The write failed, with the stream's account of the failure.
    Failed(String),
}

/// A non-blocking byte stream: the transport under one connection.
///
/// `recv_log` and `sent_log` are the model of the stream: everything it
/// has delivered to this process and everything this process has written
/// to it, in order. An implementation supplies them as ghost state; the
/// two methods must only append to them.
pub trait ByteStream: Sized {
    /// The bytes the stream has delivered so far, in order.
    spec fn recv_log(&self) -> Seq<u8>;

    /// The bytes written to the stream so far, in order.
    spec fn sent_log(&self) -> Seq<u8>;

    /// Reads one chunk from the stream without blocking.
    fn read_chunk(&mut self) -> (r: ReadOutcome)
        ensures
            final(self).sent_log() == old(self).sent_log(),
            match r {
                ReadOutcome::Data(b) => b@.len() > 0 && final(self).recv_log() == old(
                    self,
                ).recv_log() + b@,
                _ => final(self).recv_log() == old(self).recv_log(),
            },
    ;

    /// Writes the front of `buf` to the stream without blocking, and says
    /// how many bytes the stream accepted.
    fn write_chunk(&mut self, buf: &[u8]) -> (r: WriteOutcome)
        ensures
            final(self).recv_log() == old(self).recv_log(),
            match r {
                WriteOutcome::Wrote(n) => 0 < n <= buf@.len() && final(self).sent_log() == old(
                    self,
                ).sent_log() + buf@.take(n as int),
                _ => final(self).sent_log() == old(self).sent_log(),
            },
    ;
}

} // verus!
