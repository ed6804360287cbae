//! A minimal HTTP client over a generic byte stream: serialize a request,
//! write it, and parse the response that comes back.

use vstd::prelude::*;

use crate::common::{ClientError, MessageError, ResponseError};
use crate::request::{request_bytes, Request};
use crate::response::{parse_response_step, Response, ResponseStep};
use crate::transport::{ByteStream, WriteOutcome};

verus! {

/// An HTTP client bound to one stream.
pub struct Client<T> {
    socket: T,
    base_url: String,
}

impl<T: ByteStream> Client<T> {
    /// The base URL this client was created with.
    pub closed spec fn base_url_spec(&self) -> Seq<char> {
        self.base_url@
    }

    /// The bytes written to the client's stream so far.
    pub closed spec fn sent_log(&self) -> Seq<u8> {
        self.socket.sent_log()
    }

    /// The bytes the client's stream has delivered so far.
    pub closed spec fn recv_log(&self) -> Seq<u8> {
        self.socket.recv_log()
    }

    /// A client over the given stream.
    pub fn new(stream: T, base_url: String) -> (r: Result<Client<T>, ClientError>)
        ensures
            r is Ok,
            (r->Ok_0).base_url_spec() == base_url@,
            (r->Ok_0).sent_log() == stream.sent_log(),
            (r->Ok_0).recv_log() == stream.recv_log(),
    {
        Ok(Client { socket: stream, base_url })
    }

    /// Writes the serialized request to the stream in full, then reads
    /// and parses the response.
    ///
    /// # Errors
    /// `IOError` when the stream will not take the request or fails while
    /// the response is read, and the response's own parse error when what
    /// comes back is malformed.
    pub fn request(&mut self, request: Request) -> (r: Result<Response, MessageError>)
        ensures
            r is Ok ==> ({
                &&& final(self).sent_log() == old(self).sent_log() + request_bytes(request@)
                &&& (exists|n: int, start: int|
                    0 <= start <= final(self).recv_log().len() && parse_response_step(
                        final(self).recv_log().skip(start),
                    ) == ResponseStep::Done((r->Ok_0)@, n))
            }),
            r matches Err(e) ==> (exists|start: int|
                0 <= start <= final(self).recv_log().len() && ((e == MessageError::IOError
                    && parse_response_step(final(self).recv_log().skip(start)) is Incomplete)
                    || parse_response_step(final(self).recv_log().skip(start))
                    == ResponseStep::Fail(e) || (e == MessageError::InvalidResponse(
                    ResponseError::InvalidResponse,
                ) && (parse_response_step(final(self).recv_log().skip(start)) is Incomplete
                    || final(self).recv_log().skip(start).len() > 0x8000_0400)))),
    {
        let mut request = request;
        let mut buf: Vec<u8> = Vec::new();
        request.send(&mut buf);
        let n = buf.len();
        let mut pos: usize = 0;
        while pos < n
            invariant
                0 <= pos <= n == buf@.len(),
                buf@ == request_bytes(request@),
                self.socket.recv_log() == old(self).socket.recv_log(),
                self.base_url@ == old(self).base_url@,
                self.socket.sent_log() == old(self).socket.sent_log() + buf@.take(pos as int),
            decreases n - pos,
        {
            let chunk = vstd::slice::slice_subrange(buf.as_slice(), pos, n);
            match self.socket.write_chunk(chunk) {
                WriteOutcome::Wrote(w) => {
                    proof {
                        assert(buf@.take(pos as int) + buf@.skip(pos as int).take(w as int)
                            =~= buf@.take(pos + w));
                    }
                    pos = pos + w;
                },
                _ => {
                    proof {
                        let w = self.recv_log().len() as int;
                        assert(self.recv_log().skip(w) =~= Seq::<u8>::empty());
                        assert(parse_response_step(Seq::<u8>::empty()) is Incomplete) by {
                            assert(crate::ascii::find_first(Seq::<u8>::empty(), crate::ascii::crlf())
                                is None);
                        }
                    }
                    return Err(MessageError::IOError);
                },
            }
        }
        proof {
            assert(buf@.take(n as int) =~= buf@);
        }
        let ghost start = self.socket.recv_log().len() as int;
        let result = Response::receive(&mut self.socket);
        match result {
            Ok(resp) => {
                proof {
                    let delta = self.socket.recv_log().skip(start);
                    assert(exists|n0: int|
                        parse_response_step(delta) == ResponseStep::Done(resp@, n0));
                    let n0 = choose|n0: int|
                        parse_response_step(delta) == ResponseStep::Done(resp@, n0);
                    assert(parse_response_step(delta) == ResponseStep::Done(resp@, n0));
                    assert(0 <= start <= self.recv_log().len());
                    assert(self.sent_log() == old(self).sent_log() + request_bytes(
                        request@,
                    ).take(n as int));
                }
                Ok(resp)
            },
            Err(e) => {
                proof {
                    assert(0 <= start <= self.recv_log().len());
                }
                Err(e)
            },
        }
    }

    /// The base URL this client sends its requests to.
    pub fn base_url(&self) -> (r: &String)
        ensures
            r@ == self.base_url_spec(),
    {
        &self.base_url
    }
}

} // verus!
