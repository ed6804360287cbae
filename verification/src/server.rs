//! The connection multiplexer: per-connection lifecycle state with
//! in-flight accounting, readiness bookkeeping, admission control and the
//! event dispatch that drives it all.

use vstd::prelude::*;
use vstd::string::StringExecFns;

use crate::ascii::{lemma_string_bytes_len, string_bytes};
use crate::common::{lemma_msg_len, ConnectionError, MessageError, ServerError, Version};
use crate::connection::{
    continues_queued, lemma_response_bytes_len, parse_request_stream, HttpConnection,
};
use crate::headers::{headers_default, HeadersV};
use crate::request::Request;
use crate::response::{
    normalize_content_length, response_bytes, Response, ResponseV, StatusCode, StatusLineV,
};
use crate::transport::{ByteStream, WriteOutcome};

verus! {

/// The most connections the server serves at once.
pub const MAX_CONNECTIONS: usize = 10;

/// Readiness interest in bytes to read.
pub const EVENT_IN: u32 = 1;

/// Readiness interest in room to write.
pub const EVENT_OUT: u32 = 4;

/// A set of readiness event bits.
#[derive(Clone, Copy, Debug, PartialEq, Eq, Structural, Default)]
pub struct EventSet {
    flags: u32,
}

impl View for EventSet {
    type V = u32;

    closed spec fn view(&self) -> u32 {
        self.flags
    }
}

impl EventSet {
    /// An event set holding exactly these bits.
    pub fn new(flags: u32) -> (r: EventSet)
        ensures
            r@ == flags,
    {
        EventSet { flags }
    }

    /// Turns the given bits on.
    pub fn add(&mut self, flag: u32) -> (r: &Self)
        ensures
            final(self)@ == old(self)@ | flag,
    {
        self.flags = self.flags | flag;
        self
    }

    /// Toggles the given bits.
    pub fn remove(&mut self, flag: u32) -> (r: &Self)
        ensures
            final(self)@ == old(self)@ ^ flag,
    {
        self.flags = self.flags ^ flag;
        self
    }

    /// Whether any of the given bits is on.
    pub fn contains(&self, flag: u32) -> (r: bool)
        ensures
            r == (self@ & flag != 0),
    {
        if self.flags & flag != 0 {
            true
        } else {
            false
        }
    }

    /// The raw bits of the set.
    pub fn bits(&self) -> (r: u32)
        ensures
            r == self@,
    {
        self.flags
    }
}

/// A change the server wants made to the readiness notifier. The caller
/// that runs the notifier performs each action in order.
#[derive(Clone, Copy, Debug, PartialEq, Eq, Structural)]
pub enum NotifierAction {
    /// Start watching the stream with this id for these events.
    Add(u64, u32),
    /// Watch the stream with this id for these events instead.
    Modify(u64, u32),
}

/// The state of a connection as far as data exchange on its stream is
/// concerned.
#[derive(Clone, Copy, Debug, PartialEq, Eq, Structural)]
pub enum ClientConnectionState {
    /// Waiting for the peer to send request bytes.
    AwaitingIncoming,
    /// Waiting for the stream to take response bytes.
    AwaitingOutgoing,
    /// The stream is finished; only owed responses keep the record alive.
    Closed,
}

/// The synthesized `500 Internal Server Error` answer to a failed stream
/// read, carrying the stream's account of the failure when it fits the
/// length field.
pub open spec fn stream_error_response(m: Seq<char>) -> ResponseV {
    ResponseV {
        line: StatusLineV {
            version: Version::Http11,
            status: StatusCode::InternalServerError,
            message: None,
        },
        headers: headers_default(),
        body: if string_bytes(m).len() <= 0x7fff_ffff {
            Some(string_bytes(m))
        } else {
            None
        },
    }
}

/// The body of the `400 Bad Request` answer to a parse failure: the
/// error's message in a fixed JSON frame, with notice that the requests
/// parsed but never yielded are gone.
pub open spec fn error_body_chars(e: MessageError) -> Seq<char> {
    "{ \"error\": \""@ + e.msg() + "\nAll previous unanswered requests will be dropped.\" }"@
}

/// The synthesized `400 Bad Request` answer to a parse failure.
pub open spec fn bad_request_response(e: MessageError) -> ResponseV {
    ResponseV {
        line: StatusLineV {
            version: Version::Http11,
            status: StatusCode::BadRequest,
            message: None,
        },
        headers: headers_default(),
        body: Some(string_bytes(error_body_chars(e))),
    }
}

/// One way a read can end: the peer had hung up and nothing was buffered.
/// The record only turns `Closed`; what it owes is untouched.
pub open spec fn read_hung_up<T: ByteStream>(
    c0: ClientConnection<T>,
    c1: ClientConnection<T>,
) -> bool {
    &&& c1.state() == ClientConnectionState::Closed
    &&& c1.history() == c0.history()
    &&& c1.popped() == c0.popped()
    &&& c1.pending() == c0.pending()
}

/// ... or the stream failed: a `500` carrying some account of the failure
/// is now owed, and the connection awaits the stream unless it was gone.
pub open spec fn read_stream_failed<T: ByteStream>(
    c0: ClientConnection<T>,
    c1: ClientConnection<T>,
) -> bool {
    &&& (exists|m: Seq<char>|
        c1.pending() == c0.pending() + response_bytes(
            normalize_content_length(#[trigger] stream_error_response(m)),
        ))
    &&& c1.history() == c0.history()
    &&& c1.popped() == c0.popped()
    &&& c1.state() == (if c0.state() == ClientConnectionState::Closed {
        ClientConnectionState::Closed
    } else {
        ClientConnectionState::AwaitingOutgoing
    })
}

/// ... or the bytes can never form a request: the parser starts afresh,
/// its undelivered requests are gone, and a `400` naming the error is
/// owed.
pub open spec fn read_parse_failed<T: ByteStream>(
    c0: ClientConnection<T>,
    c1: ClientConnection<T>,
) -> bool {
    &&& (exists|e: MessageError|
        c1.pending() == c0.pending() + response_bytes(
            normalize_content_length(#[trigger] bad_request_response(e)),
        ))
    &&& c1.history() == Seq::<u8>::empty()
    &&& c1.popped() == 0
    &&& c1.state() == (if c0.state() == ClientConnectionState::Closed {
        ClientConnectionState::Closed
    } else {
        ClientConnectionState::AwaitingOutgoing
    })
}

/// ... or the read made progress: the parse base only grew, the returned
/// requests are exactly the queued ones handed out in order — the whole
/// queue, short of an overflowing in-flight ledger — what is owed grew by
/// exactly the `100 Continue` bytes due, and the connection awaits the
/// stream exactly when it owes it bytes.
pub open spec fn read_progressed<T: ByteStream>(
    c0: ClientConnection<T>,
    c1: ClientConnection<T>,
    reqs: Seq<Request>,
) -> bool {
    let p0 = parse_request_stream(c0.history());
    let p1 = parse_request_stream(c1.history());
    &&& p0.reqs.len() <= p1.reqs.len()
    &&& p1.reqs.take(p0.reqs.len() as int) == p0.reqs
    &&& c1.popped() == c0.popped() + reqs.len()
    &&& (c1.popped() == p1.reqs.len() || c0.in_flight() + reqs.len() == u32::MAX as int)
    &&& (forall|i: int|
        0 <= i < reqs.len() ==> (#[trigger] reqs[i])@ == p1.reqs[c0.popped() + i])
    &&& c1.pending() == c0.pending() + continues_queued(
        p1.reqs.skip(p0.reqs.len() as int),
        c0.cont_sent(),
        c1.cont_sent(),
    )
    &&& c1.state() == (if c0.state() == ClientConnectionState::Closed {
        ClientConnectionState::Closed
    } else if c1.pending().len() > 0 {
        ClientConnectionState::AwaitingOutgoing
    } else {
        c0.state()
    })
}

/// Wrapper over `HttpConnection` which keeps track of the connection
/// lifecycle and of the difference between yielded requests and absorbed
/// responses.
pub struct ClientConnection<T> {
    connection: HttpConnection<T>,
    state: ClientConnectionState,
    in_flight_response_count: u32,
    yielded: Ghost<int>,
    responded: Ghost<int>,
}

impl<T: ByteStream> ClientConnection<T> {
    /// The lifecycle state of the connection.
    pub closed spec fn state(&self) -> ClientConnectionState {
        self.state
    }

    /// Requests handed to the application minus responses absorbed.
    pub closed spec fn in_flight(&self) -> int {
        self.in_flight_response_count as int
    }

    /// How many requests this connection has handed to the application.
    pub closed spec fn yielded(&self) -> int {
        self.yielded@
    }

    /// How many responses the application has handed back.
    pub closed spec fn responded(&self) -> int {
        self.responded@
    }

    /// The bytes still owed to the stream.
    pub closed spec fn pending(&self) -> Seq<u8> {
        self.connection.pending_bytes()
    }

    /// The bytes written to the stream so far.
    pub closed spec fn sent_log(&self) -> Seq<u8> {
        self.connection.sent_log()
    }

    /// The bytes the stream has delivered so far.
    pub closed spec fn recv_log(&self) -> Seq<u8> {
        self.connection.recv_log()
    }

    /// The bytes accepted into the parser since it last started afresh.
    pub closed spec fn history(&self) -> Seq<u8> {
        self.connection.history()
    }

    /// How many parsed requests have left the connection's queue.
    pub closed spec fn popped(&self) -> int {
        self.connection.popped()
    }

    /// Whether a `100 Continue` has already been queued for the request
    /// whose body is still awaited.
    pub closed spec fn cont_sent(&self) -> bool {
        self.connection.cont_sent()
    }

    /// Well-formedness: the connection is sound, the in-flight counter is
    /// exactly the yielded requests not yet responded to, and, while the
    /// stream lives, the connection awaits the stream exactly when it owes
    /// it bytes.
    pub closed spec fn wf(&self) -> bool {
        &&& self.connection.wf()
        &&& 0 <= self.responded@ <= self.yielded@
        &&& self.in_flight_response_count as int == self.yielded@ - self.responded@
        &&& (self.state != ClientConnectionState::Closed ==> ((self.state
            == ClientConnectionState::AwaitingOutgoing) <==> self.pending().len() > 0))
    }

    /// Wraps a fresh connection: awaiting its first bytes, nothing owed.
    pub fn new(connection: HttpConnection<T>) -> (r: ClientConnection<T>)
        requires
            connection.wf(),
            connection.pending_bytes().len() == 0,
        ensures
            r.wf(),
            r.state() == ClientConnectionState::AwaitingIncoming,
            r.in_flight() == 0,
            r.yielded() == 0,
            r.responded() == 0,
            r.pending() == connection.pending_bytes(),
            r.sent_log() == connection.sent_log(),
            r.recv_log() == connection.recv_log(),
    {
        ClientConnection {
            connection,
            state: ClientConnectionState::AwaitingIncoming,
            in_flight_response_count: 0,
            yielded: Ghost(0int),
            responded: Ghost(0int),
        }
    }

    /// Reads once from the stream and yields the requests that completed.
    ///
    /// A peer hang-up is not surfaced as an error: the connection merely
    /// turns `Closed`. A stream failure queues a `500` response with the
    /// stream's account of it; a parse failure drops the requests parsed
    /// but not yet yielded and queues a `400` response naming the error.
    /// Each yielded request raises the in-flight count by one.
    pub fn read(&mut self) -> (r: Result<Vec<Request>, ServerError>)
        requires
            old(self).wf(),
        ensures
            final(self).wf(),
            final(self).sent_log() == old(self).sent_log(),
            final(self).responded() == old(self).responded(),
            r is Ok,
            final(self).yielded() == old(self).yielded() + (r->Ok_0)@.len(),
            final(self).in_flight() == old(self).in_flight() + (r->Ok_0)@.len(),
            old(self).state() == ClientConnectionState::Closed ==> final(self).state()
                == ClientConnectionState::Closed,
            (read_hung_up(*old(self), *final(self)) && (r->Ok_0)@.len() == 0) || (
            read_stream_failed(*old(self), *final(self)) && (r->Ok_0)@.len() == 0) || (
            read_parse_failed(*old(self), *final(self)) && (r->Ok_0)@.len() == 0)
                || read_progressed(*old(self), *final(self), (r->Ok_0)@),
    {
        let ghost pend0 = self.connection.pending_bytes();
        match self.connection.try_read() {
            Err(ConnectionError::ConnectionClosed) => {
                // The peer hung up. Wait for the connection to become safe
                // to drop; any responses still owed may yet be written.
                self.state = ClientConnectionState::Closed;
                return Ok(Vec::new());
            },
            Err(ConnectionError::StreamError(inner)) => {
                // Reading from the connection failed; try to answer with
                // an error message regardless.
                let mut internal_error_response = Response::new(
                    Version::Http11,
                    StatusCode::InternalServerError,
                );
                let inner_bytes = inner.as_str().as_bytes();
                if inner_bytes.len() <= 0x7fff_ffff {
                    internal_error_response.with_body(inner_bytes);
                }
                proof {
                    assert(normalize_content_length(internal_error_response@)
                        == normalize_content_length(stream_error_response(inner@)));
                }
                self.connection.enqueue_response(internal_error_response);
                if !matches!(self.state, ClientConnectionState::Closed) {
                    // The connection now owes bytes and awaits the stream.
                    self.state = ClientConnectionState::AwaitingOutgoing;
                }
                proof {
                    lemma_response_bytes_len(
                        normalize_content_length(stream_error_response(inner@)),
                    );
                    assert(read_stream_failed(*old(self), *self));
                }
                return Ok(Vec::new());
            },
            Err(ConnectionError::ParseError(inner)) => {
                // The parser has already discarded its buffer and its
                // queue of requests that were parsed but never yielded.
                // Answer the request that caused the error.
                let mut error_response = Response::new(Version::Http11, StatusCode::BadRequest);
                let body = String::from_str("{ \"error\": \"").concat(
                    inner.describe().as_str(),
                ).concat("\nAll previous unanswered requests will be dropped.\" }");
                proof {
                    assert(body@ == error_body_chars(inner));
                    lemma_msg_len(inner);
                    reveal_strlit("{ \"error\": \"");
                    reveal_strlit("\nAll previous unanswered requests will be dropped.\" }");
                    lemma_string_bytes_len(error_body_chars(inner));
                }
                error_response.with_body(body.as_str().as_bytes());
                proof {
                    assert(normalize_content_length(error_response@) == normalize_content_length(
                        bad_request_response(inner),
                    ));
                }
                self.connection.enqueue_response(error_response);
                if !matches!(self.state, ClientConnectionState::Closed) {
                    // The connection now owes bytes and awaits the stream.
                    self.state = ClientConnectionState::AwaitingOutgoing;
                }
                proof {
                    lemma_response_bytes_len(
                        normalize_content_length(bad_request_response(inner)),
                    );
                    assert(read_parse_failed(*old(self), *self));
                }
                return Ok(Vec::new());
            },
            Err(ConnectionError::InvalidWrite) => {
                // `HttpConnection::try_read` cannot return this error.
                assert(false);
                return Ok(Vec::new());
            },
            Ok(()) => {},
        }
        proof {
            self.connection.lemma_wf_facts();
        }
        let ghost h1 = self.connection.history();
        let ghost pend1 = self.connection.pending_bytes();
        let ghost sent1 = self.connection.sent_log();
        let ghost rl1 = self.connection.recv_log();
        let ghost cs1 = self.connection.cont_sent();
        let ghost pp0 = old(self).popped();
        let mut parsed_requests: Vec<Request> = Vec::new();
        // Hand out at most as many requests as the in-flight ledger can
        // still count; what stays queued waits for a later read.
        let capacity: u32 = u32::MAX - self.in_flight_response_count;
        let mut emptied = false;
        while !emptied && parsed_requests.len() < capacity as usize
            invariant
                self.connection.wf(),
                self.state == old(self).state,
                self.in_flight_response_count == old(self).in_flight_response_count,
                self.yielded@ == old(self).yielded@,
                self.responded@ == old(self).responded@,
                pp0 == old(self).popped(),
                capacity == u32::MAX - old(self).in_flight(),
                self.connection.history() == h1,
                self.connection.pending_bytes() == pend1,
                self.connection.sent_log() == sent1,
                self.connection.recv_log() == rl1,
                self.connection.cont_sent() == cs1,
                pp0 <= self.connection.popped() <= parse_request_stream(h1).reqs.len(),
                parsed_requests@.len() == self.connection.popped() - pp0,
                parsed_requests@.len() <= capacity,
                forall|i: int|
                    0 <= i < parsed_requests@.len() ==> (#[trigger] parsed_requests@[i])@
                        == parse_request_stream(h1).reqs[pp0 + i],
                emptied ==> self.connection.popped() == parse_request_stream(h1).reqs.len(),
            decreases parse_request_stream(h1).reqs.len() - self.connection.popped() + (
            if emptied {
                0int
            } else {
                1int
            }),
        {
            match self.connection.pop_parsed_request() {
                Some(request) => {
                    parsed_requests.push(request);
                },
                None => {
                    emptied = true;
                },
            }
        }
        let n = parsed_requests.len();
        self.in_flight_response_count = self.in_flight_response_count + n as u32;
        self.yielded = Ghost(self.yielded@ + n as int);
        if self.connection.pending_write() && !matches!(self.state, ClientConnectionState::Closed) {
            self.state = ClientConnectionState::AwaitingOutgoing;
        }
        proof {
            assert(read_progressed(*old(self), *self, parsed_requests@));
        }
        Ok(parsed_requests)
    }

    /// Writes as many owed bytes as the stream will take. Draining the
    /// backlog turns the connection back to awaiting requests; a stream
    /// failure turns it `Closed`.
    ///
    /// # Errors
    /// `ConnectionError(InvalidWrite)` exactly when nothing was owed.
    pub fn write(&mut self) -> (r: Result<(), ServerError>)
        requires
            old(self).wf(),
        ensures
            final(self).wf(),
            final(self).yielded() == old(self).yielded(),
            final(self).responded() == old(self).responded(),
            final(self).in_flight() == old(self).in_flight(),
            final(self).history() == old(self).history(),
            final(self).popped() == old(self).popped(),
            final(self).recv_log() == old(self).recv_log(),
            exists|k: int|
                {
                    &&& 0 <= k <= old(self).pending().len()
                    &&& final(self).pending() == old(self).pending().skip(k)
                    &&& final(self).sent_log() == old(self).sent_log() + old(
                        self,
                    ).pending().take(k)
                },
            (r matches Err(e) ==> e == ServerError::ConnectionError(ConnectionError::InvalidWrite)
                && old(self).pending().len() == 0),
            old(self).pending().len() == 0 ==> r is Err,
            old(self).state() == ClientConnectionState::Closed ==> final(self).state()
                == ClientConnectionState::Closed,
            r is Ok && old(self).state() != ClientConnectionState::Closed && final(self).state()
                != ClientConnectionState::Closed ==> (final(self).state()
                == ClientConnectionState::AwaitingIncoming <==> final(self).pending().len() == 0),
    {
        match self.connection.try_write() {
            Err(ConnectionError::ConnectionClosed) => {
                // Writing to the stream failed, so the record will be
                // removed once nothing more is owed.
                self.state = ClientConnectionState::Closed;
                Ok(())
            },
            Err(ConnectionError::StreamError(_)) => {
                self.state = ClientConnectionState::Closed;
                Ok(())
            },
            Err(ConnectionError::InvalidWrite) => {
                // A write was requested on a connection that owes nothing.
                Err(ServerError::ConnectionError(ConnectionError::InvalidWrite))
            },
            Err(ConnectionError::ParseError(_)) => {
                // `HttpConnection::try_write` cannot return this error.
                assert(false);
                Err(ServerError::ConnectionError(ConnectionError::InvalidWrite))
            },
            Ok(()) => {
                // Check whether this connection still owes bytes.
                if !self.connection.pending_write() {
                    if !matches!(self.state, ClientConnectionState::Closed) {
                        self.state = ClientConnectionState::AwaitingIncoming;
                    }
                }
                Ok(())
            },
        }
    }

    /// Absorbs one response owed to this connection. A `Closed` connection
    /// silently drops it — the server has honored its obligation either
    /// way — but the in-flight count comes down regardless.
    pub fn enqueue_response(&mut self, response: Response)
        requires
            old(self).wf(),
            old(self).in_flight() > 0,
            old(self).state() != ClientConnectionState::AwaitingIncoming,
        ensures
            final(self).wf(),
            final(self).state() == old(self).state(),
            final(self).yielded() == old(self).yielded(),
            final(self).responded() == old(self).responded() + 1,
            final(self).in_flight() == old(self).in_flight() - 1,
            final(self).sent_log() == old(self).sent_log(),
            final(self).recv_log() == old(self).recv_log(),
            final(self).history() == old(self).history(),
            final(self).popped() == old(self).popped(),
            final(self).pending() == if old(self).state() == ClientConnectionState::Closed {
                old(self).pending()
            } else {
                old(self).pending() + response_bytes(normalize_content_length(response@))
            },
    {
        if !matches!(self.state, ClientConnectionState::Closed) {
            self.connection.enqueue_response(response);
        }
        self.in_flight_response_count = self.in_flight_response_count - 1;
        self.responded = Ghost(self.responded@ + 1);
    }


    /// Absorbs one response: enqueues it unless the stream is already
    /// finished, brings the in-flight count down, and says whether the
    /// connection just turned writable.
    pub fn absorb_response(&mut self, response: Response) -> (became_writable: bool)
        requires
            old(self).wf(),
        ensures
            final(self).wf(),
            old(self).in_flight() == 0 ==> *final(self) == *old(self) && !became_writable,
            old(self).in_flight() > 0 ==> ({
                &&& final(self).yielded() == old(self).yielded()
                &&& final(self).responded() == old(self).responded() + 1
                &&& final(self).in_flight() == old(self).in_flight() - 1
                &&& final(self).state() == (if old(self).state()
                    == ClientConnectionState::AwaitingIncoming {
                    ClientConnectionState::AwaitingOutgoing
                } else {
                    old(self).state()
                })
                &&& final(self).pending() == (if old(self).state()
                    == ClientConnectionState::Closed {
                    old(self).pending()
                } else {
                    old(self).pending() + response_bytes(normalize_content_length(response@))
                })
                &&& final(self).sent_log() == old(self).sent_log()
                &&& final(self).recv_log() == old(self).recv_log()
                &&& final(self).history() == old(self).history()
                &&& final(self).popped() == old(self).popped()
                &&& became_writable == (old(self).state()
                    == ClientConnectionState::AwaitingIncoming)
            }),
    {
        if self.in_flight_response_count == 0 {
            // The application answered a request this connection is not
            // owed anything for; keep the ledger from going negative.
            return false;
        }
        let became_writable = matches!(self.state, ClientConnectionState::AwaitingIncoming);
        if became_writable {
            self.state = ClientConnectionState::AwaitingOutgoing;
        }
        if !matches!(self.state, ClientConnectionState::Closed) {
            self.connection.enqueue_response(response);
            proof {
                crate::connection::lemma_response_bytes_len(
                    normalize_content_length(response@),
                );
            }
        }
        self.in_flight_response_count = self.in_flight_response_count - 1;
        self.responded = Ghost(self.responded@ + 1);
        became_writable
    }

    /// Whether the connection is finished and safe to drop: the stream is
    /// closed, nothing is owed to it, and nothing is owed to the
    /// application's ledger.
    pub fn is_done(&self) -> (r: bool)
        requires
            self.wf(),
        ensures
            r == (self.state() == ClientConnectionState::Closed && self.pending().len() == 0
                && self.in_flight() == 0),
    {
        matches!(self.state, ClientConnectionState::Closed) && !self.connection.pending_write()
            && self.in_flight_response_count == 0
    }
}


/// The refusal's status line.
pub open spec fn sfm_status_line() -> Seq<u8> {
    seq![72u8, 84u8, 84u8, 80u8, 47u8, 49u8, 46u8, 49u8, 32u8, 53u8, 48u8, 51u8, 13u8, 10u8]
}

/// The refusal's Server header line.
pub open spec fn sfm_server_header() -> Seq<u8> {
    seq![83u8, 101u8, 114u8, 118u8, 101u8, 114u8, 58u8, 32u8, 70u8, 105u8, 114u8, 101u8, 99u8, 114u8, 97u8, 99u8, 107u8, 101u8, 114u8, 32u8, 65u8, 80u8, 73u8, 13u8, 10u8]
}

/// The refusal's Connection header line.
pub open spec fn sfm_connection_header() -> Seq<u8> {
    seq![67u8, 111u8, 110u8, 110u8, 101u8, 99u8, 116u8, 105u8, 111u8, 110u8, 58u8, 32u8, 99u8, 108u8, 111u8, 115u8, 101u8, 13u8, 10u8]
}

/// The refusal's Content-Length header line.
pub open spec fn sfm_content_length_header() -> Seq<u8> {
    seq![67u8, 111u8, 110u8, 116u8, 101u8, 110u8, 116u8, 45u8, 76u8, 101u8, 110u8, 103u8, 116u8, 104u8, 58u8, 32u8, 52u8, 48u8, 13u8, 10u8]
}

/// The refusal's body.
pub open spec fn sfm_body() -> Seq<u8> {
    seq![123u8, 32u8, 34u8, 101u8, 114u8, 114u8, 111u8, 114u8, 34u8, 58u8, 32u8, 34u8, 84u8, 111u8, 111u8, 32u8, 109u8, 97u8, 110u8, 121u8, 32u8, 111u8, 112u8, 101u8, 110u8, 32u8, 99u8, 111u8, 110u8, 110u8, 101u8, 99u8, 116u8, 105u8, 111u8, 110u8, 115u8, 34u8, 32u8, 125u8]
}

/// The exact admission-control payload written to a connection accepted
/// over capacity, before it is dropped.
pub open spec fn server_full_message() -> Seq<u8> {
    sfm_status_line() + sfm_server_header() + sfm_connection_header()
        + sfm_content_length_header() + crate::ascii::crlf() + sfm_body()
}

#[verifier::rlimit(50)]
fn sfm_status_line_vec() -> (r: Vec<u8>)
    ensures
        r@ == sfm_status_line(),
{
    let mut v: Vec<u8> = Vec::new();
    v.push(72);
    v.push(84);
    v.push(84);
    v.push(80);
    v.push(47);
    v.push(49);
    v.push(46);
    v.push(49);
    v.push(32);
    v.push(53);
    v.push(48);
    v.push(51);
    v.push(13);
    v.push(10);
    assert(v@ =~= sfm_status_line());
    v
}

#[verifier::rlimit(50)]
fn sfm_server_header_vec() -> (r: Vec<u8>)
    ensures
        r@ == sfm_server_header(),
{
    let mut v: Vec<u8> = Vec::new();
    v.push(83);
    v.push(101);
    v.push(114);
    v.push(118);
    v.push(101);
    v.push(114);
    v.push(58);
    v.push(32);
    v.push(70);
    v.push(105);
    v.push(114);
    v.push(101);
    v.push(99);
    v.push(114);
    v.push(97);
    v.push(99);
    v.push(107);
    v.push(101);
    v.push(114);
    v.push(32);
    v.push(65);
    v.push(80);
    v.push(73);
    v.push(13);
    v.push(10);
    assert(v@ =~= sfm_server_header());
    v
}

#[verifier::rlimit(50)]
fn sfm_connection_header_vec() -> (r: Vec<u8>)
    ensures
        r@ == sfm_connection_header(),
{
    let mut v: Vec<u8> = Vec::new();
    v.push(67);
    v.push(111);
    v.push(110);
    v.push(110);
    v.push(101);
    v.push(99);
    v.push(116);
    v.push(105);
    v.push(111);
    v.push(110);
    v.push(58);
    v.push(32);
    v.push(99);
    v.push(108);
    v.push(111);
    v.push(115);
    v.push(101);
    v.push(13);
    v.push(10);
    assert(v@ =~= sfm_connection_header());
    v
}

#[verifier::rlimit(50)]
fn sfm_content_length_header_vec() -> (r: Vec<u8>)
    ensures
        r@ == sfm_content_length_header(),
{
    let mut v: Vec<u8> = Vec::new();
    v.push(67);
    v.push(111);
    v.push(110);
    v.push(116);
    v.push(101);
    v.push(110);
    v.push(116);
    v.push(45);
    v.push(76);
    v.push(101);
    v.push(110);
    v.push(103);
    v.push(116);
    v.push(104);
    v.push(58);
    v.push(32);
    v.push(52);
    v.push(48);
    v.push(13);
    v.push(10);
    assert(v@ =~= sfm_content_length_header());
    v
}

#[verifier::rlimit(50)]
fn sfm_body_vec() -> (r: Vec<u8>)
    ensures
        r@ == sfm_body(),
{
    let mut v: Vec<u8> = Vec::new();
    v.push(123);
    v.push(32);
    v.push(34);
    v.push(101);
    v.push(114);
    v.push(114);
    v.push(111);
    v.push(114);
    v.push(34);
    v.push(58);
    v.push(32);
    v.push(34);
    v.push(84);
    v.push(111);
    v.push(111);
    v.push(32);
    v.push(109);
    v.push(97);
    v.push(110);
    v.push(121);
    v.push(32);
    v.push(111);
    v.push(112);
    v.push(101);
    v.push(110);
    v.push(32);
    v.push(99);
    v.push(111);
    v.push(110);
    v.push(110);
    v.push(101);
    v.push(99);
    v.push(116);
    v.push(105);
    v.push(111);
    v.push(110);
    v.push(115);
    v.push(34);
    v.push(32);
    v.push(125);
    assert(v@ =~= sfm_body());
    v
}

/// Builds the admission-control payload.
pub fn server_full_message_vec() -> (r: Vec<u8>)
    ensures
        r@ == server_full_message(),
{
    let mut v = sfm_status_line_vec();
    let mut p = sfm_server_header_vec();
    v.append(&mut p);
    let mut p = sfm_connection_header_vec();
    v.append(&mut p);
    let mut p = sfm_content_length_header_vec();
    v.append(&mut p);
    v.push(crate::ascii::CR);
    v.push(crate::ascii::LF);
    let mut p = sfm_body_vec();
    v.append(&mut p);
    assert(v@ =~= server_full_message());
    v
}

/// Wrapper over `Request` which adds an identification token.
#[derive(Debug)]
pub struct ServerRequest {
    /// Inner request.
    pub request: Request,
    id: u64,
}

impl ServerRequest {
    /// The identification token: the id of the connection the request
    /// arrived on.
    pub closed spec fn id_spec(&self) -> u64 {
        self.id
    }

    /// The inner request.
    pub closed spec fn request_spec(&self) -> Request {
        self.request
    }

    /// Creates a new `ServerRequest` from an existing `Request`, adding
    /// an identification token.
    pub fn new(request: Request, id: u64) -> (r: ServerRequest)
        ensures
            r.request_spec() == request,
            r.id_spec() == id,
    {
        ServerRequest { request, id }
    }

    /// Returns a reference to the inner request.
    pub fn inner(&self) -> (r: &Request)
        ensures
            r@ == self.request_spec()@,
    {
        &self.request
    }

    /// Calls the function provided on the inner request to obtain the
    /// response, and wraps it with the same identification token, ready
    /// for yielding to the server.
    pub fn process<F: Fn(&Request) -> Response>(&self, callable: F) -> (r: ServerResponse)
        requires
            callable.requires((&self.request_spec(),)),
        ensures
            r.id_spec() == self.id_spec(),
            callable.ensures((&self.request_spec(),), r.response()),
    {
        let http_response = callable(&self.request);
        ServerResponse::new(http_response, self.id)
    }
}

/// Wrapper over `Response` which adds an identification token.
#[derive(Debug)]
pub struct ServerResponse {
    response: Response,
    id: u64,
}

impl ServerResponse {
    /// The identification token: the id of the connection the response
    /// is owed to.
    pub closed spec fn id_spec(&self) -> u64 {
        self.id
    }

    /// The inner response.
    pub closed spec fn response(&self) -> Response {
        self.response
    }

    /// Pairs a response with the identification token of the connection
    /// it answers.
    pub fn new(response: Response, id: u64) -> (r: ServerResponse)
        ensures
            r.response() == response,
            r.id_spec() == id,
    {
        ServerResponse { response, id }
    }
}


/// Whether some record in the table carries this id.
pub open spec fn seq_has_id<T>(conns: Seq<(u64, ClientConnection<T>)>, id: u64) -> bool {
    exists|i: int| 0 <= i < conns.len() && (#[trigger] conns[i]).0 == id
}

/// The index of the record carrying this id.
pub open spec fn seq_id_index<T>(conns: Seq<(u64, ClientConnection<T>)>, id: u64) -> int {
    choose|i: int| 0 <= i < conns.len() && (#[trigger] conns[i]).0 == id
}

/// What processing one readiness event does to the connection table and
/// the queue of readiness changes, and which wrapped requests it yields.
///
/// A new stream joins the table awaiting requests and is queued for
/// readable-readiness — unless its id is taken or the table is full, in
/// which case the table is untouched (the stream itself gets the refusal
/// payload, as `handle_new_connection` states, and is dropped). Readiness
/// on a live stream reads or writes exactly that record, as
/// `ClientConnection::read` and `write` state, yields that connection's
/// newly parsed requests wrapped with its id, and queues the one interest
/// change the new state calls for. Anything else changes nothing.
pub open spec fn event_step<T: ByteStream>(
    conns0: Seq<(u64, ClientConnection<T>)>,
    acts0: Seq<NotifierAction>,
    ev: ServerEvent<T>,
    conns1: Seq<(u64, ClientConnection<T>)>,
    acts1: Seq<NotifierAction>,
    yielded: Seq<ServerRequest>,
) -> bool {
    match ev {
        ServerEvent::NewConnection(stream, id) => {
            &&& yielded == Seq::<ServerRequest>::empty()
            &&& if seq_has_id(conns0, id) || conns0.len() >= MAX_CONNECTIONS {
                conns1 == conns0 && acts1 == acts0
            } else {
                &&& conns1.len() == conns0.len() + 1
                &&& conns1.take(conns0.len() as int) == conns0
                &&& conns1.last().0 == id
                &&& ({
                    let c = conns1.last().1;
                    &&& c.state() == ClientConnectionState::AwaitingIncoming
                    &&& c.in_flight() == 0
                    &&& c.yielded() == 0
                    &&& c.responded() == 0
                    &&& c.pending().len() == 0
                    &&& c.sent_log() == stream.sent_log()
                    &&& c.recv_log() == stream.recv_log()
                })
                &&& acts1 == acts0.push(NotifierAction::Add(id, EVENT_IN))
            }
        },
        ServerEvent::Ready(id, evset) => {
            if !seq_has_id(conns0, id) {
                conns1 == conns0 && acts1 == acts0 && yielded == Seq::<ServerRequest>::empty()
            } else {
                let i = seq_id_index(conns0, id);
                let c0 = conns0[i].1;
                let c1 = conns1[i].1;
                if evset@ & EVENT_IN != 0 {
                    &&& conns1 == conns0.update(i, (id, c1))
                    &&& (forall|j: int|
                        0 <= j < yielded.len() ==> (#[trigger] yielded[j]).id_spec() == id)
                    &&& c1.responded() == c0.responded()
                    &&& c1.yielded() == c0.yielded() + yielded.len()
                    &&& c1.in_flight() == c0.in_flight() + yielded.len()
                    &&& c1.sent_log() == c0.sent_log()
                    &&& ((read_hung_up(c0, c1) && yielded.len() == 0) || (read_stream_failed(
                        c0,
                        c1,
                    ) && yielded.len() == 0) || (read_parse_failed(c0, c1) && yielded.len() == 0)
                        || read_progressed(
                        c0,
                        c1,
                        yielded.map_values(|sr: ServerRequest| sr.request_spec()),
                    ))
                    &&& acts1 == (if c1.state() == ClientConnectionState::AwaitingOutgoing {
                        acts0.push(NotifierAction::Modify(id, EVENT_OUT))
                    } else {
                        acts0
                    })
                } else if evset@ & EVENT_OUT != 0 {
                    &&& yielded == Seq::<ServerRequest>::empty()
                    &&& conns1 == conns0.update(i, (id, c1))
                    &&& c0.pending().len() > 0
                    &&& c1.yielded() == c0.yielded()
                    &&& c1.responded() == c0.responded()
                    &&& c1.in_flight() == c0.in_flight()
                    &&& c1.history() == c0.history()
                    &&& c1.popped() == c0.popped()
                    &&& (exists|k: int|
                        {
                            &&& 0 <= k <= c0.pending().len()
                            &&& c1.pending() == c0.pending().skip(k)
                            &&& c1.sent_log() == c0.sent_log() + #[trigger] c0.pending().take(k)
                        })
                    &&& (c0.state() == ClientConnectionState::Closed ==> c1.state()
                        == ClientConnectionState::Closed)
                    &&& (c0.state() != ClientConnectionState::Closed && c1.state()
                        != ClientConnectionState::Closed ==> ((c1.state()
                        == ClientConnectionState::AwaitingIncoming) <==> c1.pending().len() == 0))
                    &&& acts1 == (if c1.state() == ClientConnectionState::AwaitingIncoming {
                        acts0.push(NotifierAction::Modify(id, EVENT_IN))
                    } else {
                        acts0
                    })
                } else {
                    conns1 == conns0 && acts1 == acts0 && yielded == Seq::<
                        ServerRequest,
                    >::empty()
                }
            }
        },
    }
}

/// A trigger carrier for a table and action queue named as witnesses.
pub open spec fn table_witness<T: ByteStream>(
    cm: Seq<(u64, ClientConnection<T>)>,
    am: Seq<NotifierAction>,
) -> bool {
    true
}

/// At position `j` of the batch, with the fold having reached the table
/// `cm` after yields `ym`, a writable event names a connection that owes
/// nothing — the one input on which processing a batch fails.
pub open spec fn write_on_idle_at<T: ByteStream>(
    conns0: Seq<(u64, ClientConnection<T>)>,
    acts0: Seq<NotifierAction>,
    events: Seq<ServerEvent<T>>,
    j: int,
    cm: Seq<(u64, ClientConnection<T>)>,
    am: Seq<NotifierAction>,
    ym: Seq<ServerRequest>,
) -> bool {
    &&& 0 <= j < events.len()
    &&& events_step(conns0, acts0, events.take(j), cm, am, ym)
    &&& match events[j] {
        ServerEvent::Ready(id, evset) => evset@ & EVENT_IN == 0 && evset@ & EVENT_OUT != 0
            && seq_has_id(cm, id) && cm[seq_id_index(cm, id)].1.pending().len() == 0,
        _ => false,
    }
}

/// A trigger carrier for a position in a batch and the state reached
/// there.
pub open spec fn step_witness<T: ByteStream>(
    j: int,
    cm: Seq<(u64, ClientConnection<T>)>,
    am: Seq<NotifierAction>,
    ym: Seq<ServerRequest>,
) -> bool {
    true
}

/// A trigger carrier for the intermediate state of a fold: the table and
/// action queue between two steps, and a split of the yields.
pub open spec fn fold_witness<T: ByteStream>(
    cm: Seq<(u64, ClientConnection<T>)>,
    am: Seq<NotifierAction>,
    yh: Seq<ServerRequest>,
    yl: Seq<ServerRequest>,
) -> bool {
    true
}

/// A whole batch of events, processed in order: each event steps the
/// table as `event_step` says, and the yields concatenate in order.
pub open spec fn events_step<T: ByteStream>(
    conns0: Seq<(u64, ClientConnection<T>)>,
    acts0: Seq<NotifierAction>,
    events: Seq<ServerEvent<T>>,
    conns1: Seq<(u64, ClientConnection<T>)>,
    acts1: Seq<NotifierAction>,
    yielded: Seq<ServerRequest>,
) -> bool
    decreases events.len(),
{
    if events.len() == 0 {
        conns1 == conns0 && acts1 == acts0 && yielded == Seq::<ServerRequest>::empty()
    } else {
        exists|
            cm: Seq<(u64, ClientConnection<T>)>,
            am: Seq<NotifierAction>,
            yh: Seq<ServerRequest>,
            yl: Seq<ServerRequest>,
        |
            #![trigger fold_witness(cm, am, yh, yl)]
            {
                &&& events_step(conns0, acts0, events.drop_last(), cm, am, yh)
                &&& event_step(cm, am, events.last(), conns1, acts1, yl)
                &&& yielded == yh + yl
            }
    }
}

/// A processed batch extends by one more processed event.
proof fn lemma_events_step_snoc<T: ByteStream>(
    conns0: Seq<(u64, ClientConnection<T>)>,
    acts0: Seq<NotifierAction>,
    events: Seq<ServerEvent<T>>,
    cm: Seq<(u64, ClientConnection<T>)>,
    am: Seq<NotifierAction>,
    yh: Seq<ServerRequest>,
    ev: ServerEvent<T>,
    conns1: Seq<(u64, ClientConnection<T>)>,
    acts1: Seq<NotifierAction>,
    yl: Seq<ServerRequest>,
)
    requires
        events_step(conns0, acts0, events, cm, am, yh),
        event_step(cm, am, ev, conns1, acts1, yl),
    ensures
        events_step(conns0, acts0, events.push(ev), conns1, acts1, yh + yl),
{
    assert(events.push(ev).drop_last() =~= events);
    assert(events.push(ev).last() == ev);
    assert(events_step(conns0, acts0, events.push(ev).drop_last(), cm, am, yh));
    assert(event_step(cm, am, events.push(ev).last(), conns1, acts1, yl));
    assert(fold_witness(cm, am, yh, yl));
}

/// The exact effect of answering one response: the named record absorbs
/// it as `respond` says, or nothing changes.
pub open spec fn respond_step<T: ByteStream>(
    conns0: Seq<(u64, ClientConnection<T>)>,
    acts0: Seq<NotifierAction>,
    response: ServerResponse,
    conns1: Seq<(u64, ClientConnection<T>)>,
    acts1: Seq<NotifierAction>,
) -> bool {
    if !seq_has_id(conns0, response.id_spec()) {
        conns1 == conns0 && acts1 == acts0
    } else {
        let i = seq_id_index(conns0, response.id_spec());
        let c0 = conns0[i].1;
        let c1 = conns1[i].1;
        &&& conns1 == conns0.update(i, (response.id_spec(), c1))
        &&& (c0.in_flight() == 0 ==> c1 == c0 && acts1 == acts0)
        &&& (c0.in_flight() > 0 ==> {
            &&& c1.yielded() == c0.yielded()
            &&& c1.responded() == c0.responded() + 1
            &&& c1.in_flight() == c0.in_flight() - 1
            &&& c1.history() == c0.history()
            &&& c1.popped() == c0.popped()
            &&& c1.sent_log() == c0.sent_log()
            &&& c1.state() == (if c0.state() == ClientConnectionState::AwaitingIncoming {
                ClientConnectionState::AwaitingOutgoing
            } else {
                c0.state()
            })
            &&& c1.pending() == (if c0.state() == ClientConnectionState::Closed {
                c0.pending()
            } else {
                c0.pending() + response_bytes(normalize_content_length(response.response()@))
            })
            &&& acts1 == (if c0.state() == ClientConnectionState::AwaitingIncoming {
                acts0.push(NotifierAction::Modify(response.id_spec(), EVENT_OUT))
            } else {
                acts0
            })
        })
    }
}

/// A whole batch of responses, absorbed in order.
pub open spec fn responds_step<T: ByteStream>(
    conns0: Seq<(u64, ClientConnection<T>)>,
    acts0: Seq<NotifierAction>,
    responses: Seq<ServerResponse>,
    conns1: Seq<(u64, ClientConnection<T>)>,
    acts1: Seq<NotifierAction>,
) -> bool
    decreases responses.len(),
{
    if responses.len() == 0 {
        conns1 == conns0 && acts1 == acts0
    } else {
        exists|cm: Seq<(u64, ClientConnection<T>)>, am: Seq<NotifierAction>|
            #![trigger responds_step(conns0, acts0, responses.drop_last(), cm, am)]
            #![trigger respond_step(cm, am, responses.last(), conns1, acts1)]
            {
                &&& responds_step(conns0, acts0, responses.drop_last(), cm, am)
                &&& respond_step(cm, am, responses.last(), conns1, acts1)
            }
    }
}

/// One thing the readiness notifier reported, translated for the server:
/// either a newly accepted stream, or readiness on a connection's stream.
pub enum ServerEvent<T> {
    /// A stream just accepted from the listener, with its id.
    NewConnection(T, u64),
    /// The stream with this id is ready for the events in the set.
    Ready(u64, EventSet),
}

/// Whether a connection record is finished and safe to drop: the stream
/// is closed, nothing is owed to it, and no response is outstanding.
pub open spec fn conn_done<T: ByteStream>(c: ClientConnection<T>) -> bool {
    c.state() == ClientConnectionState::Closed && c.pending().len() == 0 && c.in_flight() == 0
}

/// The records that survive a sweep: those not yet finished.
pub open spec fn live_pred<T: ByteStream>() -> spec_fn((u64, ClientConnection<T>)) -> bool {
    |e: (u64, ClientConnection<T>)| !conn_done(e.1)
}

/// HTTP server implementation: multiplexes connections over generic byte
/// streams on a single thread, each keyed by a stable stream id.
///
/// The server itself never waits: the caller blocks on its readiness
/// notifier, translates what it reported into `ServerEvent`s, hands them
/// to `requests`, and then performs the `NotifierAction`s the server
/// queued in return.
pub struct HttpServer<T> {
    connections: Vec<(u64, ClientConnection<T>)>,
    actions: Vec<NotifierAction>,
}

impl<T: ByteStream> HttpServer<T> {
    /// The id-keyed connection records.
    pub closed spec fn conns(&self) -> Seq<(u64, ClientConnection<T>)> {
        self.connections@
    }

    /// How many connections are live.
    pub open spec fn count(&self) -> int {
        self.conns().len() as int
    }

    /// The id of the connection at index `i`.
    pub open spec fn id_at(&self, i: int) -> u64 {
        self.conns()[i].0
    }

    /// The connection at index `i`.
    pub open spec fn conn_at(&self, i: int) -> ClientConnection<T> {
        self.conns()[i].1
    }

    /// Whether a connection with this id is live.
    pub open spec fn has_conn(&self, id: u64) -> bool {
        seq_has_id(self.conns(), id)
    }

    /// The index of the live connection with this id.
    pub open spec fn conn_index(&self, id: u64) -> int {
        seq_id_index(self.conns(), id)
    }

    /// The readiness changes queued for the caller to perform.
    pub closed spec fn actions(&self) -> Seq<NotifierAction> {
        self.actions@
    }

    /// Well-formedness: never more than `MAX_CONNECTIONS` records, ids
    /// unique, every record well-formed.
    pub closed spec fn wf(&self) -> bool {
        &&& self.conns().len() <= MAX_CONNECTIONS
        &&& (forall|i: int, j: int|
            0 <= i < j < self.conns().len() ==> (#[trigger] self.conns()[i]).0 != (
            #[trigger] self.conns()[j]).0)
        &&& (forall|i: int| 0 <= i < self.conns().len() ==> (#[trigger] self.conns()[i]).1.wf())
    }

    /// The accounting that holds in every reachable server state: each
    /// live connection's in-flight count is exactly the requests it
    /// yielded minus the responses it absorbed, the connection map never
    /// exceeds `MAX_CONNECTIONS`, and a connection whose stream lives
    /// awaits the stream exactly when it owes it bytes.
    pub proof fn lemma_connection_accounting(&self, i: int)
        requires
            self.wf(),
            0 <= i < self.count(),
        ensures
            self.conn_at(i).in_flight() == self.conn_at(i).yielded() - self.conn_at(i).responded(),
            0 <= self.conn_at(i).responded() <= self.conn_at(i).yielded(),
            self.count() <= MAX_CONNECTIONS as int,
            self.conn_at(i).state() != ClientConnectionState::Closed ==> ((self.conn_at(i).state()
                == ClientConnectionState::AwaitingOutgoing) <==> self.conn_at(
                i,
            ).pending().len() > 0),
    {
    }

    /// A server with no connections and nothing queued.
    pub fn new() -> (r: HttpServer<T>)
        ensures
            r.wf(),
            r.count() == 0,
            r.actions() == Seq::<NotifierAction>::empty(),
    {
        let r = HttpServer { connections: Vec::new(), actions: Vec::new() };
        proof {
            assert(r.conns().len() == 0);
        }
        r
    }

    /// How many connections are live.
    pub fn connection_count(&self) -> (r: usize)
        ensures
            r == self.count(),
    {
        self.connections.len()
    }

    /// Hands the queued readiness changes to the caller, in the order the
    /// server decided them, and forgets them.
    pub fn take_notifier_actions(&mut self) -> (r: Vec<NotifierAction>)
        requires
            old(self).wf(),
        ensures
            final(self).wf(),
            r@ == old(self).actions(),
            final(self).actions() == Seq::<NotifierAction>::empty(),
            final(self).conns() == old(self).conns(),
    {
        let taken = self.actions.split_off(0);
        proof {
            assert(taken@ =~= old(self).actions());
            assert(final(self).actions() =~= Seq::<NotifierAction>::empty());
        }
        taken
    }

    /// The index of the live connection with this id, if any.
    fn find_conn(&self, id: u64) -> (r: Option<usize>)
        ensures
            match r {
                Some(i) => 0 <= i < self.count() && self.id_at(i as int) == id,
                None => !self.has_conn(id),
            },
    {
        let mut i: usize = 0;
        let n = self.connections.len();
        while i < n
            invariant
                0 <= i <= n == self.count(),
                forall|j: int| 0 <= j < i ==> #[trigger] self.id_at(j) != id,
            decreases n - i,
        {
            if self.connections[i].0 == id {
                return Some(i);
            }
            i = i + 1;
        }
        proof {
            assert forall|j: int|
                0 <= j < self.conns().len() implies (#[trigger] self.conns()[j]).0 != id by {
                assert(self.id_at(j) != id);
            }
        }
        None
    }

    /// Admits one accepted stream, or turns it away when the server is
    /// full. A rejected stream gets the admission-control payload, as far
    /// as it takes it in one write, and comes back to the caller to be
    /// dropped; the ten connections already being served are untouched.
    /// An admitted stream is recorded awaiting requests and queued for
    /// readable-readiness registration.
    pub fn handle_new_connection(&mut self, stream: T, id: u64) -> (r: Option<T>)
        requires
            old(self).wf(),
            !old(self).has_conn(id),
        ensures
            final(self).wf(),
            match r {
                None => {
                    &&& old(self).count() < MAX_CONNECTIONS as int
                    &&& final(self).count() == old(self).count() + 1
                    &&& (forall|i: int|
                        0 <= i < old(self).count() ==> #[trigger] final(self).conns()[i] == old(
                            self,
                        ).conns()[i])
                    &&& final(self).id_at(old(self).count()) == id
                    &&& ({
                        let c = final(self).conn_at(old(self).count());
                        &&& c.state() == ClientConnectionState::AwaitingIncoming
                        &&& c.in_flight() == 0
                        &&& c.yielded() == 0
                        &&& c.pending().len() == 0
                        &&& c.sent_log() == stream.sent_log()
                        &&& c.recv_log() == stream.recv_log()
                    })
                    &&& final(self).actions() == old(self).actions().push(
                        NotifierAction::Add(id, EVENT_IN),
                    )
                },
                Some(s) => {
                    &&& old(self).count() == MAX_CONNECTIONS as int
                    &&& final(self).conns() == old(self).conns()
                    &&& final(self).actions() == old(self).actions()
                    &&& (exists|k: int|
                        0 <= k <= server_full_message().len() && s.sent_log() == stream.sent_log()
                            + server_full_message().take(k))
                    &&& s.recv_log() == stream.recv_log()
                },
            },
    {
        if self.connections.len() == MAX_CONNECTIONS {
            // If a replacement policy for connections is ever wanted,
            // this is where it would live.
            let mut s = stream;
            let msg = server_full_message_vec();
            let outcome = s.write_chunk(msg.as_slice());
            proof {
                match outcome {
                    WriteOutcome::Wrote(n) => {
                        assert(0 <= n as int <= server_full_message().len() && s.sent_log()
                            == stream.sent_log() + server_full_message().take(n as int));
                    },
                    _ => {
                        assert(stream.sent_log() + server_full_message().take(0)
                            =~= stream.sent_log());
                        assert(0 <= 0 <= server_full_message().len() && s.sent_log()
                            == stream.sent_log() + server_full_message().take(0));
                    },
                }
            }
            return Some(s);
        }
        self.actions.push(NotifierAction::Add(id, EVENT_IN));
        let conn = ClientConnection::new(HttpConnection::new(stream));
        self.connections.push((id, conn));
        proof {
            assert forall|p: int, q: int|
                0 <= p < q < self.conns().len() implies (#[trigger] self.conns()[p]).0 != (
            #[trigger] self.conns()[q]).0 by {
                if q == old(self).count() {
                    if self.conns()[p].0 == id {
                        assert(old(self).id_at(p) == id);
                        assert(old(self).has_conn(id));
                    }
                } else {
                    assert(old(self).conns()[p].0 != old(self).conns()[q].0);
                }
            }
            assert forall|p: int| 0 <= p < self.conns().len() implies (
            #[trigger] self.conns()[p]).1.wf() by {
                if p < old(self).count() {
                    assert(old(self).conns()[p].1.wf());
                }
            }
        }
        None
    }

    /// Removes every connection that is finished: closed, drained, and
    /// with no response owed. A record is removed exactly when all three
    /// hold, and never earlier.
    pub fn sweep(&mut self)
        requires
            old(self).wf(),
        ensures
            final(self).wf(),
            final(self).conns() == old(self).conns().filter(live_pred()),
            final(self).actions() == old(self).actions(),
    {
        let ghost orig = self.connections@;
        let ghost pred = live_pred::<T>();
        let n = self.connections.len();
        let mut kept: Vec<(u64, ClientConnection<T>)> = Vec::new();
        let mut i: usize = 0;
        proof {
            reveal(Seq::filter);
            assert(orig.take(0) =~= Seq::<(u64, ClientConnection<T>)>::empty());
            assert(orig.take(0).filter(pred) =~= Seq::<(u64, ClientConnection<T>)>::empty());
            assert(self.connections@ =~= orig.skip(0));
        }
        while i < n
            invariant
                orig == old(self).conns(),
                pred == live_pred::<T>(),
                old(self).wf(),
                self.connections@ == orig.skip(i as int),
                self.actions@ == old(self).actions@,
                n == orig.len(),
                0 <= i <= n,
                kept@ == orig.take(i as int).filter(pred),
                kept@.len() <= i,
                forall|p: int| 0 <= p < kept@.len() ==> (#[trigger] kept@[p]).1.wf(),
                forall|p: int, q: int|
                    0 <= p < q < kept@.len() ==> (#[trigger] kept@[p]).0 != (
                    #[trigger] kept@[q]).0,
                forall|p: int, q: int|
                    0 <= p < kept@.len() && i <= q < n ==> (#[trigger] kept@[p]).0 != (
                    #[trigger] orig[q]).0,
            decreases n - i,
        {
            let e = self.connections.remove(0);
            proof {
                assert(e == orig[i as int]);
                assert(self.connections@ =~= orig.skip(i + 1));
            }
            let keep = !e.1.is_done();
            proof {
                reveal(Seq::filter);
                assert(orig.take(i + 1).drop_last() =~= orig.take(i as int));
                assert(orig.take(i + 1).last() == orig[i as int]);
            }
            if keep {
                kept.push(e);
            }
            i = i + 1;
        }
        proof {
            assert(orig.take(n as int) =~= orig);
        }
        self.connections = kept;
    }

    /// Adds the provided response to the outgoing queue of the connection
    /// it answers, turning the connection writable if it was waiting for
    /// requests. A response whose connection is gone, or whose connection
    /// is owed nothing, is dropped: the application's obligation is
    /// honored either way.
    pub fn respond(&mut self, response: ServerResponse) -> (r: Result<(), ServerError>)
        requires
            old(self).wf(),
        ensures
            final(self).wf(),
            r is Ok,
            final(self).count() == old(self).count(),
            forall|i: int|
                0 <= i < old(self).count() ==> #[trigger] final(self).id_at(i) == old(
                    self,
                ).id_at(i),
            respond_step(
                old(self).conns(),
                old(self).actions(),
                response,
                final(self).conns(),
                final(self).actions(),
            ),
    {
        let id = response.id;
        match self.find_conn(id) {
            None => {
                proof {
                    assert(!seq_has_id(self.conns(), id));
                }
                Ok(())
            },
            Some(i) => {
                proof {
                    let w = seq_id_index(old(self).conns(), id);
                    if w != i as int {
                        assert(old(self).conns()[w].0 == id);
                        assert(old(self).conns()[i as int].0 == id);
                    }
                    assert(seq_id_index(old(self).conns(), id) == i as int);
                }
                let became_writable = self.connections[i].1.absorb_response(response.response);
                if became_writable {
                    // The connection was waiting for requests; it now has
                    // bytes to write, so ask for writable-readiness.
                    self.actions.push(NotifierAction::Modify(id, EVENT_OUT));
                }
                proof {
                    assert(final(self).conns() =~= old(self).conns().update(
                        i as int,
                        (id, final(self).conns()[i as int].1),
                    ));
                }
                Ok(())
            },
        }
    }

    /// Enqueues each of the provided responses in its connection's
    /// outgoing queue: behaves exactly as `respond` folded over the
    /// vector, front to back.
    pub fn enqueue_responses(&mut self, responses: Vec<ServerResponse>) -> (r: Result<
        (),
        ServerError,
    >)
        requires
            old(self).wf(),
        ensures
            final(self).wf(),
            r is Ok,
            final(self).count() == old(self).count(),
            forall|i: int|
                0 <= i < old(self).count() ==> #[trigger] final(self).id_at(i) == old(
                    self,
                ).id_at(i),
            responds_step(
                old(self).conns(),
                old(self).actions(),
                responses@,
                final(self).conns(),
                final(self).actions(),
            ),
    {
        let ghost resps0 = responses@;
        let ghost conns0 = old(self).conns();
        let ghost acts0 = old(self).actions();
        let mut responses = responses;
        let ghost mut k: int = 0;
        proof {
            assert(resps0.take(0) =~= Seq::<ServerResponse>::empty());
        }
        while responses.len() > 0
            invariant
                self.wf(),
                conns0 == old(self).conns(),
                acts0 == old(self).actions(),
                0 <= k <= resps0.len(),
                responses@ == resps0.skip(k),
                self.count() == old(self).count(),
                forall|j: int|
                    0 <= j < old(self).count() ==> #[trigger] self.id_at(j) == old(self).id_at(j),
                responds_step(conns0, acts0, resps0.take(k), self.conns(), self.actions()),
            decreases responses@.len(),
        {
            let ghost pre_conns = self.conns();
            let ghost pre_acts = self.actions();
            let response = responses.remove(0);
            proof {
                assert(resps0.skip(k)[0] == resps0[k]);
                assert(response == resps0[k]);
            }
            let _ = self.respond(response);
            proof {
                assert(responses@ =~= resps0.skip(k + 1));
                assert(resps0.take(k + 1).drop_last() =~= resps0.take(k));
                assert(resps0.take(k + 1).last() == resps0[k]);
                assert(responds_step(conns0, acts0, resps0.take(k + 1).drop_last(), pre_conns,
                    pre_acts));
                assert(respond_step(pre_conns, pre_acts, resps0.take(k + 1).last(), self.conns(),
                    self.actions()));
                assert(responds_step(conns0, acts0, resps0.take(k + 1), self.conns(),
                    self.actions()));
                k = k + 1;
            }
        }
        proof {
            assert(resps0.take(k) =~= resps0);
        }
        Ok(())
    }

    /// Processes one batch of readiness events: admits or turns away new
    /// connections, reads requests from readable streams, writes owed
    /// bytes to writable ones, queues the readiness changes this caused,
    /// and finally removes every connection that is finished.
    ///
    /// The whole call is the fold of `event_step` over the events, in
    /// order, followed by the `sweep`; the requests it returns are the
    /// concatenated yields of the steps, each wrapped with the id of the
    /// connection it arrived on.
    ///
    /// # Errors
    /// `ConnectionError(InvalidWrite)`, and only that, when a writable
    /// event arrives for a connection that owes nothing; the remaining
    /// events are dropped.
    #[verifier::rlimit(100)]
    pub fn requests(&mut self, events: Vec<ServerEvent<T>>) -> (r: Result<
        Vec<ServerRequest>,
        ServerError,
    >)
        requires
            old(self).wf(),
        ensures
            final(self).wf(),
            r matches Err(e) ==> e == ServerError::ConnectionError(ConnectionError::InvalidWrite)
                && (exists|
                j: int,
                cm: Seq<(u64, ClientConnection<T>)>,
                am: Seq<NotifierAction>,
                ym: Seq<ServerRequest>,
            |
                #![trigger step_witness(j, cm, am, ym)]
                #![trigger write_on_idle_at(old(self).conns(), old(self).actions(), events@, j, cm, am, ym)]
                write_on_idle_at(
                    old(self).conns(),
                    old(self).actions(),
                    events@,
                    j,
                    cm,
                    am,
                    ym,
                )),
            r is Ok ==> (exists|
                cm: Seq<(u64, ClientConnection<T>)>,
                am: Seq<NotifierAction>,
            |
                #![trigger table_witness(cm, am)]
                #![trigger events_step(old(self).conns(), old(self).actions(), events@, cm, am, (r->Ok_0)@)]
                {
                    &&& events_step(
                        old(self).conns(),
                        old(self).actions(),
                        events@,
                        cm,
                        am,
                        (r->Ok_0)@,
                    )
                    &&& final(self).conns() == cm.filter(live_pred())
                    &&& final(self).actions() == am
                }),
            r is Ok ==> forall|i: int|
                0 <= i < final(self).count() ==> !conn_done(#[trigger] final(self).conn_at(i)),
    {
        let ghost evs0 = events@;
        let ghost conns0 = old(self).conns();
        let ghost acts0 = old(self).actions();
        let mut parsed_requests: Vec<ServerRequest> = Vec::new();
        let mut remaining = events;
        let ghost mut k: int = 0;
        proof {
            assert(evs0.take(0) =~= Seq::<ServerEvent<T>>::empty());
        }
        while remaining.len() > 0
            invariant
                self.wf(),
                conns0 == old(self).conns(),
                acts0 == old(self).actions(),
                evs0 == events@,
                0 <= k <= evs0.len(),
                remaining@ == evs0.skip(k),
                events_step(conns0, acts0, evs0.take(k), self.conns(), self.actions(),
                    parsed_requests@),
            decreases remaining@.len(),
        {
            let ghost pre_conns = self.conns();
            let ghost pre_acts = self.actions();
            let ghost pre_parsed = parsed_requests@;
            let ev = remaining.remove(0);
            proof {
                assert(evs0.skip(k)[0] == evs0[k]);
                assert(ev == evs0[k]);
                assert(remaining@ =~= evs0.skip(k + 1));
            }
            match ev {
                ServerEvent::NewConnection(stream, id) => {
                    if self.find_conn(id).is_none() {
                        // When the server is full the stream comes back
                        // with the refusal payload written, and dropping
                        // it here closes it.
                        let _rejected = self.handle_new_connection(stream, id);
                        proof {
                            if pre_conns.len() < MAX_CONNECTIONS {
                                assert(self.conns().take(pre_conns.len() as int) =~= pre_conns);
                            }
                            assert(parsed_requests@.skip(pre_parsed.len() as int) =~= Seq::<
                                ServerRequest,
                            >::empty());
                            assert(event_step(pre_conns, pre_acts, evs0[k], self.conns(),
                                self.actions(), parsed_requests@.skip(pre_parsed.len() as int)));
                        }
                    } else {
                        proof {
                            assert(seq_has_id(pre_conns, id));
                            assert(parsed_requests@.skip(pre_parsed.len() as int) =~= Seq::<
                                ServerRequest,
                            >::empty());
                            assert(event_step(pre_conns, pre_acts, evs0[k], self.conns(),
                                self.actions(), parsed_requests@.skip(pre_parsed.len() as int)));
                        }
                    }
                },
                ServerEvent::Ready(id, evset) => {
                    match self.find_conn(id) {
                        None => {
                            // A stale event for a connection already
                            // gone; nothing to do.
                            proof {
                                assert(!seq_has_id(pre_conns, id));
                                assert(parsed_requests@.skip(pre_parsed.len() as int) =~= Seq::<
                                    ServerRequest,
                                >::empty());
                                assert(event_step(pre_conns, pre_acts, evs0[k], self.conns(),
                                    self.actions(), parsed_requests@.skip(
                                    pre_parsed.len() as int,
                                )));
                            }
                        },
                        Some(i) => {
                            proof {
                                let w = seq_id_index(pre_conns, id);
                                if w != i as int {
                                    assert(pre_conns[w].0 == id);
                                    assert(pre_conns[i as int].0 == id);
                                }
                                assert(seq_id_index(pre_conns, id) == i as int);
                            }
                            if evset.contains(EVENT_IN) {
                                let read_result = self.connections[i].1.read();
                                proof {
                                    assert(self.conns() =~= pre_conns.update(
                                        i as int,
                                        (id, self.conns()[i as int].1),
                                    ));
                                }
                                let ghost read_reqs = (read_result->Ok_0)@;
                                match read_result {
                                    Ok(reqs) => {
                                        let ghost reqs0 = reqs@;
                                        let mut reqs = reqs;
                                        let ghost mut c: int = 0;
                                        #[verifier::loop_isolation(false)]
                                        while reqs.len() > 0
                                            invariant
                                                0 <= c <= reqs0.len(),
                                                reqs@ == reqs0.skip(c),
                                                parsed_requests@.len() == pre_parsed.len() + c,
                                                parsed_requests@.take(pre_parsed.len() as int)
                                                    == pre_parsed,
                                                forall|j: int|
                                                    0 <= j < c ==> (#[trigger] parsed_requests@[
                                                    pre_parsed.len() + j]).request_spec()
                                                        == reqs0[j] && parsed_requests@[
                                                    pre_parsed.len() + j].id_spec() == id,
                                            decreases reqs@.len(),
                                        {
                                            let request = reqs.remove(0);
                                            proof {
                                                assert(reqs0.skip(c)[0] == reqs0[c]);
                                            }
                                            parsed_requests.push(
                                                ServerRequest::new(request, id),
                                            );
                                            proof {
                                                assert(parsed_requests@.take(
                                                    pre_parsed.len() as int,
                                                ) =~= pre_parsed);
                                                assert(reqs@ =~= reqs0.skip(c + 1));
                                                c = c + 1;
                                            }
                                        }
                                        proof {
                                            assert(c == reqs0.len());
                                            assert(reqs0 == read_reqs);
                                        }
                                    },
                                    Err(e) => {
                                        return Err(e);
                                    },
                                }
                                if matches!(
                                    self.connections[i].1.state,
                                    ClientConnectionState::AwaitingOutgoing,
                                ) {
                                    self.actions.push(NotifierAction::Modify(id, EVENT_OUT));
                                }
                                proof {
                                    let y = parsed_requests@.skip(pre_parsed.len() as int);
                                    let ym = y.map_values(
                                        |sr: ServerRequest| sr.request_spec(),
                                    );
                                    assert forall|j: int|
                                        0 <= j < y.len() implies (#[trigger] y[j]).id_spec()
                                        == id && ym[j] == read_reqs[j] by {
                                        assert(y[j] == parsed_requests@[pre_parsed.len() + j]);
                                        assert(ym[j] == y[j].request_spec());
                                    }
                                    assert(ym =~= read_reqs);
                                    assert(event_step(pre_conns, pre_acts, evs0[k], self.conns(),
                                        self.actions(), y));
                                }
                            } else if evset.contains(EVENT_OUT) {
                                match self.connections[i].1.write() {
                                    Ok(()) => {},
                                    Err(e) => {
                                        proof {
                                            assert(evs0[k] == ServerEvent::<T>::Ready(
                                                id,
                                                evset,
                                            ));
                                            assert(write_on_idle_at(conns0, acts0, evs0,
                                                k as int, pre_conns, pre_acts, pre_parsed));
                                            assert(step_witness(k, pre_conns, pre_acts,
                                                pre_parsed));
                                        }
                                        return Err(e);
                                    },
                                }
                                proof {
                                    assert(self.conns() =~= pre_conns.update(
                                        i as int,
                                        (id, self.conns()[i as int].1),
                                    ));
                                }
                                if matches!(
                                    self.connections[i].1.state,
                                    ClientConnectionState::AwaitingIncoming,
                                ) {
                                    self.actions.push(NotifierAction::Modify(id, EVENT_IN));
                                }
                                proof {
                                    assert(parsed_requests@.skip(pre_parsed.len() as int)
                                        =~= Seq::<ServerRequest>::empty());
                                    assert(event_step(pre_conns, pre_acts, evs0[k], self.conns(),
                                        self.actions(), parsed_requests@.skip(
                                        pre_parsed.len() as int,
                                    )));
                                }
                            } else {
                                proof {
                                    assert(parsed_requests@.skip(pre_parsed.len() as int)
                                        =~= Seq::<ServerRequest>::empty());
                                    assert(event_step(pre_conns, pre_acts, evs0[k], self.conns(),
                                        self.actions(), parsed_requests@.skip(
                                        pre_parsed.len() as int,
                                    )));
                                }
                            }
                        },
                    }
                },
            }
            proof {
                let y = parsed_requests@.skip(pre_parsed.len() as int);
                assert(parsed_requests@ =~= pre_parsed + y);
                assert(event_step(pre_conns, pre_acts, evs0[k], self.conns(), self.actions(), y));
                lemma_events_step_snoc(conns0, acts0, evs0.take(k), pre_conns, pre_acts,
                    pre_parsed, evs0[k], self.conns(), self.actions(), y);
                assert(evs0.take(k).push(evs0[k]) =~= evs0.take(k + 1));
                assert(events_step(conns0, acts0, evs0.take(k + 1), self.conns(), self.actions(),
                    parsed_requests@));
                k = k + 1;
            }
        }
        proof {
            assert(evs0.take(k) =~= evs0);
        }
        let ghost before = self.conns();
        let ghost before_acts = self.actions();
        self.sweep();
        proof {
            assert(events_step(
                old(self).conns(),
                old(self).actions(),
                evs0,
                before,
                before_acts,
                parsed_requests@,
            ));
            assert(self.conns() == before.filter(live_pred()));
            assert(self.actions() == before_acts);
            assert(table_witness(before, before_acts));
            assert forall|i: int| 0 <= i < final(self).count() implies !conn_done(
                #[trigger] final(self).conn_at(i),
            ) by {
                before.lemma_filter_pred(live_pred::<T>(), i);
            }
        }
        Ok(parsed_requests)
    }
}

} // verus!
