//! The per-stream HTTP connection: an incremental request parser over an
//! append-only read buffer, and a FIFO of serialized responses drained by
//! non-blocking writes.

use vstd::prelude::*;

use crate::ascii::{crlf, crlfcrlf, find, find_first, lemma_find_first, lemma_find_first_extend,
    occurs_at, CR, LF};
use crate::common::{Body, ConnectionError, MessageError, RequestError, Version};
use crate::headers::{headers_default, parse_header_block, Headers};
use crate::request::{
    lemma_parse_block_cl_nonneg, lemma_terminator_gap, parse_request_line_spec, Request,
    RequestLine, RequestV,
};
use crate::response::{normalize_content_length, response_bytes, Response, ResponseV, StatusCode,
    StatusLineV};
use crate::transport::{ByteStream, ReadOutcome, WriteOutcome};

verus! {

/// The most bytes a connection buffers for one request before the request
/// is rejected as invalid.
pub const MAX_READ_BUF: usize = 1024;

/// One attempt to parse a request from the front of a byte stream.
pub enum RequestStep {
    /// The bytes do not yet hold a complete request.
    Incomplete,
    /// The bytes can never extend to a request.
    Fail(MessageError),
    /// A complete request occupying the first `int` bytes.
    Done(RequestV, int),
}

/// Parses the front of `b` as one request: a request line of at least the
/// minimum length ended by CRLF, a header block ended by CRLF CRLF, and,
/// when the headers announce one, exactly `Content-Length` body bytes.
/// Bytes past the request are left for the next attempt.
pub open spec fn parse_request_step(b: Seq<u8>) -> RequestStep {
    match find_first(b, crlf()) {
        None => RequestStep::Incomplete,
        Some(le) => {
            if le < 14 {
                RequestStep::Fail(MessageError::InvalidRequest(RequestError::InvalidRequest))
            } else {
                match parse_request_line_spec(b.take(le)) {
                    Err(e) => RequestStep::Fail(e),
                    Ok(rl) => match find_first(b.skip(le), crlfcrlf()) {
                        None => RequestStep::Incomplete,
                        Some(h) => {
                            let hs_res = if h == 0 {
                                Ok(headers_default())
                            } else {
                                parse_header_block(b.subrange(le + 2, le + h))
                            };
                            match hs_res {
                                Err(e) => RequestStep::Fail(e),
                                Ok(hs) => {
                                    if hs.content_length == 0 {
                                        RequestStep::Done(
                                            RequestV { line: rl, headers: hs, body: None },
                                            le + h + 4,
                                        )
                                    } else if b.len() >= le + h + 4 + hs.content_length {
                                        RequestStep::Done(
                                            RequestV {
                                                line: rl,
                                                headers: hs,
                                                body: Some(
                                                    b.subrange(
                                                        le + h + 4,
                                                        le + h + 4 + hs.content_length,
                                                    ),
                                                ),
                                            },
                                            le + h + 4 + hs.content_length,
                                        )
                                    } else {
                                        RequestStep::Incomplete
                                    }
                                },
                            }
                        },
                    },
                }
            }
        },
    }
}

/// A parsed request occupies at least its request line and the block
/// terminator, and never more than the bytes at hand.
pub proof fn lemma_step_bounds(b: Seq<u8>)
    ensures
        parse_request_step(b) matches RequestStep::Done(r, n) ==> 18 <= n <= b.len(),
{
    lemma_find_first(b, crlf());
    match find_first(b, crlf()) {
        None => {},
        Some(le) => {
            lemma_find_first(b.skip(le), crlfcrlf());
            match find_first(b.skip(le), crlfcrlf()) {
                None => {},
                Some(h) => {
                    assert(occurs_at(b.skip(le), crlfcrlf(), h));
                    if le >= 14 && parse_request_line_spec(b.take(le)) is Ok {
                        let hs_res = if h == 0 {
                            Ok::<_, MessageError>(headers_default())
                        } else {
                            parse_header_block(b.subrange(le + 2, le + h))
                        };
                        match hs_res {
                            Err(e) => {},
                            Ok(hs) => {
                                if hs.content_length != 0 {
                                    lemma_parse_block_cl_nonneg(b.subrange(le + 2, le + h));
                                }
                            },
                        }
                    }
                },
            }
        },
    }
}

/// What extending the bytes cannot change: a complete request stays the
/// same complete request, and a hopeless prefix stays hopeless.
pub proof fn lemma_step_extend(b: Seq<u8>, ext: Seq<u8>)
    ensures
        parse_request_step(b) matches RequestStep::Done(r, n) ==> parse_request_step(b + ext)
            == RequestStep::Done(r, n),
        parse_request_step(b) matches RequestStep::Fail(e) ==> parse_request_step(b + ext)
            == RequestStep::Fail(e),
{
    match find_first(b, crlf()) {
        None => {},
        Some(le) => {
            lemma_find_first(b, crlf());
            lemma_find_first_extend(b, ext, crlf());
            assert((b + ext).take(le) =~= b.take(le));
            match find_first(b.skip(le), crlfcrlf()) {
                None => {},
                Some(h) => {
                    lemma_find_first(b.skip(le), crlfcrlf());
                    assert((b + ext).skip(le) =~= b.skip(le) + ext);
                    lemma_find_first_extend(b.skip(le), ext, crlfcrlf());
                    assert(occurs_at(b.skip(le), crlfcrlf(), h));
                    assert(occurs_at(b, crlf(), le));
                    if h != 0 {
                        lemma_terminator_gap(b, le, h);
                        assert((b + ext).subrange(le + 2, le + h) =~= b.subrange(le + 2, le + h));
                    }
                    if le >= 14 && parse_request_line_spec(b.take(le)) is Ok {
                        let hs_res = if h == 0 {
                            Ok::<_, MessageError>(headers_default())
                        } else {
                            parse_header_block(b.subrange(le + 2, le + h))
                        };
                        match hs_res {
                            Err(e) => {},
                            Ok(hs) => {
                                if h != 0 {
                                    lemma_parse_block_cl_nonneg(b.subrange(le + 2, le + h));
                                }
                                assert(hs.content_length >= 0);
                                if hs.content_length > 0 && b.len() >= le + h + 4
                                    + hs.content_length {
                                    assert((b + ext).subrange(
                                        le + h + 4,
                                        le + h + 4 + hs.content_length,
                                    ) =~= b.subrange(le + h + 4, le + h + 4 + hs.content_length));
                                }
                            },
                        }
                    }
                },
            }
        },
    }
}

/// Zero or more requests parsed greedily from the front of `b`: the
/// requests, how many bytes they occupied, and the error that stopped the
/// parse, if one did. What follows the consumed prefix is either an
/// incomplete request or the input of the error.
pub struct StreamParse {
    /// The complete requests, in order.
    pub reqs: Seq<RequestV>,
    /// How many bytes the complete requests occupied.
    pub consumed: int,
    /// The error that stopped the parse, if any.
    pub err: Option<MessageError>,
}

/// Parses requests greedily from the front of `b`.
pub open spec fn parse_request_stream(b: Seq<u8>) -> StreamParse
    decreases b.len(),
{
    match parse_request_step(b) {
        RequestStep::Incomplete => StreamParse { reqs: Seq::empty(), consumed: 0, err: None },
        RequestStep::Fail(e) => StreamParse { reqs: Seq::empty(), consumed: 0, err: Some(e) },
        RequestStep::Done(r, n) => {
            if 0 < n <= b.len() {
                let rest = parse_request_stream(b.skip(n));
                StreamParse {
                    reqs: seq![r] + rest.reqs,
                    consumed: n + rest.consumed,
                    err: rest.err,
                }
            } else {
                // Dead branch: a complete request fits in the bytes at hand.
                StreamParse { reqs: Seq::empty(), consumed: 0, err: None }
            }
        },
    }
}

/// The consumed prefix never exceeds the bytes at hand.
pub proof fn lemma_stream_consumed_bounds(b: Seq<u8>)
    ensures
        0 <= parse_request_stream(b).consumed <= b.len(),
    decreases b.len(),
{
    lemma_step_bounds(b);
    match parse_request_step(b) {
        RequestStep::Incomplete => {},
        RequestStep::Fail(e) => {},
        RequestStep::Done(r, n) => {
            if 0 < n <= b.len() {
                lemma_stream_consumed_bounds(b.skip(n));
            }
        },
    }
}

/// Incremental parsing agrees with parsing in one piece: however the
/// bytes of a stream are split into arrivals, the requests come out the
/// same and in the same order. Parsing `b` and then continuing on the
/// unconsumed rest extended by `ext` yields exactly the parse of the
/// whole of `b + ext`, as long as `b` alone did not already fail.
pub proof fn lemma_parse_stream_extend(b: Seq<u8>, ext: Seq<u8>)
    ensures
        ({
            let a = parse_request_stream(b);
            a.err is None ==> {
                let c = parse_request_stream(b.skip(a.consumed) + ext);
                parse_request_stream(b + ext) == (StreamParse {
                    reqs: a.reqs + c.reqs,
                    consumed: a.consumed + c.consumed,
                    err: c.err,
                })
            }
        }),
    decreases b.len(),
{
    let a = parse_request_stream(b);
    if a.err is None {
        lemma_step_bounds(b);
        lemma_step_extend(b, ext);
        match parse_request_step(b) {
            RequestStep::Fail(e) => {},
            RequestStep::Incomplete => {
                assert(a.consumed == 0 && a.reqs =~= Seq::<RequestV>::empty());
                assert(b.skip(0) =~= b);
                let c = parse_request_stream(b + ext);
                assert(a.reqs + c.reqs =~= c.reqs);
            },
            RequestStep::Done(r, n) => {
                assert(0 < n <= b.len());
                let rest = parse_request_stream(b.skip(n));
                assert(a.reqs == seq![r] + rest.reqs);
                assert(a.consumed == n + rest.consumed);
                assert(rest.err is None);
                assert(parse_request_step(b + ext) == RequestStep::Done(r, n));
                assert((b + ext).skip(n) =~= b.skip(n) + ext);
                let restx = parse_request_stream(b.skip(n) + ext);
                assert(parse_request_stream(b + ext) == (StreamParse {
                    reqs: seq![r] + restx.reqs,
                    consumed: n + restx.consumed,
                    err: restx.err,
                }));
                lemma_parse_stream_extend(b.skip(n), ext);
                lemma_stream_consumed_bounds(b.skip(n));
                let c = parse_request_stream(b.skip(n).skip(rest.consumed) + ext);
                assert(restx == (StreamParse {
                    reqs: rest.reqs + c.reqs,
                    consumed: rest.consumed + c.consumed,
                    err: c.err,
                }));
                assert(b.skip(n).skip(rest.consumed) =~= b.skip(a.consumed));
                assert(seq![r] + (rest.reqs + c.reqs) =~= (seq![r] + rest.reqs) + c.reqs);
            },
        }
    }
}

/// The front of `b` holds a request whose header block is complete and
/// carries `Expect: 100-continue`, but whose body has not fully arrived:
/// the peer is waiting for the `100 Continue` before it sends the body.
pub open spec fn expect_pending(b: Seq<u8>) -> bool {
    match find_first(b, crlf()) {
        None => false,
        Some(le) => {
            if le < 14 {
                false
            } else {
                match parse_request_line_spec(b.take(le)) {
                    Err(e) => false,
                    Ok(rl) => match find_first(b.skip(le), crlfcrlf()) {
                        None => false,
                        Some(h) => {
                            let hs_res = if h == 0 {
                                Ok(headers_default())
                            } else {
                                parse_header_block(b.subrange(le + 2, le + h))
                            };
                            match hs_res {
                                Err(e) => false,
                                Ok(hs) => hs.content_length != 0 && b.len() < le + h + 4
                                    + hs.content_length && hs.expect,
                            }
                        },
                    },
                }
            }
        },
    }
}

/// The `100 Continue` bytes one read queues: one for each newly completed
/// request that expects it — except the first, when its continue already
/// went out while its body was awaited — and one for a new request whose
/// header block with `Expect` is complete but whose body is not.
pub open spec fn continues_queued(newreqs: Seq<RequestV>, had: bool, tail: bool) -> Seq<u8> {
    continues_for(
        if had && newreqs.len() > 0 {
            newreqs.drop_first()
        } else {
            newreqs
        },
    ) + (if tail && !(had && newreqs.len() == 0) {
        response_bytes(continue_response())
    } else {
        Seq::<u8>::empty()
    })
}

/// The synthesized `100 Continue` response, as a mathematical value.
pub open spec fn continue_response() -> ResponseV {
    ResponseV {
        line: StatusLineV {
            version: Version::Http11,
            status: StatusCode::Continue,
            message: None,
        },
        headers: headers_default(),
        body: None,
    }
}

/// The bytes of the synthesized `100 Continue` responses owed for each
/// request in `reqs` that carries `Expect: 100-continue`.
pub open spec fn continues_for(reqs: Seq<RequestV>) -> Seq<u8>
    decreases reqs.len(),
{
    if reqs.len() == 0 {
        Seq::empty()
    } else {
        (if reqs[0].headers.expect {
            response_bytes(continue_response())
        } else {
            Seq::<u8>::empty()
        }) + continues_for(reqs.drop_first())
    }
}


/// The synthesized `100 Continue` bytes owed for one request.
pub open spec fn continue_contribution(r: RequestV) -> Seq<u8> {
    if r.headers.expect {
        response_bytes(continue_response())
    } else {
        Seq::<u8>::empty()
    }
}

/// Appending a request appends its `100 Continue` contribution.
pub proof fn lemma_continues_push(reqs: Seq<RequestV>, x: RequestV)
    ensures
        continues_for(reqs.push(x)) == continues_for(reqs) + continue_contribution(x),
    decreases reqs.len(),
{
    if reqs.len() == 0 {
        assert(reqs.push(x)[0] == x);
        assert(reqs.push(x).drop_first() =~= Seq::<RequestV>::empty());
        assert(continues_for(reqs.push(x).drop_first()) =~= Seq::<u8>::empty());
        assert(continues_for(reqs.push(x)) =~= continue_contribution(x) + Seq::<u8>::empty());
        assert(continue_contribution(x) + Seq::<u8>::empty() =~= continue_contribution(x));
        assert(continues_for(reqs) =~= Seq::<u8>::empty());
        assert(continues_for(reqs) + continue_contribution(x) =~= continue_contribution(x));
    } else {
        assert(reqs.push(x).drop_first() =~= reqs.drop_first().push(x));
        lemma_continues_push(reqs.drop_first(), x);
        assert(continues_for(reqs.push(x)) == continue_contribution(reqs[0]) + (continues_for(
            reqs.drop_first(),
        ) + continue_contribution(x)));
        assert(continue_contribution(reqs[0]) + (continues_for(reqs.drop_first())
            + continue_contribution(x)) =~= (continue_contribution(reqs[0]) + continues_for(
            reqs.drop_first(),
        )) + continue_contribution(x));
    }
}

/// A serialized response holds at least its status line and the empty
/// line that ends its header block.
pub proof fn lemma_response_bytes_len(r: ResponseV)
    ensures
        response_bytes(r).len() >= 16,
{
    match r.line.version {
        Version::Http10 => {
            assert(crate::common::version_bytes(r.line.version).len() == 8);
        },
        Version::Http11 => {
            assert(crate::common::version_bytes(r.line.version).len() == 8);
        },
    }
    match r.line.status {
        StatusCode::Continue => {
            assert(crate::response::status_bytes(r.line.status).len() == 3);
        },
        StatusCode::OK => {
            assert(crate::response::status_bytes(r.line.status).len() == 3);
        },
        StatusCode::NoContent => {
            assert(crate::response::status_bytes(r.line.status).len() == 3);
        },
        StatusCode::BadRequest => {
            assert(crate::response::status_bytes(r.line.status).len() == 3);
        },
        StatusCode::NotFound => {
            assert(crate::response::status_bytes(r.line.status).len() == 3);
        },
        StatusCode::InternalServerError => {
            assert(crate::response::status_bytes(r.line.status).len() == 3);
        },
        StatusCode::NotImplemented => {
            assert(crate::response::status_bytes(r.line.status).len() == 3);
        },
    }
}

/// What the front of the read buffer held when a request was looked for.
enum ReqFront {
    /// Not yet a complete request; the flag says whether a complete header
    /// block with `Expect: 100-continue` is waiting for its body.
    Partial(bool),
    /// Never going to be a request.
    Fail(MessageError),
    /// One complete request occupying the first `usize` bytes.
    Done(Request, usize),
}

/// Parses the front of `buf` as one complete request, if it already holds
/// one.
fn try_parse_request_front(buf: &[u8]) -> (r: ReqFront)
    ensures
        match r {
            ReqFront::Partial(e) => parse_request_step(buf@) is Incomplete && e == expect_pending(
                buf@,
            ),
            ReqFront::Fail(e) => parse_request_step(buf@) == RequestStep::Fail(e),
            ReqFront::Done(req, n) => parse_request_step(buf@) == RequestStep::Done(
                req@,
                n as int,
            ),
        },
{
    let n = buf.len();
    let mut sep: Vec<u8> = Vec::new();
    sep.push(CR);
    sep.push(LF);
    assert(sep@ =~= crlf());
    let le = match find(buf, sep.as_slice()) {
        None => {
            return ReqFront::Partial(false);
        },
        Some(le) => le,
    };
    proof {
        lemma_find_first(buf@, crlf());
    }
    if le < 14 {
        return ReqFront::Fail(MessageError::InvalidRequest(RequestError::InvalidRequest));
    }
    let line = vstd::slice::slice_subrange(buf, 0, le);
    assert(line@ == buf@.take(le as int));
    let request_line = match RequestLine::try_from(line) {
        Ok(rl) => rl,
        Err(e) => {
            return ReqFront::Fail(e);
        },
    };
    let mut sep4: Vec<u8> = Vec::new();
    sep4.push(CR);
    sep4.push(LF);
    sep4.push(CR);
    sep4.push(LF);
    assert(sep4@ =~= crlfcrlf());
    let tail = vstd::slice::slice_subrange(buf, le, n);
    assert(tail@ == buf@.skip(le as int));
    let h = match find(tail, sep4.as_slice()) {
        None => {
            return ReqFront::Partial(false);
        },
        Some(h) => h,
    };
    proof {
        lemma_find_first(tail@, crlfcrlf());
    }
    let headers = if h == 0 {
        Headers::default()
    } else {
        proof {
            lemma_terminator_gap(buf@, le as int, h as int);
        }
        let headers_bytes = vstd::slice::slice_subrange(buf, le + 2, le + h);
        assert(headers_bytes@ == buf@.subrange(le + 2, le + h));
        match Headers::try_from(headers_bytes) {
            Ok(hs) => hs,
            Err(e) => {
                return ReqFront::Fail(e);
            },
        }
    };
    proof {
        if h != 0 {
            lemma_parse_block_cl_nonneg(buf@.subrange(le + 2, le + h));
        }
    }
    let cl = headers.content_length();
    if cl == 0 {
        return ReqFront::Done(
            Request { request_line, headers, body: None },
            le + h + 4,
        );
    }
    if n >= le + h + 4 && n - (le + h + 4) >= cl as usize {
        let body_bytes = vstd::slice::slice_subrange(buf, le + h + 4, le + h + 4 + cl as usize);
        assert(body_bytes@ == buf@.subrange(le + h + 4, le + h + 4 + cl as int));
        let body = Body::new(vstd::slice::slice_to_vec(body_bytes));
        ReqFront::Done(
            Request { request_line, headers, body: Some(body) },
            le + h + 4 + cl as usize,
        )
    } else {
        ReqFront::Partial(headers.expect_continue())
    }
}

/// Owns one byte stream and drives the data exchange on it. Bytes read
/// from the stream are parsed incrementally into a queue of complete
/// requests; enqueued responses are serialized into a FIFO of byte blobs
/// that non-blocking writes drain in order.
pub struct HttpConnection<T> {
    stream: T,
    read_buf: Vec<u8>,
    parsed: Vec<Request>,
    out_queue: Vec<Vec<u8>>,
    out_cursor: usize,
    cont_sent: bool,
    history: Ghost<Seq<u8>>,
    recv_base: Ghost<int>,
    popped: Ghost<int>,
}

impl<T: ByteStream> HttpConnection<T> {
    /// The bytes accepted into the parser since the connection was opened
    /// or the parser last gave up.
    pub closed spec fn history(&self) -> Seq<u8> {
        self.history@
    }

    /// Where in the stream's delivered bytes the current history starts.
    pub closed spec fn recv_base(&self) -> int {
        self.recv_base@
    }

    /// How many parsed requests have been handed out.
    pub closed spec fn popped(&self) -> int {
        self.popped@
    }

    /// The bytes the stream has delivered.
    pub closed spec fn recv_log(&self) -> Seq<u8> {
        self.stream.recv_log()
    }

    /// The bytes written to the stream.
    pub closed spec fn sent_log(&self) -> Seq<u8> {
        self.stream.sent_log()
    }

    /// The serialized responses still queued, from the write cursor on.
    pub closed spec fn blobs(&self) -> Seq<Seq<u8>> {
        self.out_queue@.map_values(|v: Vec<u8>| v@)
    }

    /// The bytes still owed to the stream, in write order.
    pub closed spec fn pending_bytes(&self) -> Seq<u8> {
        if self.blobs().len() == 0 {
            Seq::empty()
        } else {
            self.blobs()[0].skip(self.out_cursor as int) + concat_blobs(self.blobs().drop_first())
        }
    }

    /// Whether a `100 Continue` has already been queued for the request
    /// whose body the buffer is still waiting for.
    pub closed spec fn cont_sent(&self) -> bool {
        self.cont_sent
    }

    /// Well-formedness: the history is a suffix of the delivered bytes and
    /// parses without error, the read buffer holds exactly its unconsumed
    /// tail, the queue holds exactly the parsed requests not yet handed
    /// out, and the write cursor sits inside the first queued blob.
    pub closed spec fn wf(&self) -> bool {
        let p = parse_request_stream(self.history@);
        &&& 0 <= self.recv_base@ <= self.stream.recv_log().len()
        &&& self.history@ == self.stream.recv_log().skip(self.recv_base@)
        &&& p.err is None
        &&& self.read_buf@ == self.history@.skip(p.consumed)
        &&& self.read_buf@.len() <= MAX_READ_BUF
        &&& 0 <= self.popped@ <= p.reqs.len()
        &&& self.parsed@.len() == p.reqs.len() - self.popped@
        &&& (forall|i: int|
            0 <= i < self.parsed@.len() ==> (#[trigger] self.parsed@[i])@ == p.reqs[self.popped@
                + i])
        &&& self.cont_sent == expect_pending(self.read_buf@)
        &&& self.out_wf()
    }

    /// Well-formedness of the outgoing queue alone.
    pub closed spec fn out_wf(&self) -> bool {
        &&& (self.out_queue@.len() == 0 ==> self.out_cursor == 0)
        &&& (self.out_queue@.len() > 0 ==> (self.out_cursor as int) < self.blobs()[0].len())
        &&& (forall|i: int| 0 <= i < self.blobs().len() ==> (#[trigger] self.blobs()[i]).len() > 0)
    }

    /// Facts that well-formedness gives every caller: the parse of the
    /// history is clean and the hand-out position sits within it.
    pub proof fn lemma_wf_facts(&self)
        requires
            self.wf(),
        ensures
            0 <= self.popped() <= parse_request_stream(self.history()).reqs.len(),
            parse_request_stream(self.history()).err is None,
    {
    }

    /// A connection over a fresh stream: nothing read, parsed or queued.
    pub fn new(stream: T) -> (r: HttpConnection<T>)
        ensures
            r.wf(),
            r.history() == Seq::<u8>::empty(),
            r.popped() == 0,
            r.pending_bytes() == Seq::<u8>::empty(),
            r.recv_log() == stream.recv_log(),
            r.sent_log() == stream.sent_log(),
    {
        let ghost rb = stream.recv_log().len() as int;
        let r = HttpConnection {
            stream,
            read_buf: Vec::new(),
            parsed: Vec::new(),
            out_queue: Vec::new(),
            out_cursor: 0,
            cont_sent: false,
            history: Ghost(Seq::empty()),
            recv_base: Ghost(rb),
            popped: Ghost(0),
        };
        proof {
            assert(r.history@ =~= r.stream.recv_log().skip(rb));
            assert(parse_request_step(Seq::<u8>::empty()) is Incomplete);
            assert(!expect_pending(Seq::<u8>::empty()));
            assert(r.read_buf@ =~= r.history@.skip(0));
            assert(r.blobs().len() == 0);
        }
        r
    }

    /// Drops all parser state: the buffer, the queue and the history.
    fn reset_input(&mut self)
        requires
            old(self).out_wf(),
        ensures
            final(self).wf(),
            final(self).history() == Seq::<u8>::empty(),
            final(self).popped() == 0,
            final(self).pending_bytes() == old(self).pending_bytes(),
            final(self).recv_log() == old(self).recv_log(),
            final(self).sent_log() == old(self).sent_log(),
    {
        self.read_buf = Vec::new();
        self.parsed = Vec::new();
        self.cont_sent = false;
        self.history = Ghost(Seq::empty());
        self.popped = Ghost(0int);
        let ghost rb = self.stream.recv_log().len() as int;
        self.recv_base = Ghost(rb);
        proof {
            assert(self.history@ =~= self.stream.recv_log().skip(rb));
            assert(parse_request_step(Seq::<u8>::empty()) is Incomplete);
            assert(!expect_pending(Seq::<u8>::empty()));
            assert(self.read_buf@ =~= self.history@.skip(0));
        }
    }

    /// Appends one serialized response to the outgoing queue.
    fn push_blob(&mut self, blob: Vec<u8>)
        requires
            old(self).wf(),
            blob@.len() > 0,
        ensures
            final(self).wf(),
            final(self).pending_bytes() == old(self).pending_bytes() + blob@,
            final(self).history() == old(self).history(),
            final(self).popped() == old(self).popped(),
            final(self).recv_base() == old(self).recv_base(),
            final(self).recv_log() == old(self).recv_log(),
            final(self).sent_log() == old(self).sent_log(),
    {
        let ghost b = blob@;
        let ghost q0 = self.blobs();
        let ghost c0 = self.out_cursor as int;
        self.out_queue.push(blob);
        proof {
            assert(self.blobs() =~= q0.push(b));
            if q0.len() == 0 {
                assert(self.blobs()[0] == b);
                assert(self.blobs().drop_first() =~= Seq::<Seq<u8>>::empty());
                assert(concat_blobs(self.blobs().drop_first()) =~= Seq::<u8>::empty());
                assert(self.pending_bytes() =~= b.skip(0) + Seq::<u8>::empty());
                assert(self.pending_bytes() =~= Seq::<u8>::empty() + b);
            } else {
                assert(self.blobs()[0] == q0[0]);
                assert(self.blobs().drop_first() =~= q0.drop_first().push(b));
                lemma_concat_blobs_push(q0.drop_first(), b);
                assert(self.pending_bytes() =~= (q0[0].skip(c0) + concat_blobs(q0.drop_first()))
                    + b);
            }
        }
    }

    /// Whether the connection still owes the stream bytes.
    pub fn pending_write(&self) -> (r: bool)
        requires
            self.wf(),
        ensures
            r == (self.pending_bytes().len() > 0),
    {
        let r = self.out_queue.len() > 0;
        proof {
            if self.out_queue@.len() > 0 {
                assert(self.pending_bytes().len() >= self.blobs()[0].skip(
                    self.out_cursor as int,
                ).len());
            }
        }
        r
    }

    /// Serializes `response` and appends it to the outgoing queue.
    pub fn enqueue_response(&mut self, response: Response)
        requires
            old(self).wf(),
        ensures
            final(self).wf(),
            final(self).pending_bytes() == old(self).pending_bytes() + response_bytes(
                normalize_content_length(response@),
            ),
            final(self).history() == old(self).history(),
            final(self).popped() == old(self).popped(),
            final(self).recv_base() == old(self).recv_base(),
            final(self).recv_log() == old(self).recv_log(),
            final(self).sent_log() == old(self).sent_log(),
            final(self).cont_sent() == old(self).cont_sent(),
    {
        let mut resp = response;
        let mut blob: Vec<u8> = Vec::new();
        resp.send(&mut blob);
        proof {
            lemma_response_bytes_len(normalize_content_length(response@));
            assert(blob@ =~= response_bytes(normalize_content_length(response@)));
        }
        self.push_blob(blob);
    }

    /// Hands out the next parsed request, if one is queued.
    pub fn pop_parsed_request(&mut self) -> (r: Option<Request>)
        requires
            old(self).wf(),
        ensures
            final(self).wf(),
            final(self).pending_bytes() == old(self).pending_bytes(),
            final(self).history() == old(self).history(),
            final(self).recv_base() == old(self).recv_base(),
            final(self).recv_log() == old(self).recv_log(),
            final(self).sent_log() == old(self).sent_log(),
            final(self).cont_sent() == old(self).cont_sent(),
            ({
                let p = parse_request_stream(old(self).history());
                match r {
                    Some(req) => {
                        &&& old(self).popped() < p.reqs.len()
                        &&& req@ == p.reqs[old(self).popped()]
                        &&& final(self).popped() == old(self).popped() + 1
                    },
                    None => {
                        &&& old(self).popped() == p.reqs.len()
                        &&& final(self).popped() == old(self).popped()
                    },
                }
            }),
    {
        if self.parsed.len() == 0 {
            None
        } else {
            let req = self.parsed.remove(0);
            self.popped = Ghost(self.popped@ + 1);
            proof {
                assert(forall|i: int|
                    0 <= i < self.parsed@.len() ==> (#[trigger] self.parsed@[i])@
                        == parse_request_stream(self.history@).reqs[self.popped@ + i]);
            }
            Some(req)
        }
    }


    /// Reads once from the stream and parses as many complete requests as
    /// the bytes at hand now form, queueing each of them and, behind each
    /// request that announces `Expect: 100-continue`, a synthesized
    /// `100 Continue` response.
    ///
    /// # Errors
    /// `ConnectionClosed` when the peer has ended the stream with nothing
    /// buffered; `StreamError` when the read fails; `ParseError` when the
    /// buffered bytes can never form a request, outgrow the buffer, or are
    /// cut short by the end of the stream. On `ParseError` the connection
    /// discards its buffer and its request queue and starts afresh, but
    /// keeps the responses it still owes.
    #[verifier::rlimit(80)]
    pub fn try_read(&mut self) -> (r: Result<(), ConnectionError>)
        requires
            old(self).wf(),
        ensures
            final(self).wf(),
            final(self).sent_log() == old(self).sent_log(),
            match r {
                Ok(()) => ({
                    let p0 = parse_request_stream(old(self).history());
                    let p1 = parse_request_stream(final(self).history());
                    &&& final(self).recv_base() == old(self).recv_base()
                    &&& final(self).popped() == old(self).popped()
                    &&& p0.reqs.len() <= p1.reqs.len()
                    &&& p1.reqs.take(p0.reqs.len() as int) == p0.reqs
                    &&& final(self).pending_bytes() == old(self).pending_bytes()
                        + continues_queued(
                        p1.reqs.skip(p0.reqs.len() as int),
                        old(self).cont_sent(),
                        final(self).cont_sent(),
                    )
                }),
                Err(ConnectionError::ConnectionClosed) => ({
                    &&& final(self).history() == old(self).history()
                    &&& final(self).recv_base() == old(self).recv_base()
                    &&& final(self).popped() == old(self).popped()
                    &&& final(self).pending_bytes() == old(self).pending_bytes()
                }),
                Err(ConnectionError::StreamError(m)) => ({
                    &&& final(self).history() == old(self).history()
                    &&& final(self).recv_base() == old(self).recv_base()
                    &&& final(self).popped() == old(self).popped()
                    &&& final(self).pending_bytes() == old(self).pending_bytes()
                }),
                Err(ConnectionError::ParseError(e)) => ({
                    &&& final(self).history() == Seq::<u8>::empty()
                    &&& final(self).popped() == 0
                    &&& final(self).pending_bytes() == old(self).pending_bytes()
                }),
                Err(ConnectionError::InvalidWrite) => false,
            },
    {
        let ghost h0 = self.history@;
        let ghost pend0 = self.pending_bytes();
        let outcome = self.stream.read_chunk();
        match outcome {
            ReadOutcome::Failed(m) => Err(ConnectionError::StreamError(m)),
            ReadOutcome::WouldBlock => {
                proof {
                    let p0 = parse_request_stream(h0);
                    assert(p0.reqs.take(p0.reqs.len() as int) =~= p0.reqs);
                    assert(p0.reqs.skip(p0.reqs.len() as int) =~= Seq::<RequestV>::empty());
                    assert(continues_for(Seq::<RequestV>::empty()) == Seq::<u8>::empty());
                    assert(continues_queued(
                        Seq::<RequestV>::empty(),
                        self.cont_sent,
                        self.cont_sent,
                    ) =~= Seq::<u8>::empty());
                    assert(pend0 + Seq::<u8>::empty() =~= pend0);
                }
                Ok(())
            },
            ReadOutcome::Closed => {
                if self.read_buf.len() == 0 {
                    Err(ConnectionError::ConnectionClosed)
                } else {
                    self.reset_input();
                    Err(
                        ConnectionError::ParseError(
                            MessageError::InvalidRequest(RequestError::InvalidRequest),
                        ),
                    )
                }
            },
            ReadOutcome::Data(chunk) => {
                let mut chunk = chunk;
                let ghost c = chunk@;
                if chunk.len() > MAX_READ_BUF || self.read_buf.len() + chunk.len()
                    > MAX_READ_BUF {
                    self.reset_input();
                    return Err(
                        ConnectionError::ParseError(
                            MessageError::InvalidRequest(RequestError::InvalidRequest),
                        ),
                    );
                }
                self.read_buf.append(&mut chunk);
                self.history = Ghost(self.history@ + c);
                let ghost h1 = self.history@;
                let ghost pH = parse_request_stream(h1);
                let ghost pp1 = self.popped@;
                let parsed_start = self.parsed.len();
                proof {
                    let p0 = parse_request_stream(h0);
                    lemma_stream_consumed_bounds(h0);
                    lemma_parse_stream_extend(h0, c);
                    assert(self.read_buf@ =~= h0.skip(p0.consumed) + c);
                    assert(pH == (StreamParse {
                        reqs: p0.reqs + parse_request_stream(self.read_buf@).reqs,
                        consumed: p0.consumed + parse_request_stream(self.read_buf@).consumed,
                        err: parse_request_stream(self.read_buf@).err,
                    }));
                    assert(pp1 + parsed_start == p0.reqs.len());
                    assert(parse_request_stream(self.read_buf@).reqs =~= pH.reqs.skip(
                        pp1 + parsed_start,
                    ));
                    assert(h1.len() - self.read_buf@.len() + parse_request_stream(
                        self.read_buf@,
                    ).consumed == pH.consumed);
                    assert(h1.skip(h1.len() - self.read_buf@.len()) =~= h0.skip(p0.consumed)
                        + c);
                    assert(forall|i: int|
                        0 <= i < parsed_start ==> (#[trigger] self.parsed@[i])@ == pH.reqs[pp1
                            + i]);
                }
                let had_continue = self.cont_sent;
                let mut tail_expect = false;
                let mut done = false;
                while !done
                    invariant
                        had_continue == old(self).cont_sent(),
                        done ==> tail_expect == expect_pending(self.read_buf@),
                        old(self).wf(),
                        h0 == old(self).history@,
                        pend0 == old(self).pending_bytes(),
                        h1 == h0 + c,
                        pH == parse_request_stream(h1),
                        pp1 == old(self).popped@,
                        parsed_start == old(self).parsed@.len(),
                        self.history@ == h1,
                        self.popped@ == pp1,
                        self.recv_base@ == old(self).recv_base@,
                        self.stream.recv_log() == old(self).stream.recv_log() + c,
                        self.stream.sent_log() == old(self).stream.sent_log(),
                        0 <= self.recv_base@ <= self.stream.recv_log().len(),
                        h1 == self.stream.recv_log().skip(self.recv_base@),
                        self.out_queue@ == old(self).out_queue@,
                        self.out_cursor == old(self).out_cursor,
                        self.out_wf(),
                        self.parsed@.len() >= parsed_start,
                        pp1 + self.parsed@.len() <= pH.reqs.len(),
                        forall|i: int|
                            0 <= i < self.parsed@.len() ==> (#[trigger] self.parsed@[i])@
                                == pH.reqs[pp1 + i],
                        parse_request_stream(self.read_buf@).reqs =~= pH.reqs.skip(
                            pp1 + self.parsed@.len(),
                        ),
                        parse_request_stream(self.read_buf@).err == pH.err,
                        h1.len() - self.read_buf@.len() + parse_request_stream(
                            self.read_buf@,
                        ).consumed == pH.consumed,
                        self.read_buf@ =~= h1.skip(h1.len() - self.read_buf@.len()),
                        self.read_buf@.len() <= MAX_READ_BUF,
                        self.read_buf@.len() <= h1.len(),
                        done ==> parse_request_step(self.read_buf@) is Incomplete,
                    decreases self.read_buf@.len() + (if done { 0int } else { 1int }),
                {
                    match try_parse_request_front(self.read_buf.as_slice()) {
                        ReqFront::Partial(e) => {
                            tail_expect = e;
                            done = true;
                        },
                        ReqFront::Fail(e) => {
                            self.reset_input();
                            return Err(ConnectionError::ParseError(e));
                        },
                        ReqFront::Done(req, n) => {
                            let ghost prev = self.read_buf@;
                            proof {
                                lemma_step_bounds(prev);
                            }
                            self.parsed.push(req);
                            let tail = self.read_buf.split_off(n);
                            self.read_buf = tail;
                            proof {
                                assert(self.read_buf@ =~= prev.skip(n as int));
                                assert(parse_request_stream(prev) == (StreamParse {
                                    reqs: seq![req@] + parse_request_stream(
                                        self.read_buf@,
                                    ).reqs,
                                    consumed: n + parse_request_stream(
                                        self.read_buf@,
                                    ).consumed,
                                    err: parse_request_stream(self.read_buf@).err,
                                }));
                                assert(pH.reqs.skip(pp1 + self.parsed@.len() - 1)[0] == req@);
                                assert(parse_request_stream(prev).reqs.len() >= 1);
                                assert(pH.reqs.skip(pp1 + self.parsed@.len() - 1).len()
                                    == parse_request_stream(prev).reqs.len());
                                assert(pH.reqs.skip(pp1 + self.parsed@.len() - 1).len()
                                    == pH.reqs.len() - (pp1 + self.parsed@.len() - 1));
                                assert(pp1 + self.parsed@.len() - 1 < pH.reqs.len());
                                assert(pH.reqs.skip(pp1 + self.parsed@.len() - 1)[0]
                                    == pH.reqs[pp1 + self.parsed@.len() - 1]);
                                assert(req@ == pH.reqs[pp1 + self.parsed@.len() - 1]);
                                assert(parse_request_stream(self.read_buf@).reqs
                                    =~= parse_request_stream(prev).reqs.skip(1));
                                assert(pH.reqs.skip(pp1 + self.parsed@.len() - 1).skip(1)
                                    =~= pH.reqs.skip(pp1 + self.parsed@.len()));
                                assert(h1.skip(h1.len() - self.read_buf@.len()) =~= h1.skip(
                                    h1.len() - prev.len(),
                                ).skip(n as int));
                            }
                        },
                    }
                }
                self.cont_sent = tail_expect;
                proof {
                    assert(parse_request_stream(self.read_buf@).consumed == 0);
                    assert(pp1 + self.parsed@.len() == pH.reqs.len());
                    assert(self.read_buf@ == self.history@.skip(pH.consumed));
                    assert(self.wf());
                }
                let ghost nb = pp1 + parsed_start;
                let ghost newreqs = pH.reqs.skip(nb);
                let ghost adjusted = if had_continue && newreqs.len() > 0 {
                    newreqs.drop_first()
                } else {
                    newreqs
                };
                let total = self.parsed.len();
                let mut j = parsed_start;
                let skip_first = had_continue && total > parsed_start;
                let ghost mut done_cnt: int = 0;
                proof {
                    assert(adjusted.take(0) =~= Seq::<RequestV>::empty());
                    assert(continues_for(Seq::<RequestV>::empty()) == Seq::<u8>::empty());
                    assert(pend0 + Seq::<u8>::empty() =~= pend0);
                    if skip_first {
                        assert(adjusted =~= newreqs.drop_first());
                    }
                }
                while j < total
                    invariant
                        old(self).wf(),
                        h0 == old(self).history@,
                        pend0 == old(self).pending_bytes(),
                        h1 == h0 + c,
                        pH == parse_request_stream(h1),
                        pp1 == old(self).popped@,
                        parsed_start == old(self).parsed@.len(),
                        nb == pp1 + parsed_start,
                        newreqs == pH.reqs.skip(nb),
                        skip_first == (had_continue && total > parsed_start),
                        adjusted == (if had_continue && newreqs.len() > 0 {
                            newreqs.drop_first()
                        } else {
                            newreqs
                        }),
                        parsed_start <= j <= total == self.parsed@.len(),
                        pp1 + self.parsed@.len() == pH.reqs.len(),
                        self.wf(),
                        self.history@ == h1,
                        self.popped@ == pp1,
                        self.cont_sent == tail_expect,
                        self.recv_base@ == old(self).recv_base@,
                        self.stream.recv_log() == old(self).stream.recv_log() + c,
                        self.stream.sent_log() == old(self).stream.sent_log(),
                        forall|i: int|
                            0 <= i < self.parsed@.len() ==> (#[trigger] self.parsed@[i])@
                                == pH.reqs[pp1 + i],
                        0 <= done_cnt <= adjusted.len(),
                        done_cnt == (if skip_first && j > parsed_start {
                            j - parsed_start - 1
                        } else if skip_first {
                            0int
                        } else {
                            j - parsed_start
                        }),
                        self.pending_bytes() == pend0 + continues_for(adjusted.take(done_cnt)),
                    decreases total - j,
                {
                    let ghost adj_done = done_cnt;
                    let ghost taken = adjusted.take(adj_done);
                    let has_expect = self.parsed[j].headers.expect_continue();
                    proof {
                        assert(self.parsed@[j as int]@ == newreqs[j - parsed_start]);
                    }
                    if j == parsed_start && skip_first {
                        // The continue for this request went out while its
                        // body was still awaited; nothing more is owed.
                        j = j + 1;
                        continue ;
                    }
                    proof {
                        assert(adj_done < adjusted.len());
                        if skip_first {
                            assert(adjusted[adj_done] == newreqs[j - parsed_start]);
                        } else {
                            assert(adjusted[adj_done] == newreqs[j - parsed_start]);
                        }
                    }
                    if has_expect {
                        let mut cont = Response::new(Version::Http11, StatusCode::Continue);
                        let mut blob: Vec<u8> = Vec::new();
                        cont.send(&mut blob);
                        proof {
                            assert(normalize_content_length(continue_response())
                                == continue_response());
                            lemma_response_bytes_len(continue_response());
                            assert(blob@ == response_bytes(continue_response()));
                        }
                        self.push_blob(blob);
                    }
                    proof {
                        assert(adjusted.take(adj_done + 1) =~= taken.push(adjusted[adj_done]));
                        lemma_continues_push(taken, adjusted[adj_done]);
                        if has_expect {
                            assert(self.pending_bytes() =~= pend0 + continues_for(
                                adjusted.take(adj_done + 1),
                            ));
                        } else {
                            assert(continue_contribution(adjusted[adj_done]) =~= Seq::<
                                u8,
                            >::empty());
                            assert(continues_for(taken) + Seq::<u8>::empty() =~= continues_for(
                                taken,
                            ));
                            assert(self.pending_bytes() =~= pend0 + continues_for(
                                adjusted.take(adj_done + 1),
                            ));
                        }
                    }
                    proof {
                        done_cnt = done_cnt + 1;
                    }
                    j = j + 1;
                }
                proof {
                    assert(done_cnt == adjusted.len());
                }
                let queue_tail_continue = tail_expect && !(had_continue && total == parsed_start);
                if queue_tail_continue {
                    let mut cont = Response::new(Version::Http11, StatusCode::Continue);
                    let mut blob: Vec<u8> = Vec::new();
                    cont.send(&mut blob);
                    proof {
                        assert(normalize_content_length(continue_response())
                            == continue_response());
                        lemma_response_bytes_len(continue_response());
                        assert(blob@ == response_bytes(continue_response()));
                    }
                    self.push_blob(blob);
                }
                proof {
                    let p0 = parse_request_stream(h0);
                    assert(adjusted.take(adjusted.len() as int) =~= adjusted);
                    assert(pH.reqs.take(p0.reqs.len() as int) =~= p0.reqs);
                    if queue_tail_continue {
                        assert(self.pending_bytes() =~= pend0 + (continues_for(adjusted)
                            + response_bytes(continue_response())));
                        assert(self.pending_bytes() =~= pend0 + continues_queued(
                            newreqs,
                            had_continue,
                            tail_expect,
                        ));
                    } else {
                        assert(continues_for(adjusted) + Seq::<u8>::empty() =~= continues_for(
                            adjusted,
                        ));
                        assert(self.pending_bytes() =~= pend0 + continues_queued(
                            newreqs,
                            had_continue,
                            tail_expect,
                        ));
                    }
                }
                Ok(())
            },
        }
    }

    /// Writes as many pending bytes as the stream will take, in order,
    /// advancing through the queued responses.
    ///
    /// # Errors
    /// `InvalidWrite` exactly when nothing was pending; `ConnectionClosed`
    /// or `StreamError` when the stream gave up mid-drain, with the bytes
    /// written so far still recorded in the stream.
    pub fn try_write(&mut self) -> (r: Result<(), ConnectionError>)
        requires
            old(self).wf(),
        ensures
            final(self).wf(),
            final(self).history() == old(self).history(),
            final(self).popped() == old(self).popped(),
            final(self).recv_base() == old(self).recv_base(),
            final(self).recv_log() == old(self).recv_log(),
            final(self).cont_sent() == old(self).cont_sent(),
            exists|k: int|
                {
                    &&& 0 <= k <= old(self).pending_bytes().len()
                    &&& final(self).pending_bytes() == old(self).pending_bytes().skip(k)
                    &&& final(self).sent_log() == old(self).sent_log() + old(
                        self,
                    ).pending_bytes().take(k)
                },
            (r matches Err(ConnectionError::InvalidWrite)) <==> old(self).pending_bytes().len()
                == 0,
            !(r matches Err(ConnectionError::ParseError(..))),
    {
        let ghost pend0 = self.pending_bytes();
        let ghost h0 = self.history@;
        let ghost rb0 = self.recv_base@;
        let ghost pp0 = self.popped@;
        let ghost rl0 = self.stream.recv_log();
        let ghost sl0 = self.stream.sent_log();
        let ghost buf0 = self.read_buf@;
        let ghost pq0 = self.parsed@;
        if self.out_queue.len() == 0 {
            proof {
                assert(pend0.skip(0) =~= pend0);
                assert(sl0 + pend0.take(0) =~= sl0);
                assert({
                    &&& 0 <= 0 <= pend0.len()
                    &&& self.pending_bytes() == pend0.skip(0)
                    &&& self.stream.sent_log() == sl0 + pend0.take(0)
                });
            }
            return Err(ConnectionError::InvalidWrite);
        }
        proof {
            assert(pend0.len() >= self.blobs()[0].skip(self.out_cursor as int).len());
        }
        let ghost mut k: int = 0;
        loop
            invariant
                self.wf(),
                h0 == old(self).history@,
                rb0 == old(self).recv_base@,
                pp0 == old(self).popped@,
                rl0 == old(self).stream.recv_log(),
                sl0 == old(self).stream.sent_log(),
                pend0 == old(self).pending_bytes(),
                pend0.len() > 0,
                self.cont_sent == old(self).cont_sent,
                self.history@ == h0,
                self.recv_base@ == rb0,
                self.popped@ == pp0,
                self.stream.recv_log() == rl0,
                self.read_buf@ == buf0,
                self.parsed@ == pq0,
                0 <= k <= pend0.len(),
                self.pending_bytes() == pend0.skip(k),
                self.stream.sent_log() == sl0 + pend0.take(k),
            decreases pend0.len() - k,
        {
            if self.out_queue.len() == 0 {
                proof {
                    assert({
                        &&& 0 <= k <= pend0.len()
                        &&& self.pending_bytes() == pend0.skip(k)
                        &&& self.stream.sent_log() == sl0 + pend0.take(k)
                    });
                }
                return Ok(());
            }
            let head_len = self.out_queue[0].len();
            let cursor = self.out_cursor;
            assert(cursor < head_len);
            let ghost q = self.blobs();
            let ghost c = cursor as int;
            let chunk_view = Ghost(q[0].skip(c));
            let outcome = {
                let head_slice = vstd::slice::slice_subrange(
                    self.out_queue[0].as_slice(),
                    cursor,
                    head_len,
                );
                self.stream.write_chunk(head_slice)
            };
            match outcome {
                WriteOutcome::Wrote(n) => {
                    proof {
                        assert(q[0].skip(c).take(n as int) =~= pend0.skip(k).take(n as int));
                    }
                    if n < head_len - cursor {
                        self.out_cursor = cursor + n;
                        proof {
                            assert(q[0].skip(c + n) =~= q[0].skip(c).skip(n as int));
                            assert(self.pending_bytes() =~= pend0.skip(k).skip(n as int));
                            assert(self.pending_bytes() =~= pend0.skip(k + n));
                            assert(pend0.take(k) + pend0.skip(k).take(n as int) =~= pend0.take(
                                k + n,
                            ));
                            k = k + n;
                        }
                    } else {
                        self.out_queue.remove(0);
                        self.out_cursor = 0;
                        proof {
                            assert(self.blobs() =~= q.drop_first());
                            assert(q[0].skip(c).len() == n);
                            if self.out_queue@.len() == 0 {
                                assert(concat_blobs(self.blobs()) =~= Seq::<u8>::empty());
                                assert(self.pending_bytes() =~= Seq::<u8>::empty());
                            } else {
                                assert(self.pending_bytes() =~= self.blobs()[0].skip(0)
                                    + concat_blobs(self.blobs().drop_first()));
                                assert(self.pending_bytes() =~= concat_blobs(q.drop_first()));
                            }
                            assert(pend0.skip(k) =~= q[0].skip(c) + concat_blobs(q.drop_first()));
                            assert(self.pending_bytes() =~= pend0.skip(k).skip(n as int));
                            assert(self.pending_bytes() =~= pend0.skip(k + n));
                            assert(pend0.take(k) + pend0.skip(k).take(n as int) =~= pend0.take(
                                k + n,
                            ));
                            k = k + n;
                        }
                    }
                },
                WriteOutcome::WouldBlock => {
                    proof {
                        assert({
                            &&& 0 <= k <= pend0.len()
                            &&& self.pending_bytes() == pend0.skip(k)
                            &&& self.stream.sent_log() == sl0 + pend0.take(k)
                        });
                    }
                    return Ok(());
                },
                WriteOutcome::Closed => {
                    proof {
                        assert({
                            &&& 0 <= k <= pend0.len()
                            &&& self.pending_bytes() == pend0.skip(k)
                            &&& self.stream.sent_log() == sl0 + pend0.take(k)
                        });
                    }
                    return Err(ConnectionError::ConnectionClosed);
                },
                WriteOutcome::Failed(m) => {
                    proof {
                        assert({
                            &&& 0 <= k <= pend0.len()
                            &&& self.pending_bytes() == pend0.skip(k)
                            &&& self.stream.sent_log() == sl0 + pend0.take(k)
                        });
                    }
                    return Err(ConnectionError::StreamError(m));
                },
            }
        }
    }
}

/// The bytes a queue of serialized responses holds, in order.
pub open spec fn concat_blobs(q: Seq<Seq<u8>>) -> Seq<u8>
    decreases q.len(),
{
    if q.len() == 0 {
        Seq::empty()
    } else {
        q[0] + concat_blobs(q.drop_first())
    }
}

/// Appending a blob appends its bytes.
pub proof fn lemma_concat_blobs_push(q: Seq<Seq<u8>>, x: Seq<u8>)
    ensures
        concat_blobs(q.push(x)) == concat_blobs(q) + x,
    decreases q.len(),
{
    if q.len() == 0 {
        assert(q.push(x)[0] == x);
        assert(q.push(x).drop_first() =~= Seq::<Seq<u8>>::empty());
        assert(concat_blobs(q.push(x).drop_first()) =~= Seq::<u8>::empty());
        assert(concat_blobs(q.push(x)) =~= x + Seq::<u8>::empty());
        assert(concat_blobs(q) =~= Seq::<u8>::empty());
        assert(x + Seq::<u8>::empty() =~= x);
        assert(concat_blobs(q) + x =~= x);
    } else {
        assert(q.push(x).drop_first() =~= q.drop_first().push(x));
        lemma_concat_blobs_push(q.drop_first(), x);
        assert(concat_blobs(q.push(x)) == q[0] + (concat_blobs(q.drop_first()) + x));
        assert(q[0] + (concat_blobs(q.drop_first()) + x) =~= (q[0] + concat_blobs(
            q.drop_first(),
        )) + x);
    }
}

} // verus!
