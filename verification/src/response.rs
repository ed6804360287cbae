//! The HTTP response model: status codes, the status line and complete
//! responses, with the serializer and the client-side parser.

use vstd::prelude::*;

use crate::ascii::{
    bytes_eq, crlf, crlfcrlf, dec_bytes, find, find_first, lemma_find_first, lemma_find_first_is,
    occurs_at, string_bytes, utf8_to_string, CR, LF, SP,
};
use crate::common::{
    Body, MessageError, ResponseError, parse_version, version_bytes, Version,
};
use crate::ascii::{all_ascii, lemma_ascii_valid_utf8};
use crate::headers::{
    colon_sp, entries_bytes, entry_line, entry_wf, find_key, header_name_bytes,
    headers_block_bytes, headers_default, lemma_entry_line_bytes, lemma_find_key,
    lemma_parse_cl_line, lemma_parse_entry_block, lemma_parse_headers_crlf_ext,
    parse_header_block, parse_headers_from, upsert, Header, Headers, HeadersV,
};
use crate::request::{lemma_terminator_gap, split_request_line};
use crate::transport::{ByteStream, ReadOutcome};

verus! {

/// Wrapper over a response status code.
#[derive(Clone, Copy, Debug, PartialEq, Eq, Structural)]
pub enum StatusCode {
    /// 100, Continue
    Continue,
    /// 200, OK
    OK,
    /// 204, No Content
    NoContent,
    /// 400, Bad Request
    BadRequest,
    /// 404, Not Found
    NotFound,
    /// 500, Internal Server Error
    InternalServerError,
    /// 501, Not Implemented
    NotImplemented,
}

/// The three-digit wire representation of a status code.
pub open spec fn status_bytes(s: StatusCode) -> Seq<u8> {
    match s {
        StatusCode::Continue => seq![49u8, 48u8, 48u8],
        StatusCode::OK => seq![50u8, 48u8, 48u8],
        StatusCode::NoContent => seq![50u8, 48u8, 52u8],
        StatusCode::BadRequest => seq![52u8, 48u8, 48u8],
        StatusCode::NotFound => seq![52u8, 48u8, 52u8],
        StatusCode::InternalServerError => seq![53u8, 48u8, 48u8],
        StatusCode::NotImplemented => seq![53u8, 48u8, 49u8],
    }
}

/// The status code whose wire representation `b` is, if any.
pub open spec fn parse_status(b: Seq<u8>) -> Option<StatusCode> {
    if b == status_bytes(StatusCode::Continue) {
        Some(StatusCode::Continue)
    } else if b == status_bytes(StatusCode::OK) {
        Some(StatusCode::OK)
    } else if b == status_bytes(StatusCode::NoContent) {
        Some(StatusCode::NoContent)
    } else if b == status_bytes(StatusCode::BadRequest) {
        Some(StatusCode::BadRequest)
    } else if b == status_bytes(StatusCode::NotFound) {
        Some(StatusCode::NotFound)
    } else if b == status_bytes(StatusCode::InternalServerError) {
        Some(StatusCode::InternalServerError)
    } else if b == status_bytes(StatusCode::NotImplemented) {
        Some(StatusCode::NotImplemented)
    } else {
        None
    }
}

impl StatusCode {
    /// The three wire bytes of the status code.
    pub fn raw(self) -> (r: Vec<u8>)
        ensures
            r@ == status_bytes(self),
    {
        let mut v: Vec<u8> = Vec::new();
        match self {
            StatusCode::Continue => {
                v.push(49);
                v.push(48);
                v.push(48);
            },
            StatusCode::OK => {
                v.push(50);
                v.push(48);
                v.push(48);
            },
            StatusCode::NoContent => {
                v.push(50);
                v.push(48);
                v.push(52);
            },
            StatusCode::BadRequest => {
                v.push(52);
                v.push(48);
                v.push(48);
            },
            StatusCode::NotFound => {
                v.push(52);
                v.push(48);
                v.push(52);
            },
            StatusCode::InternalServerError => {
                v.push(53);
                v.push(48);
                v.push(48);
            },
            StatusCode::NotImplemented => {
                v.push(53);
                v.push(48);
                v.push(49);
            },
        }
        assert(v@ =~= status_bytes(self));
        v
    }

    /// Parses the three wire bytes of a status code.
    ///
    /// # Errors
    /// `InvalidStatusCode` is returned when the code is unsupported.
    pub fn try_from(bytes: &[u8]) -> (r: Result<StatusCode, MessageError>)
        ensures
            match r {
                Ok(s) => parse_status(bytes@) == Some(s),
                Err(e) => parse_status(bytes@) is None && e == MessageError::InvalidResponse(
                    ResponseError::InvalidStatusCode,
                ),
            },
    {
        if bytes_eq(bytes, StatusCode::Continue.raw().as_slice()) {
            Ok(StatusCode::Continue)
        } else if bytes_eq(bytes, StatusCode::OK.raw().as_slice()) {
            Ok(StatusCode::OK)
        } else if bytes_eq(bytes, StatusCode::NoContent.raw().as_slice()) {
            Ok(StatusCode::NoContent)
        } else if bytes_eq(bytes, StatusCode::BadRequest.raw().as_slice()) {
            Ok(StatusCode::BadRequest)
        } else if bytes_eq(bytes, StatusCode::NotFound.raw().as_slice()) {
            Ok(StatusCode::NotFound)
        } else if bytes_eq(bytes, StatusCode::InternalServerError.raw().as_slice()) {
            Ok(StatusCode::InternalServerError)
        } else if bytes_eq(bytes, StatusCode::NotImplemented.raw().as_slice()) {
            Ok(StatusCode::NotImplemented)
        } else {
            Err(MessageError::InvalidResponse(ResponseError::InvalidStatusCode))
        }
    }
}

/// The mathematical content of a status line.
pub struct StatusLineV {
    /// The protocol version.
    pub version: Version,
    /// The status code.
    pub status: StatusCode,
    /// The optional reason phrase, as its bytes.
    pub message: Option<Seq<u8>>,
}

/// The serialized form of a status line.
pub open spec fn status_line_bytes(sl: StatusLineV) -> Seq<u8> {
    version_bytes(sl.version) + seq![SP] + status_bytes(sl.status) + (match sl.message {
        Some(m) => seq![SP] + m,
        None => Seq::<u8>::empty(),
    }) + crlf()
}

/// A status line parsed from its bytes: the version, the status code and
/// an optional ASCII reason phrase, split on the first two spaces.
pub open spec fn parse_status_line_spec(line: Seq<u8>) -> Result<StatusLineV, MessageError> {
    let (v, c, m) = split_request_line(line);
    if m.len() > 0 && !vstd::utf8::valid_utf8(m) {
        Err(MessageError::InvalidResponse(ResponseError::InvalidResponse))
    } else if parse_version(v) is None {
        Err(MessageError::InvalidResponse(ResponseError::InvalidResponse))
    } else if parse_status(c) is None {
        Err(MessageError::InvalidResponse(ResponseError::InvalidStatusCode))
    } else {
        Ok(
            StatusLineV {
                version: parse_version(v)->Some_0,
                status: parse_status(c)->Some_0,
                message: if m.len() == 0 {
                    None
                } else {
                    Some(m)
                },
            },
        )
    }
}

/// Wrapper over an HTTP status line.
#[derive(Debug, PartialEq)]
pub struct StatusLine {
    http_version: Version,
    status_code: StatusCode,
    status_message: Option<String>,
}

impl View for StatusLine {
    type V = StatusLineV;

    closed spec fn view(&self) -> StatusLineV {
        StatusLineV {
            version: self.http_version,
            status: self.status_code,
            message: match self.status_message {
                Some(ref m) => Some(string_bytes(m@)),
                None => None,
            },
        }
    }
}

impl StatusLine {
    /// A status line with no reason phrase.
    pub fn new(http_version: Version, status_code: StatusCode) -> (r: StatusLine)
        ensures
            r@ == (StatusLineV { version: http_version, status: status_code, message: None }),
    {
        StatusLine { http_version, status_code, status_message: None }
    }

    /// Serializes the status line onto the end of `buf`.
    pub fn write_all(&self, buf: &mut Vec<u8>)
        ensures
            final(buf)@ == old(buf)@ + status_line_bytes(self@),
    {
        let version = self.http_version.raw();
        buf.extend_from_slice(version.as_slice());
        buf.push(SP);
        let code = self.status_code.raw();
        buf.extend_from_slice(code.as_slice());
        match &self.status_message {
            Some(m) => {
                buf.push(SP);
                buf.extend_from_slice(m.as_str().as_bytes());
            },
            None => {},
        }
        buf.push(CR);
        buf.push(LF);
        assert(final(buf)@ =~= old(buf)@ + status_line_bytes(self@));
    }

    /// Splits a status line into its version, code and reason bytes.
    pub fn parse_status_line<'a>(status_line: &'a [u8]) -> (r: (&'a [u8], &'a [u8], &'a [u8]))
        ensures
            (r.0@, r.1@, r.2@) == split_request_line(status_line@),
    {
        crate::request::RequestLine::parse_request_line(status_line)
    }

    /// Tries to parse a byte stream into a status line.
    ///
    /// # Errors
    /// `InvalidResponse` is returned when the version or the reason phrase
    /// is malformed, `InvalidStatusCode` when the code is unsupported.
    pub fn try_from(status_line: &[u8]) -> (r: Result<StatusLine, MessageError>)
        ensures
            match r {
                Ok(sl) => parse_status_line_spec(status_line@) == Ok::<
                    StatusLineV,
                    MessageError,
                >(sl@),
                Err(e) => parse_status_line_spec(status_line@) == Err::<
                    StatusLineV,
                    MessageError,
                >(e),
            },
    {
        let (version, code, message) = Self::parse_status_line(status_line);
        let status_message = if message.len() == 0 {
            None
        } else {
            match utf8_to_string(message) {
                Some(text) => Some(text),
                None => {
                    return Err(MessageError::InvalidResponse(ResponseError::InvalidResponse));
                },
            }
        };
        let http_version = match Version::try_from(version) {
            Ok(v) => v,
            Err(_) => {
                return Err(MessageError::InvalidResponse(ResponseError::InvalidResponse));
            },
        };
        let status_code = match StatusCode::try_from(code) {
            Ok(c) => c,
            Err(e) => {
                return Err(e);
            },
        };
        Ok(StatusLine { http_version, status_code, status_message })
    }
}

/// The mathematical content of a response.
pub struct ResponseV {
    /// The status line.
    pub line: StatusLineV,
    /// The response's headers.
    pub headers: HeadersV,
    /// The response's body, if any.
    pub body: Option<Seq<u8>>,
}

/// The bytes of an optional body: empty when there is none.
pub open spec fn body_bytes_of(b: Option<Seq<u8>>) -> Seq<u8> {
    match b {
        Some(x) => x,
        None => Seq::empty(),
    }
}

/// The serialized form of a response: status line, header block, body.
pub open spec fn response_bytes(r: ResponseV) -> Seq<u8> {
    status_line_bytes(r.line) + headers_block_bytes(r.headers) + body_bytes_of(r.body)
}

/// `r` with its tracked `Content-Length` set to the body's length, as the
/// serializer enforces on the wire. A body too long for the 32-bit field
/// is announced as the largest value the field can hold.
pub open spec fn normalize_content_length(r: ResponseV) -> ResponseV {
    ResponseV {
        headers: HeadersV {
            content_length: if body_bytes_of(r.body).len() <= 0x7fff_ffff {
                body_bytes_of(r.body).len() as int
            } else {
                0x7fff_ffff
            },
            ..r.headers
        },
        ..r
    }
}

/// One attempt to parse a response from the front of a byte stream.
pub enum ResponseStep {
    /// The bytes do not yet hold a complete response.
    Incomplete,
    /// The bytes can never extend to a response.
    Fail(MessageError),
    /// A complete response occupying the first `int` bytes.
    Done(ResponseV, int),
}

/// Parses the front of `b` as a response: a status line ended by CRLF, a
/// header block ended by CRLF CRLF, and `Content-Length` body bytes.
pub open spec fn parse_response_step(b: Seq<u8>) -> ResponseStep {
    match find_first(b, crlf()) {
        None => ResponseStep::Incomplete,
        Some(le) => match find_first(b.skip(le), crlfcrlf()) {
            None => ResponseStep::Incomplete,
            Some(h) => match parse_status_line_spec(b.take(le)) {
                Err(e) => ResponseStep::Fail(e),
                Ok(sl) => {
                    let hs_res = if h == 0 {
                        Ok(headers_default())
                    } else {
                        parse_header_block(b.subrange(le + 2, le + h))
                    };
                    match hs_res {
                        Err(e) => ResponseStep::Fail(e),
                        Ok(hs) => {
                            if hs.content_length == 0 {
                                ResponseStep::Done(
                                    ResponseV { line: sl, headers: hs, body: None },
                                    le + h + 4,
                                )
                            } else if b.len() >= le + h + 4 + hs.content_length {
                                ResponseStep::Done(
                                    ResponseV {
                                        line: sl,
                                        headers: hs,
                                        body: Some(
                                            b.subrange(le + h + 4, le + h + 4 + hs.content_length),
                                        ),
                                    },
                                    le + h + 4 + hs.content_length,
                                )
                            } else {
                                ResponseStep::Incomplete
                            }
                        },
                    }
                },
            },
        },
    }
}

/// Wrapper over an HTTP response.
///
/// The response is created from a `Version` and a `StatusCode`; its body
/// starts out empty and can be set with `with_body`, which also updates
/// the tracked `Content-Length`.
#[derive(Debug, PartialEq)]
pub struct Response {
    status_line: StatusLine,
    headers: Headers,
    body: Option<Body>,
}

impl View for Response {
    type V = ResponseV;

    closed spec fn view(&self) -> ResponseV {
        ResponseV {
            line: self.status_line@,
            headers: self.headers@,
            body: match self.body {
                Some(ref b) => Some(b@),
                None => None,
            },
        }
    }
}

impl Response {
    /// Creates a new HTTP `Response` with an empty body and no headers.
    pub fn new(http_version: Version, status_code: StatusCode) -> (r: Response)
        ensures
            r@ == (ResponseV {
                line: StatusLineV { version: http_version, status: status_code, message: None },
                headers: headers_default(),
                body: None,
            }),
    {
        Response {
            status_line: StatusLine::new(http_version, status_code),
            headers: Headers::default(),
            body: None,
        }
    }

    /// Returns the status code of the response.
    pub fn status(&self) -> (r: StatusCode)
        ensures
            r == self@.line.status,
    {
        self.status_line.status_code
    }

    /// Returns the tracked `Content-Length` of the response.
    pub fn content_length(&self) -> (r: i32)
        ensures
            r == self@.headers.content_length,
    {
        self.headers.content_length()
    }

    /// Returns the HTTP version of the response.
    pub fn http_version(&self) -> (r: Version)
        ensures
            r == self@.line.version,
    {
        self.status_line.http_version
    }

    /// The stored value of the header named exactly `key`, if any.
    pub fn header_line(&self, key: &str) -> (r: Option<&String>)
        ensures
            match r {
                Some(v) => (crate::headers::find_key(self@.headers.entries, string_bytes(key@))
                    is Some) && string_bytes(v@) == self@.headers.entries[crate::headers::find_key(
                    self@.headers.entries,
                    string_bytes(key@),
                )->Some_0].1,
                None => crate::headers::find_key(self@.headers.entries, string_bytes(key@))
                    is None,
            },
    {
        self.headers.header_line(key)
    }

    /// Stores `value` under the header name `key`.
    pub fn with_header(&mut self, key: String, value: String)
        ensures
            final(self)@ == (ResponseV {
                headers: HeadersV {
                    entries: crate::headers::upsert(
                        old(self)@.headers.entries,
                        string_bytes(key@),
                        string_bytes(value@),
                    ),
                    ..old(self)@.headers
                },
                ..old(self)@
            }),
    {
        self.headers.add_header_line(key, value);
    }

    /// Sets the body of the response and tracks its length as the
    /// `Content-Length`.
    pub fn with_body(&mut self, bytes: &[u8])
        requires
            bytes@.len() <= 0x7fff_ffff,
        ensures
            final(self)@ == (ResponseV {
                headers: HeadersV {
                    content_length: bytes@.len() as int,
                    ..old(self)@.headers
                },
                body: Some(bytes@),
                ..old(self)@
            }),
    {
        self.headers.set_content_length(bytes.len() as i32);
        self.body = Some(Body::new(vstd::slice::slice_to_vec(bytes)));
    }

    /// Serializes the response onto the end of `buf`, after setting the
    /// tracked `Content-Length` to the body's length.
    pub fn send(&mut self, buf: &mut Vec<u8>)
        ensures
            final(self)@ == normalize_content_length(old(self)@),
            final(buf)@ == old(buf)@ + response_bytes(final(self)@),
    {
        let content_length: i32 = match &self.body {
            Some(b) => {
                let bl = b.len();
                if bl <= 0x7fff_ffff {
                    bl as i32
                } else {
                    0x7fff_ffff
                }
            },
            None => 0,
        };
        self.headers.set_content_length(content_length);
        self.status_line.write_all(buf);
        self.headers.write_all(buf);
        match &self.body {
            Some(b) => {
                buf.extend_from_slice(b.as_stream().as_slice());
            },
            None => {},
        }
        assert(final(buf)@ =~= old(buf)@ + response_bytes(final(self)@));
    }

    /// The message's body bytes, if it has a body.
    pub fn body(&self) -> (r: Option<&Vec<u8>>)
        ensures
            match r {
                Some(v) => self@.body == Some(v@),
                None => self@.body is None,
            },
    {
        match &self.body {
            Some(b) => Some(b.as_stream()),
            None => None,
        }
    }

    /// Reads bytes from `input` until they hold one complete response,
    /// and parses it. Bytes past the parsed response are discarded.
    ///
    /// # Errors
    /// Returns the parse error of a malformed response, `InvalidResponse`
    /// when the stream ends — or overflows the receive buffer — before a
    /// response is complete, and `IOError` when the stream fails or has
    /// no bytes to give.
    pub fn receive<T: ByteStream>(input: &mut T) -> (r: Result<Response, MessageError>)
        ensures
            final(input).sent_log() == old(input).sent_log(),
            final(input).recv_log().len() >= old(input).recv_log().len(),
            match r {
                Ok(resp) => ({
                    let delta = final(input).recv_log().skip(
                        old(input).recv_log().len() as int,
                    );
                    exists|n: int|
                        parse_response_step(delta) == ResponseStep::Done(resp@, n)
                }),
                Err(e) => ({
                    let delta = final(input).recv_log().skip(
                        old(input).recv_log().len() as int,
                    );
                    ||| (e == MessageError::IOError && parse_response_step(delta) is Incomplete)
                    ||| parse_response_step(delta) == ResponseStep::Fail(e)
                    ||| (e == MessageError::InvalidResponse(ResponseError::InvalidResponse) && (
                    parse_response_step(delta) is Incomplete || delta.len() > 0x8000_0400))
                }),
            },
    {
        let mut buf: Vec<u8> = Vec::new();
        let ghost start = input.recv_log().len() as int;
        loop
            invariant
                start == old(input).recv_log().len(),
                input.recv_log().len() >= start,
                input.sent_log() == old(input).sent_log(),
                buf@ == input.recv_log().skip(start),
                buf@.len() <= 0x8000_0500,
            decreases 0x8000_0500 - buf@.len(),
        {
            match Self::try_parse_front(buf.as_slice()) {
                ParseFront::Done(resp) => {
                    return Ok(resp);
                },
                ParseFront::Fail(e) => {
                    return Err(e);
                },
                ParseFront::Incomplete => {},
            }
            match input.read_chunk() {
                ReadOutcome::Data(bytes) => {
                    let mut bytes = bytes;
                    buf.append(&mut bytes);
                    assert(buf@ =~= input.recv_log().skip(start));
                    if buf.len() > 0x8000_0500 {
                        return Err(MessageError::InvalidResponse(ResponseError::InvalidResponse));
                    }
                },
                ReadOutcome::Closed => {
                    return Err(MessageError::InvalidResponse(ResponseError::InvalidResponse));
                },
                ReadOutcome::WouldBlock => {
                    return Err(MessageError::IOError);
                },
                ReadOutcome::Failed(_) => {
                    return Err(MessageError::IOError);
                },
            }
        }
    }

    /// Parses the front of `buf` as one complete response, if it already
    /// holds one.
    fn try_parse_front(buf: &[u8]) -> (r: ParseFront)
        ensures
            match r {
                ParseFront::Done(resp) => exists|n: int|
                    parse_response_step(buf@) == ResponseStep::Done(resp@, n),
                ParseFront::Fail(e) => parse_response_step(buf@) == ResponseStep::Fail(e),
                ParseFront::Incomplete => parse_response_step(buf@) == ResponseStep::Incomplete,
            },
    {
        let n = buf.len();
        let mut sep: Vec<u8> = Vec::new();
        sep.push(CR);
        sep.push(LF);
        assert(sep@ =~= crlf());
        let le = match find(buf, sep.as_slice()) {
            None => {
                return ParseFront::Incomplete;
            },
            Some(le) => le,
        };
        proof {
            lemma_find_first(buf@, crlf());
        }
        let mut sep4: Vec<u8> = Vec::new();
        sep4.push(CR);
        sep4.push(LF);
        sep4.push(CR);
        sep4.push(LF);
        assert(sep4@ =~= crlfcrlf());
        let tail = vstd::slice::slice_subrange(buf, le, n);
        assert(tail@ == buf@.skip(le as int));
        let h = match find(tail, sep4.as_slice()) {
            None => {
                return ParseFront::Incomplete;
            },
            Some(h) => h,
        };
        proof {
            lemma_find_first(tail@, crlfcrlf());
        }
        let line = vstd::slice::slice_subrange(buf, 0, le);
        assert(line@ == buf@.take(le as int));
        let status_line = match StatusLine::try_from(line) {
            Ok(sl) => sl,
            Err(e) => {
                return ParseFront::Fail(e);
            },
        };
        let headers = if h == 0 {
            Headers::default()
        } else {
            proof {
                lemma_terminator_gap(buf@, le as int, h as int);
            }
            let headers_bytes = vstd::slice::slice_subrange(buf, le + 2, le + h);
            assert(headers_bytes@ == buf@.subrange(le + 2, le + h));
            match Headers::try_from(headers_bytes) {
                Ok(hs) => hs,
                Err(e) => {
                    return ParseFront::Fail(e);
                },
            }
        };
        proof {
            if h != 0 {
                crate::request::lemma_parse_block_cl_nonneg(buf@.subrange(le + 2, le + h));
            }
        }
        let cl = headers.content_length();
        if cl == 0 {
            return ParseFront::Done(Response { status_line, headers, body: None });
        }
        if n >= le + h + 4 && n - (le + h + 4) >= cl as usize {
            let body_bytes = vstd::slice::slice_subrange(buf, le + h + 4, le + h + 4 + cl as usize);
            assert(body_bytes@ == buf@.subrange(le + h + 4, le + h + 4 + cl as int));
            let body = Body::new(vstd::slice::slice_to_vec(body_bytes));
            ParseFront::Done(Response { status_line, headers, body: Some(body) })
        } else {
            ParseFront::Incomplete
        }
    }
}


/// No byte of a version's or status code's wire form is a CR, LF or SP.
proof fn lemma_status_line_bytes_plain(v: Version, c: StatusCode)
    ensures
        forall|i: int|
            0 <= i < version_bytes(v).len() ==> #[trigger] version_bytes(v)[i] != CR
                && version_bytes(v)[i] != LF && version_bytes(v)[i] != SP,
        forall|i: int|
            0 <= i < status_bytes(c).len() ==> #[trigger] status_bytes(c)[i] != CR
                && status_bytes(c)[i] != LF && status_bytes(c)[i] != SP,
        version_bytes(v).len() == 8,
        status_bytes(c).len() == 3,
{
    match v {
        Version::Http10 => {},
        Version::Http11 => {},
    }
    match c {
        StatusCode::Continue => {},
        StatusCode::OK => {},
        StatusCode::NoContent => {},
        StatusCode::BadRequest => {},
        StatusCode::NotFound => {},
        StatusCode::InternalServerError => {},
        StatusCode::NotImplemented => {},
    }
}

/// A serialized status line without a reason phrase parses back to its
/// version and status, and holds no line terminator of its own.
proof fn lemma_status_line_round_trip(v: Version, c: StatusCode)
    ensures
        ({
            let line = version_bytes(v) + seq![SP] + status_bytes(c);
            &&& parse_status_line_spec(line) == Ok::<StatusLineV, MessageError>(
                StatusLineV { version: v, status: c, message: None },
            )
            &&& (forall|i: int|
                0 <= i < line.len() ==> #[trigger] line[i] != CR && line[i] != LF)
            &&& line.len() == 12
        }),
{
    lemma_status_line_bytes_plain(v, c);
    let vb = version_bytes(v);
    let cb = status_bytes(c);
    let line = vb + seq![SP] + cb;
    assert forall|i: int| 0 <= i < line.len() implies #[trigger] line[i] != CR && line[i]
        != LF by {
        if i < 8 {
            assert(line[i] == vb[i]);
        } else if i == 8 {
            assert(line[i] == SP);
        } else {
            assert(line[i] == cb[i - 9]);
        }
    }
    assert(occurs_at(line, crate::request::sp(), 8)) by {
        assert(line.subrange(8, 9) =~= seq![SP]);
    }
    assert forall|j: int| 0 <= j < 8 implies !occurs_at(line, crate::request::sp(), j) by {
        if line.subrange(j, j + 1) == crate::request::sp() {
            assert(line.subrange(j, j + 1)[0] == SP);
            assert(line[j] == vb[j]);
        }
    }
    lemma_find_first_is(line, crate::request::sp(), 8);
    assert(line.take(8) =~= vb);
    let rest = line.skip(9);
    assert(rest =~= cb);
    assert forall|j: int| !occurs_at(cb, crate::request::sp(), j) by {
        if 0 <= j && j + 1 <= cb.len() {
            if cb.subrange(j, j + 1) == crate::request::sp() {
                assert(cb.subrange(j, j + 1)[0] == SP);
            }
        }
    }
    lemma_find_first(cb, crate::request::sp());
    if find_first(cb, crate::request::sp()) is Some {
        assert(occurs_at(cb, crate::request::sp(), find_first(
            cb,
            crate::request::sp(),
        )->Some_0));
    }
    assert(parse_version(vb) == Some(v));
    assert(parse_status(cb) == Some(c));
}

/// A list of lines as the bytes they occupy, each with its terminator.
pub open spec fn lines_bytes(ls: Seq<Seq<u8>>) -> Seq<u8>
    decreases ls.len(),
{
    if ls.len() == 0 {
        Seq::empty()
    } else {
        (ls[0] + crlf()) + lines_bytes(ls.drop_first())
    }
}

/// A line that cannot hide a terminator: non-empty, no CR, no LF.
pub open spec fn line_plain(l: Seq<u8>) -> bool {
    l.len() > 0 && (forall|i: int| 0 <= i < l.len() ==> #[trigger] l[i] != CR && l[i] != LF)
}

/// Appending a line appends its bytes and terminator.
proof fn lemma_lines_bytes_push(ls: Seq<Seq<u8>>, l: Seq<u8>)
    ensures
        lines_bytes(ls.push(l)) == lines_bytes(ls) + l + crlf(),
    decreases ls.len(),
{
    if ls.len() == 0 {
        assert(ls.push(l)[0] == l);
        assert(ls.push(l).drop_first() =~= Seq::<Seq<u8>>::empty());
        assert(lines_bytes(ls.push(l).drop_first()) =~= Seq::<u8>::empty());
        assert(lines_bytes(ls.push(l)) =~= (l + crlf()) + Seq::<u8>::empty());
        assert(lines_bytes(ls) =~= Seq::<u8>::empty());
        assert(lines_bytes(ls.push(l)) =~= lines_bytes(ls) + l + crlf());
    } else {
        assert(ls.push(l).drop_first() =~= ls.drop_first().push(l));
        lemma_lines_bytes_push(ls.drop_first(), l);
        assert(lines_bytes(ls.push(l)) == (ls[0] + crlf()) + (lines_bytes(ls.drop_first()) + l
            + crlf()));
        assert((ls[0] + crlf()) + (lines_bytes(ls.drop_first()) + l + crlf()) =~= ((ls[0]
            + crlf()) + lines_bytes(ls.drop_first()) + l) + crlf());
        assert(lines_bytes(ls) + l + crlf() =~= ((ls[0] + crlf()) + lines_bytes(
            ls.drop_first(),
        ) + l) + crlf());
    }
}

/// ASCII lines occupy ASCII bytes.
proof fn lemma_lines_bytes_ascii(ls: Seq<Seq<u8>>)
    requires
        forall|i: int| 0 <= i < ls.len() ==> all_ascii(#[trigger] ls[i]),
    ensures
        all_ascii(lines_bytes(ls)),
    decreases ls.len(),
{
    if ls.len() > 0 {
        assert(all_ascii(ls[0]));
        assert forall|i: int|
            0 <= i < ls.drop_first().len() implies all_ascii(#[trigger] ls.drop_first()[i]) by {
            assert(ls.drop_first()[i] == ls[i + 1]);
        }
        lemma_lines_bytes_ascii(ls.drop_first());
        let lb = lines_bytes(ls);
        assert forall|j: int| 0 <= j < lb.len() implies #[trigger] lb[j] < 128 by {
            if j < ls[0].len() {
                assert(lb[j] == ls[0][j]);
            } else if j < ls[0].len() + 2 {
                assert(lb[j] == crlf()[j - ls[0].len()]);
            } else {
                assert(lb[j] == lines_bytes(ls.drop_first())[j - ls[0].len() - 2]);
            }
        }
    }
}

/// In `CRLF`, then plain lines each ended by `CRLF`, then `CRLF`, then
/// anything, the first `CRLF CRLF` stands exactly where the lines end.
proof fn lemma_first_terminator(ls: Seq<Seq<u8>>, tail: Seq<u8>)
    requires
        forall|i: int| 0 <= i < ls.len() ==> line_plain(#[trigger] ls[i]),
    ensures
        find_first(crlf() + lines_bytes(ls) + crlf() + tail, crlfcrlf()) == Some(
            lines_bytes(ls).len() as int,
        ),
    decreases ls.len(),
{
    let s = crlf() + lines_bytes(ls) + crlf() + tail;
    if ls.len() == 0 {
        assert(occurs_at(s, crlfcrlf(), 0)) by {
            assert(s.subrange(0, 4) =~= crlfcrlf());
        }
        lemma_find_first_is(s, crlfcrlf(), 0);
    } else {
        let l0 = ls[0];
        assert(line_plain(l0));
        let rest = ls.drop_first();
        let s2 = crlf() + lines_bytes(rest) + crlf() + tail;
        assert(s =~= crlf() + l0 + s2);
        assert forall|i: int| 0 <= i < rest.len() implies line_plain(#[trigger] rest[i]) by {
            assert(rest[i] == ls[i + 1]);
        }
        lemma_first_terminator(rest, tail);
        let q = lines_bytes(rest).len() as int;
        lemma_find_first(s2, crlfcrlf());
        assert(occurs_at(s2, crlfcrlf(), q));
        let target = 2 + l0.len() + q;
        assert(lines_bytes(ls).len() == l0.len() + 2 + q);
        assert(occurs_at(s, crlfcrlf(), target)) by {
            assert(s.subrange(target, target + 4) =~= s2.subrange(q, q + 4));
        }
        assert forall|j: int| 0 <= j < target implies !occurs_at(s, crlfcrlf(), j) by {
            if s.subrange(j, j + 4) == crlfcrlf() {
                assert(s.subrange(j, j + 4)[0] == CR);
                assert(s.subrange(j, j + 4)[1] == LF);
                if j == 0 {
                    assert(s[2] == l0[0]);
                    assert(s.subrange(j, j + 4)[2] == CR);
                } else if j == 1 {
                    assert(s[1] == LF);
                } else if j < 2 + l0.len() {
                    assert(s[j] == l0[j - 2]);
                } else {
                    // The window sits inside the rest of the region; an
                    // occurrence there would sit before the first one.
                    let p = j - 2 - l0.len();
                    assert(0 <= p < q);
                    assert(occurs_at(s2, crlfcrlf(), p)) by {
                        assert(s2.subrange(p, p + 4) =~= s.subrange(j, j + 4));
                    }
                    assert(!occurs_at(s2, crlfcrlf(), p));
                }
            }
        }
        lemma_find_first_is(s, crlfcrlf(), target);
    }
}

/// The lines of the stored entries.
pub open spec fn entry_lines(entries: Seq<(Seq<u8>, Seq<u8>)>) -> Seq<Seq<u8>> {
    Seq::new(entries.len(), |i: int| entry_line(entries[i]))
}

/// The stored entries' lines occupy exactly the entries' bytes.
proof fn lemma_entry_lines_bytes(entries: Seq<(Seq<u8>, Seq<u8>)>)
    ensures
        lines_bytes(entry_lines(entries)) == entries_bytes(entries),
    decreases entries.len(),
{
    if entries.len() == 0 {
        assert(entry_lines(entries) =~= Seq::<Seq<u8>>::empty());
        assert(lines_bytes(entry_lines(entries)) =~= Seq::<u8>::empty());
        assert(entries_bytes(entries) =~= Seq::<u8>::empty());
    } else {
        lemma_entry_lines_bytes(entries.drop_first());
        assert(entry_lines(entries)[0] == entry_line(entries[0]));
        assert(entry_lines(entries).drop_first() =~= entry_lines(entries.drop_first()));
        assert(lines_bytes(entry_lines(entries)) == (entry_line(entries[0]) + crlf())
            + lines_bytes(entry_lines(entries.drop_first())));
        assert((entry_line(entries[0]) + crlf()) + entries_bytes(entries.drop_first())
            =~= crate::headers::entry_bytes(entries[0]) + entries_bytes(entries.drop_first()));
    }
}


/// A non-empty list of lines ends with its last line's terminator.
proof fn lemma_lines_bytes_last(ls: Seq<Seq<u8>>)
    requires
        ls.len() > 0,
    ensures
        lines_bytes(ls).len() >= 2,
        lines_bytes(ls)[lines_bytes(ls).len() - 2] == CR,
        lines_bytes(ls)[lines_bytes(ls).len() - 1] == LF,
    decreases ls.len(),
{
    if ls.len() == 1 {
        assert(lines_bytes(ls.drop_first()) =~= Seq::<u8>::empty());
        assert(lines_bytes(ls) =~= ls[0] + crlf());
    } else {
        lemma_lines_bytes_last(ls.drop_first());
    }
}

/// The round trip of the wire format: the bytes a response writes to its
/// stream parse back to a response with the same status line, the same
/// stored headers, the same body bytes, and a tracked `Content-Length`
/// equal to the body's length. This holds for every response without a
/// reason phrase whose stored headers can survive the wire at all: names
/// and values ASCII without line breaks or `": "` inside, names distinct
/// and not among the names that drive behavior, and a body that fits the
/// length field.
#[verifier::rlimit(100)]
pub proof fn lemma_response_round_trip(r: ResponseV)
    requires
        r.line.message is None,
        forall|i: int| 0 <= i < r.headers.entries.len() ==> entry_wf(#[trigger] r.headers.entries[i]),
        forall|i: int, j: int|
            0 <= i < j < r.headers.entries.len() ==> (#[trigger] r.headers.entries[i]).0 != (
            #[trigger] r.headers.entries[j]).0,
        body_bytes_of(r.body).len() <= 0x7fff_ffff,
    ensures
        ({
            let body = body_bytes_of(r.body);
            parse_response_step(response_bytes(normalize_content_length(r)))
                == ResponseStep::Done(
                ResponseV {
                    line: r.line,
                    headers: HeadersV {
                        content_length: body.len() as int,
                        expect: false,
                        entries: r.headers.entries,
                    },
                    body: if body.len() == 0 {
                        None
                    } else {
                        Some(body)
                    },
                },
                response_bytes(normalize_content_length(r)).len() as int,
            )
        }),
{
    let v = r.line.version;
    let c = r.line.status;
    let es = r.headers.entries;
    let body = body_bytes_of(r.body);
    let blen = body.len() as int;
    let rn = normalize_content_length(r);
    let f = response_bytes(rn);
    let sl = version_bytes(v) + seq![SP] + status_bytes(c);
    lemma_status_line_round_trip(v, c);

    // The lines of the header block.
    let cl_line = header_name_bytes(Header::ContentLength) + colon_sp() + dec_bytes(blen);
    let ls = if blen > 0 {
        entry_lines(es).push(cl_line)
    } else {
        entry_lines(es)
    };
    let lb = lines_bytes(ls);
    lemma_entry_lines_bytes(es);
    if blen > 0 {
        lemma_lines_bytes_push(entry_lines(es), cl_line);
        crate::ascii::lemma_dec_round_trip(blen);
        assert(lb =~= entries_bytes(es) + (cl_line + crlf()));
    } else {
        assert(lb =~= entries_bytes(es));
    }
    assert(f =~= sl + (crlf() + lb + crlf() + body)) by {
        assert(status_line_bytes(rn.line) =~= sl + crlf());
    }

    // Every line is plain — non-empty, no CR, no LF — and ASCII.
    assert forall|i: int| 0 <= i < ls.len() implies line_plain(#[trigger] ls[i]) && all_ascii(
        ls[i],
    ) by {
        if i < es.len() {
            assert(ls[i] == entry_line(es[i]));
            assert(entry_line(es[i]).len() >= 2);
            let nl = es[i].0.len() as int;
            assert forall|k: int|
                0 <= k < entry_line(es[i]).len() implies #[trigger] entry_line(es[i])[k] != CR
                && entry_line(es[i])[k] != LF && entry_line(es[i])[k] < 128 by {
                lemma_entry_line_bytes(es[i], k);
                if k < nl {
                    assert(entry_line(es[i])[k] == es[i].0[k]);
                } else if k < nl + 2 {
                    assert(entry_line(es[i])[k] == colon_sp()[k - nl]);
                } else {
                    assert(entry_line(es[i])[k] == es[i].1[k - nl - 2]);
                }
            }
        } else {
            assert(ls[i] == cl_line);
            crate::ascii::lemma_dec_round_trip(blen);
            let name = header_name_bytes(Header::ContentLength);
            assert forall|k: int|
                0 <= k < cl_line.len() implies #[trigger] cl_line[k] != CR && cl_line[k] != LF
                && cl_line[k] < 128 by {
                if k < 14 {
                    assert(cl_line[k] == name[k]);
                } else if k < 16 {
                    assert(cl_line[k] == colon_sp()[k - 14]);
                } else {
                    assert(cl_line[k] == dec_bytes(blen)[k - 16]);
                    assert(crate::ascii::is_digit(dec_bytes(blen)[k - 16]));
                }
            }
        }
    }

    // The status line's terminator is the first CRLF.
    assert(occurs_at(f, crlf(), 12)) by {
        assert(f.subrange(12, 14) =~= crlf());
    }
    assert forall|j: int| 0 <= j < 12 implies !occurs_at(f, crlf(), j) by {
        if f.subrange(j, j + 2) == crlf() {
            assert(f.subrange(j, j + 2)[0] == CR);
            assert(f[j] == sl[j]);
        }
    }
    lemma_find_first_is(f, crlf(), 12);
    assert(f.take(12) =~= sl);

    // The block terminator is the first CRLF CRLF after it.
    assert(f.skip(12) =~= crlf() + lb + crlf() + body);
    lemma_first_terminator(ls, body);
    let h = lb.len() as int;
    assert(find_first(f.skip(12), crlfcrlf()) == Some(h));

    if h == 0 {
        // No stored entries and no body: the defaults parse back.
        assert(es.len() == 0 && blen == 0);
        assert(headers_default().entries =~= es);
        assert(f.len() == 16);
    } else {
        // The header region is the lines without the final terminator.
        let region = f.subrange(14, 12 + h);
        lemma_lines_bytes_last(ls);
        assert(region + crlf() =~= lb);
        lemma_lines_bytes_ascii(ls);
        assert(all_ascii(region)) by {
            assert(forall|j: int| 0 <= j < region.len() ==> #[trigger] region[j] == lb[j]);
        }
        lemma_ascii_valid_utf8(region);
        lemma_parse_headers_crlf_ext(headers_default(), region);
        assert(parse_headers_from(headers_default(), lb) == parse_headers_from(
            headers_default(),
            region,
        ));
        let t = if blen > 0 {
            cl_line + crlf()
        } else {
            Seq::<u8>::empty()
        };
        assert forall|i: int|
            0 <= i < es.len() implies find_key(headers_default().entries, (
        #[trigger] es[i]).0) is None by {
            lemma_find_key(headers_default().entries, es[i].0);
            if find_key(headers_default().entries, es[i].0) is Some {
                assert(headers_default().entries.len() == 0);
            }
        }
        lemma_parse_entry_block(headers_default(), es, t);
        assert(lb =~= entries_bytes(es) + t);
        let acc1 = HeadersV { entries: headers_default().entries + es, ..headers_default() };
        assert(acc1.entries =~= es);
        let hs = HeadersV { content_length: blen, expect: false, entries: es };
        if blen > 0 {
            lemma_parse_headers_crlf_ext(acc1, cl_line);
            lemma_parse_cl_line(acc1, blen);
            assert(parse_headers_from(headers_default(), region) == Ok::<
                HeadersV,
                MessageError,
            >(hs));
        } else {
            assert(find_first(Seq::<u8>::empty(), crlf()) is None);
            assert(parse_headers_from(acc1, Seq::<u8>::empty()) == Ok::<
                HeadersV,
                MessageError,
            >(acc1));
            assert(acc1 == hs);
        }
        // The body is exactly what follows the terminator.
        if blen > 0 {
            assert(f.len() == 16 + h + blen);
            assert(f.subrange(12 + h + 4, 12 + h + 4 + blen) =~= body);
        } else {
            assert(f.len() == 16 + h);
        }
    }
}

impl crate::message::Message for Response {
    fn send(&mut self, buf: &mut Vec<u8>) {
        Response::send(self, buf)
    }

    fn header_line(&self, key: &str) -> Option<&String> {
        Response::header_line(self, key)
    }

    fn with_header(&mut self, key: String, value: String) {
        Response::with_header(self, key, value)
    }

    fn version(&self) -> Version {
        Response::http_version(self)
    }

    fn body(&self) -> Option<&Vec<u8>> {
        Response::body(self)
    }

    fn with_body(&mut self, bytes: &[u8]) {
        Response::with_body(self, bytes)
    }
}

/// What the front of a buffer held when a response was parsed from it.
enum ParseFront {
    /// Not yet a complete response.
    Incomplete,
    /// Never going to be a response.
    Fail(MessageError),
    /// One complete response.
    Done(Response),
}

} // verus!
