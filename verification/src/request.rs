//! The HTTP request model: URIs, the request line and complete requests,
//! with their parse functions.

use vstd::prelude::*;
use vstd::string::StringExecFns;

use crate::ascii::{
    bytes_eq, crlf, crlfcrlf, find_first, lemma_find_first, occurs_at, string_bytes,
    utf8_to_string, CR, LF, SP,
};
use crate::common::{Body, Method, MessageError, RequestError, method_bytes, parse_method,
    parse_version, Version};
use crate::headers::{
    find_key, headers_block_bytes, headers_default, lemma_parse_header_line_cl_nonneg,
    parse_header_block, parse_header_line_spec, parse_headers_from, upsert, Headers, HeadersV,
};

pub use crate::ascii::find;

verus! {

/// The single-byte space separator of the request line.
pub open spec fn sp() -> Seq<u8> {
    seq![SP]
}

/// The scheme prefix of an absolute URI: `http://`.
pub open spec fn http_prefix() -> Seq<u8> {
    seq![104u8, 116u8, 116u8, 112u8, 58u8, 47u8, 47u8]
}

/// The absolute path of a URI held as the bytes `b`: for an absolute URI
/// the part from the first slash after the authority, for a relative URI
/// the whole only when it starts with a slash, and empty otherwise.
pub open spec fn abs_path_of(b: Seq<u8>) -> Seq<u8> {
    if b.len() >= 7 && b.take(7) == http_prefix() {
        let rest = b.skip(7);
        match find_first(rest, seq![47u8]) {
            Some(k) => rest.skip(k),
            None => Seq::empty(),
        }
    } else if b.len() > 0 && b[0] == 47 {
        b
    } else {
        Seq::empty()
    }
}

/// A URI is accepted when it is non-empty and valid UTF-8.
pub open spec fn uri_ok(b: Seq<u8>) -> bool {
    b.len() > 0 && vstd::utf8::valid_utf8(b)
}

/// Wrapper over HTTP URIs.
#[derive(Debug, PartialEq)]
pub struct Uri {
    path: String,
}

impl View for Uri {
    type V = Seq<u8>;

    closed spec fn view(&self) -> Seq<u8> {
        string_bytes(self.path@)
    }
}

impl Uri {
    /// Creates a URI from a string.
    pub fn new(slice: &str) -> (r: Uri)
        ensures
            r@ == string_bytes(slice@),
    {
        Uri { path: String::from_str(slice) }
    }

    /// Parses a byte slice into a URI: it must be non-empty and valid
    /// UTF-8.
    ///
    /// # Errors
    /// `InvalidUri` is returned on an empty or undecodable slice.
    pub fn try_from(bytes: &[u8]) -> (r: Result<Uri, RequestError>)
        ensures
            match r {
                Ok(u) => uri_ok(bytes@) && u@ == bytes@,
                Err(e) => !uri_ok(bytes@) && e == RequestError::InvalidUri,
            },
    {
        if bytes.len() == 0 {
            return Err(RequestError::InvalidUri);
        }
        match utf8_to_string(bytes) {
            Some(path) => Ok(Uri { path }),
            None => Err(RequestError::InvalidUri),
        }
    }

    /// Returns the absolute path of the URI.
    ///
    /// URIs can be in absolute form, which includes the HTTP scheme and
    /// the authority, or in relative form, which must start with a slash.
    /// A URI of neither shape has an empty absolute path.
    pub fn get_abs_path(&self) -> (r: &str)
        ensures
            string_bytes(r@) == abs_path_of(self@),
    {
        proof {
            vstd::utf8::encode_utf8_valid_utf8(self.path@);
        }
        let bytes = self.path.as_str().as_bytes();
        assert(bytes@ == self@);
        let n = bytes.len();
        let mut prefix: Vec<u8> = Vec::new();
        prefix.push(104);
        prefix.push(116);
        prefix.push(116);
        prefix.push(112);
        prefix.push(58);
        prefix.push(47);
        prefix.push(47);
        assert(prefix@ =~= http_prefix());
        if n >= 7 && bytes_eq(vstd::slice::slice_subrange(bytes, 0, 7), prefix.as_slice()) {
            assert(bytes@.take(7) == http_prefix());
            let rest = vstd::slice::slice_subrange(bytes, 7, n);
            assert(rest@ == bytes@.skip(7));
            let mut slash: Vec<u8> = Vec::new();
            slash.push(47);
            assert(slash@ =~= seq![47u8]);
            match find(rest, slash.as_slice()) {
                Some(k) => {
                    proof {
                        lemma_find_first(rest@, seq![47u8]);
                        // The slash is an ASCII byte, hence a character
                        // boundary of the valid UTF-8 path.
                        assert(rest@.subrange(k as int, k as int + 1)[0] == 47);
                        assert(bytes@[7 + k] == 47);
                        assert(!vstd::utf8::is_continuation_byte(47u8));
                        vstd::utf8::is_char_boundary_iff_not_is_continuation_byte(
                            bytes@,
                            7 + k,
                        );
                    }
                    let (_, tail) = self.path.as_str().split_at(7 + k);
                    proof {
                        assert(string_bytes(tail@) =~= bytes@.skip(7).skip(k as int));
                    }
                    tail
                },
                None => {
                    let r = "";
                    proof {
                        reveal_strlit("");
                        assert(r@.len() == 0);
                        assert(string_bytes(r@) =~= Seq::<u8>::empty());
                    }
                    r
                },
            }
        } else {
            if n > 0 && bytes[0] == 47 {
                let r = self.path.as_str();
                assert(string_bytes(r@) == abs_path_of(self@));
                r
            } else {
                let r = "";
                proof {
                    reveal_strlit("");
                    assert(r@.len() == 0);
                    assert(string_bytes(r@) =~= Seq::<u8>::empty());
                }
                r
            }
        }
    }
}

/// The mathematical content of a request line.
pub struct RequestLineV {
    /// The request's method.
    pub method: Method,
    /// The bytes of the request's URI.
    pub uri: Seq<u8>,
    /// The request's protocol version.
    pub version: Version,
}

/// The three fields of a request line, split on the first two spaces:
/// everything before the first space, everything between the first and the
/// second space, and everything after the second space. With no space at
/// all, all three parts are empty; with one space, the version is empty.
pub open spec fn split_request_line(line: Seq<u8>) -> (Seq<u8>, Seq<u8>, Seq<u8>) {
    match find_first(line, sp()) {
        None => (Seq::empty(), Seq::empty(), Seq::empty()),
        Some(m) => {
            let rest = line.skip(m + 1);
            match find_first(rest, sp()) {
                None => (line.take(m), rest, Seq::empty()),
                Some(u) => (line.take(m), rest.take(u), rest.skip(u + 1)),
            }
        },
    }
}

/// A request line parsed from its bytes: the method, then the URI, then
/// the version, each of which must parse.
pub open spec fn parse_request_line_spec(line: Seq<u8>) -> Result<RequestLineV, MessageError> {
    let (m, u, v) = split_request_line(line);
    if parse_method(m) is None {
        Err(MessageError::InvalidRequest(RequestError::InvalidHttpMethod))
    } else if !uri_ok(u) {
        Err(MessageError::InvalidRequest(RequestError::InvalidUri))
    } else if parse_version(v) is None {
        Err(MessageError::InvalidHttpVersion)
    } else {
        Ok(
            RequestLineV {
                method: parse_method(m)->Some_0,
                uri: u,
                version: parse_version(v)->Some_0,
            },
        )
    }
}

/// Wrapper over an HTTP request line.
#[derive(Debug, PartialEq)]
pub struct RequestLine {
    pub(crate) method: Method,
    pub(crate) uri: Uri,
    pub(crate) http_version: Version,
}

impl View for RequestLine {
    type V = RequestLineV;

    closed spec fn view(&self) -> RequestLineV {
        RequestLineV { method: self.method, uri: self.uri@, version: self.http_version }
    }
}

impl RequestLine {
    /// Splits a request line into its method, URI and version bytes.
    pub fn parse_request_line<'a>(request_line: &'a [u8]) -> (r: (&'a [u8], &'a [u8], &'a [u8]))
        ensures
            (r.0@, r.1@, r.2@) == split_request_line(request_line@),
    {
        let mut space: Vec<u8> = Vec::new();
        space.push(SP);
        assert(space@ =~= sp());
        let n = request_line.len();
        match find(request_line, space.as_slice()) {
            None => {
                let e = vstd::slice::slice_subrange(request_line, 0, 0);
                assert(e@ =~= Seq::<u8>::empty());
                (e, e, e)
            },
            Some(m) => {
                proof {
                    lemma_find_first(request_line@, sp());
                }
                let method = vstd::slice::slice_subrange(request_line, 0, m);
                let rest = vstd::slice::slice_subrange(request_line, m + 1, n);
                assert(method@ == request_line@.take(m as int));
                assert(rest@ == request_line@.skip(m + 1));
                match find(rest, space.as_slice()) {
                    None => {
                        let e = vstd::slice::slice_subrange(request_line, 0, 0);
                        assert(e@ =~= Seq::<u8>::empty());
                        (method, rest, e)
                    },
                    Some(u) => {
                        proof {
                            lemma_find_first(rest@, sp());
                        }
                        let rn = rest.len();
                        let uri = vstd::slice::slice_subrange(rest, 0, u);
                        let version = vstd::slice::slice_subrange(rest, u + 1, rn);
                        assert(uri@ == rest@.take(u as int));
                        assert(version@ == rest@.skip(u + 1));
                        (method, uri, version)
                    },
                }
            },
        }
    }

    /// Tries to parse a byte stream into a request line. Fails if the
    /// request line is malformed.
    ///
    /// # Errors
    /// `InvalidHttpMethod` is returned if the HTTP method is unsupported.
    /// `InvalidUri` is returned if the URI is not valid.
    /// `InvalidHttpVersion` is returned if the HTTP version is unsupported.
    pub fn try_from(request_line: &[u8]) -> (r: Result<RequestLine, MessageError>)
        ensures
            match r {
                Ok(rl) => parse_request_line_spec(request_line@) == Ok::<
                    RequestLineV,
                    MessageError,
                >(rl@),
                Err(e) => parse_request_line_spec(request_line@) == Err::<
                    RequestLineV,
                    MessageError,
                >(e),
            },
    {
        let (method, uri, version) = Self::parse_request_line(request_line);
        let m = match Method::try_from(method) {
            Ok(m) => m,
            Err(_) => {
                return Err(MessageError::InvalidRequest(RequestError::InvalidHttpMethod));
            },
        };
        let u = match Uri::try_from(uri) {
            Ok(u) => u,
            Err(_) => {
                return Err(MessageError::InvalidRequest(RequestError::InvalidUri));
            },
        };
        let v = match Version::try_from(version) {
            Ok(v) => v,
            Err(e) => {
                return Err(e);
            },
        };
        Ok(RequestLine { method: m, uri: u, http_version: v })
    }

    /// The least length of a valid request line: the shortest method, a
    /// one-byte URI, a version, and the two separating spaces.
    pub fn min_len() -> (r: usize)
        ensures
            r == 14,
    {
        3 + 1 + 8 + 2
    }
}

/// The mathematical content of a request.
pub struct RequestV {
    /// The request line.
    pub line: RequestLineV,
    /// The request's headers.
    pub headers: HeadersV,
    /// The request's body, if any.
    pub body: Option<Seq<u8>>,
}

/// A complete request parsed from `b`: a request line of at least the
/// minimum length ended by CRLF, a header block ended by CRLF CRLF, and,
/// when the headers carry a positive `Content-Length`, exactly that many
/// body bytes after the header block.
pub open spec fn parse_request_full(b: Seq<u8>) -> Result<RequestV, MessageError> {
    match find_first(b, crlf()) {
        None => Err(MessageError::InvalidRequest(RequestError::InvalidRequest)),
        Some(le) => {
            if le < 14 {
                Err(MessageError::InvalidRequest(RequestError::InvalidRequest))
            } else {
                match parse_request_line_spec(b.take(le)) {
                    Err(e) => Err(e),
                    Ok(rl) => match find_first(b.skip(le), crlfcrlf()) {
                        None => Err(MessageError::InvalidRequest(RequestError::InvalidRequest)),
                        Some(h) => {
                            if h == 0 {
                                Ok(RequestV { line: rl, headers: headers_default(), body: None })
                            } else {
                                match parse_header_block(b.subrange(le + 2, le + h)) {
                                    Err(e) => Err(e),
                                    Ok(hs) => {
                                        if hs.content_length == 0 {
                                            Ok(RequestV { line: rl, headers: hs, body: None })
                                        } else {
                                            let body = b.skip(le + h + 4);
                                            if body.len() == hs.content_length {
                                                Ok(
                                                    RequestV {
                                                        line: rl,
                                                        headers: hs,
                                                        body: Some(body),
                                                    },
                                                )
                                            } else {
                                                Err(
                                                    MessageError::InvalidRequest(
                                                        RequestError::InvalidRequest,
                                                    ),
                                                )
                                            }
                                        }
                                    },
                                }
                            }
                        },
                    },
                }
            }
        },
    }
}

/// The content length that a header block parse yields is never negative.
pub proof fn lemma_parse_headers_cl_nonneg(h: HeadersV, b: Seq<u8>)
    requires
        h.content_length >= 0,
        parse_headers_from(h, b) is Ok,
    ensures
        (parse_headers_from(h, b)->Ok_0).content_length >= 0,
    decreases b.len(),
{
    let split = find_first(b, crlf());
    let line = match split {
        Some(i) => b.take(i),
        None => b,
    };
    if line.len() == 0 {
    } else {
        let step = match parse_header_line_spec(h, line) {
            Ok(h2) => Ok::<HeadersV, MessageError>(h2),
            Err(MessageError::UnsupportedHeader) => Ok(h),
            Err(e) => Err(e),
        };
        match step {
            Err(e) => {},
            Ok(h2) => {
                assert(h2.content_length >= 0) by {
                    lemma_parse_header_line_cl_nonneg(h, line);
                }
                match split {
                    None => {},
                    Some(i) => {
                        if 0 <= i && i + 2 <= b.len() {
                            lemma_parse_headers_cl_nonneg(h2, b.skip(i + 2));
                        }
                    },
                }
            },
        }
    }
}

/// The content length that a header-block parse yields is never
/// negative.
pub proof fn lemma_parse_block_cl_nonneg(b: Seq<u8>)
    requires
        parse_header_block(b) is Ok,
    ensures
        (parse_header_block(b)->Ok_0).content_length >= 0,
{
    lemma_parse_headers_cl_nonneg(headers_default(), b);
}

/// When a CRLF stands at `le` and a CRLF CRLF stands at offset `h` after
/// it, `h` is either zero or at least two.
pub(crate) proof fn lemma_terminator_gap(b: Seq<u8>, le: int, h: int)
    requires
        occurs_at(b, crlf(), le),
        occurs_at(b.skip(le), crlfcrlf(), h),
        h != 0,
    ensures
        h >= 2,
{
    if h == 1 {
        assert(b.skip(le)[1] == LF) by {
            assert(b.subrange(le, le + 2)[1] == LF);
        }
        assert(b.skip(le).subrange(1, 5)[0] == CR);
        assert(b.skip(le)[1] == CR);
    }
}

/// The serialized form of a request: the request line, the header block
/// and the body, if any.
pub open spec fn request_bytes(r: RequestV) -> Seq<u8> {
    method_bytes(r.line.method) + sp() + r.line.uri + sp() + crate::common::version_bytes(
        r.line.version,
    ) + crlf() + headers_block_bytes(r.headers) + (match r.body {
        Some(b) => b,
        None => Seq::<u8>::empty(),
    })
}

/// Wrapper over an HTTP request.
#[derive(Debug, PartialEq)]
pub struct Request {
    /// The request line of the request.
    pub request_line: RequestLine,
    /// The headers of the request.
    pub headers: Headers,
    /// The body of the request.
    pub body: Option<Body>,
}

impl View for Request {
    type V = RequestV;

    open spec fn view(&self) -> RequestV {
        RequestV {
            line: self.request_line@,
            headers: self.headers@,
            body: match self.body {
                Some(b) => Some(b@),
                None => None,
            },
        }
    }
}

impl Request {
    /// Parses a byte slice into an HTTP request.
    ///
    /// The slice must hold one complete request: the request line, the
    /// header block with its empty-line terminator, and exactly
    /// `Content-Length` body bytes when the headers announce a body.
    ///
    /// # Errors
    /// Returns `InvalidRequest` when the stream is truncated or the body
    /// length does not match, and the underlying error when the request
    /// line or a header is malformed.
    pub fn try_from(byte_stream: &[u8]) -> (r: Result<Request, MessageError>)
        ensures
            match r {
                Ok(req) => parse_request_full(byte_stream@) == Ok::<RequestV, MessageError>(req@),
                Err(e) => parse_request_full(byte_stream@) == Err::<RequestV, MessageError>(e),
            },
    {
        let n = byte_stream.len();
        let mut sep: Vec<u8> = Vec::new();
        sep.push(CR);
        sep.push(LF);
        assert(sep@ =~= crlf());
        let le = match find(byte_stream, sep.as_slice()) {
            None => {
                return Err(MessageError::InvalidRequest(RequestError::InvalidRequest));
            },
            Some(le) => le,
        };
        proof {
            lemma_find_first(byte_stream@, crlf());
        }
        if le < 14 {
            return Err(MessageError::InvalidRequest(RequestError::InvalidRequest));
        }
        let line = vstd::slice::slice_subrange(byte_stream, 0, le);
        assert(line@ == byte_stream@.take(le as int));
        let request_line = match RequestLine::try_from(line) {
            Ok(rl) => rl,
            Err(e) => {
                return Err(e);
            },
        };
        let mut sep4: Vec<u8> = Vec::new();
        sep4.push(CR);
        sep4.push(LF);
        sep4.push(CR);
        sep4.push(LF);
        assert(sep4@ =~= crlfcrlf());
        let tail = vstd::slice::slice_subrange(byte_stream, le, n);
        assert(tail@ == byte_stream@.skip(le as int));
        let h = match find(tail, sep4.as_slice()) {
            None => {
                return Err(MessageError::InvalidRequest(RequestError::InvalidRequest));
            },
            Some(h) => h,
        };
        proof {
            lemma_find_first(tail@, crlfcrlf());
        }
        if h == 0 {
            return Ok(
                Request { request_line, headers: Headers::default(), body: None },
            );
        }
        proof {
            lemma_terminator_gap(byte_stream@, le as int, h as int);
        }
        let headers_bytes = vstd::slice::slice_subrange(byte_stream, le + 2, le + h);
        assert(headers_bytes@ == byte_stream@.subrange(le + 2, le + h));
        let headers = match Headers::try_from(headers_bytes) {
            Ok(hs) => hs,
            Err(e) => {
                return Err(e);
            },
        };
        proof {
            lemma_parse_block_cl_nonneg(headers_bytes@);
        }
        let cl = headers.content_length();
        if cl == 0 {
            return Ok(Request { request_line, headers, body: None });
        }
        let body_bytes = vstd::slice::slice_subrange(byte_stream, le + h + 4, n);
        assert(body_bytes@ == byte_stream@.skip(le + h + 4));
        if body_bytes.len() == cl as usize {
            let body = Body::new(vstd::slice::slice_to_vec(body_bytes));
            Ok(Request { request_line, headers, body: Some(body) })
        } else {
            Err(MessageError::InvalidRequest(RequestError::InvalidRequest))
        }
    }

    /// Returns the URI of the parsed request.
    pub fn uri(&self) -> (r: &Uri)
        ensures
            r@ == self@.line.uri,
    {
        &self.request_line.uri
    }

    /// Returns the HTTP method of the request.
    pub fn method(&self) -> (r: Method)
        ensures
            r == self@.line.method,
    {
        self.request_line.method
    }

    /// Returns the HTTP version of the request.
    pub fn version(&self) -> (r: Version)
        ensures
            r == self@.line.version,
    {
        self.request_line.http_version
    }

    /// The stored value of the header named exactly `key`, if any.
    pub fn header_line(&self, key: &str) -> (r: Option<&String>)
        ensures
            match r {
                Some(v) => (find_key(self@.headers.entries, string_bytes(key@)) is Some)
                    && string_bytes(v@) == self@.headers.entries[find_key(
                    self@.headers.entries,
                    string_bytes(key@),
                )->Some_0].1,
                None => find_key(self@.headers.entries, string_bytes(key@)) is None,
            },
    {
        self.headers.header_line(key)
    }

    /// Stores `value` under the header name `key`.
    pub fn with_header(&mut self, key: String, value: String)
        ensures
            final(self)@ == (RequestV {
                headers: HeadersV {
                    entries: upsert(
                        old(self)@.headers.entries,
                        string_bytes(key@),
                        string_bytes(value@),
                    ),
                    ..old(self)@.headers
                },
                ..old(self)@
            }),
    {
        self.headers.add_header_line(key, value);
    }

    /// Replaces the request's body with the given bytes.
    pub fn with_body(&mut self, bytes: &[u8])
        ensures
            final(self)@ == (RequestV { body: Some(bytes@), ..old(self)@ }),
    {
        self.body = Some(Body::new(vstd::slice::slice_to_vec(bytes)));
    }

    /// Serializes the request onto the end of `buf`.
    pub fn send(&mut self, buf: &mut Vec<u8>)
        ensures
            *final(self) == *old(self),
            final(buf)@ == old(buf)@ + request_bytes(old(self)@),
    {
        let method = self.request_line.method.raw();
        buf.extend_from_slice(method.as_slice());
        buf.push(SP);
        buf.extend_from_slice(self.request_line.uri.path.as_str().as_bytes());
        buf.push(SP);
        let version = self.request_line.http_version.raw();
        buf.extend_from_slice(version.as_slice());
        buf.push(CR);
        buf.push(LF);
        self.headers.write_all(buf);
        match &self.body {
            Some(b) => {
                buf.extend_from_slice(b.as_stream().as_slice());
            },
            None => {},
        }
        assert(final(buf)@ =~= old(buf)@ + request_bytes(self@));
    }
}

impl crate::message::Message for Request {
    fn send(&mut self, buf: &mut Vec<u8>) {
        Request::send(self, buf)
    }

    fn header_line(&self, key: &str) -> Option<&String> {
        Request::header_line(self, key)
    }

    fn with_header(&mut self, key: String, value: String) {
        Request::with_header(self, key, value)
    }

    fn version(&self) -> Version {
        Request::version(self)
    }

    fn body(&self) -> Option<&Vec<u8>> {
        match &self.body {
            Some(b) => Some(b.as_stream()),
            None => None,
        }
    }

    fn with_body(&mut self, bytes: &[u8]) {
        Request::with_body(self, bytes)
    }
}

} // verus!
