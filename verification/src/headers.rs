//! The header model: recognized header names, the header collection with
//! its parse and serialize routines, and media types.

use vstd::prelude::*;

use crate::ascii::{
    all_ascii, bytes_eq, content_length_value, crlf, dec_bytes, eq_ignore_case, find, find_first,
    lemma_ascii_valid_utf8, lemma_dec_round_trip, lemma_find_first, lemma_find_first_extend,
    lemma_find_first_is, lower, occurs_at, parse_content_length, push_dec, string_bytes, trim,
    trim_spec, utf8_to_string, CR, LF,
};
use vstd::utf8::valid_utf8;
use crate::common::{MessageError, RequestError};

verus! {

/// The `": "` separator between a header name and its value.
pub open spec fn colon_sp() -> Seq<u8> {
    seq![58u8, 32u8]
}

/// The value that `Expect` must carry.
pub open spec fn continue_bytes() -> Seq<u8> {
    seq![49u8, 48u8, 48u8, 45u8, 99u8, 111u8, 110u8, 116u8, 105u8, 110u8, 117u8, 101u8]
}

/// Wrapper over an HTTP header name that drives behavior.
#[derive(Clone, Copy, Debug, PartialEq, Eq, Structural)]
pub enum Header {
    /// Header `Content-Length`.
    ContentLength,
    /// Header `Content-Type`.
    ContentType,
    /// Header `Expect`.
    Expect,
    /// Header `Transfer-Encoding`.
    TransferEncoding,
    /// Header `Server`.
    Server,
}

/// The canonical spelling of a recognized header name.
pub open spec fn header_name_bytes(h: Header) -> Seq<u8> {
    match h {
        // Content-Length
        Header::ContentLength => seq![
            67u8, 111u8, 110u8, 116u8, 101u8, 110u8, 116u8, 45u8, 76u8, 101u8, 110u8, 103u8,
            116u8, 104u8,
        ],
        // Content-Type
        Header::ContentType => seq![
            67u8, 111u8, 110u8, 116u8, 101u8, 110u8, 116u8, 45u8, 84u8, 121u8, 112u8, 101u8,
        ],
        // Expect
        Header::Expect => seq![69u8, 120u8, 112u8, 101u8, 99u8, 116u8],
        // Transfer-Encoding
        Header::TransferEncoding => seq![
            84u8, 114u8, 97u8, 110u8, 115u8, 102u8, 101u8, 114u8, 45u8, 69u8, 110u8, 99u8, 111u8,
            100u8, 105u8, 110u8, 103u8,
        ],
        // Server
        Header::Server => seq![83u8, 101u8, 114u8, 118u8, 101u8, 114u8],
    }
}

/// The recognized header that `b` names after trimming and case folding,
/// if any.
pub open spec fn parse_header_name(b: Seq<u8>) -> Option<Header> {
    let t = lower(trim_spec(b));
    if t == lower(header_name_bytes(Header::ContentLength)) {
        Some(Header::ContentLength)
    } else if t == lower(header_name_bytes(Header::ContentType)) {
        Some(Header::ContentType)
    } else if t == lower(header_name_bytes(Header::Expect)) {
        Some(Header::Expect)
    } else if t == lower(header_name_bytes(Header::TransferEncoding)) {
        Some(Header::TransferEncoding)
    } else if t == lower(header_name_bytes(Header::Server)) {
        Some(Header::Server)
    } else {
        None
    }
}

impl Header {
    /// The canonical wire bytes of the header name.
    pub fn raw(&self) -> (r: Vec<u8>)
        ensures
            r@ == header_name_bytes(*self),
    {
        let mut v: Vec<u8> = Vec::new();
        match self {
            Header::ContentLength => {
                v.push(67);
                v.push(111);
                v.push(110);
                v.push(116);
                v.push(101);
                v.push(110);
                v.push(116);
                v.push(45);
                v.push(76);
                v.push(101);
                v.push(110);
                v.push(103);
                v.push(116);
                v.push(104);
            },
            Header::ContentType => {
                v.push(67);
                v.push(111);
                v.push(110);
                v.push(116);
                v.push(101);
                v.push(110);
                v.push(116);
                v.push(45);
                v.push(84);
                v.push(121);
                v.push(112);
                v.push(101);
            },
            Header::Expect => {
                v.push(69);
                v.push(120);
                v.push(112);
                v.push(101);
                v.push(99);
                v.push(116);
            },
            Header::TransferEncoding => {
                v.push(84);
                v.push(114);
                v.push(97);
                v.push(110);
                v.push(115);
                v.push(102);
                v.push(101);
                v.push(114);
                v.push(45);
                v.push(69);
                v.push(110);
                v.push(99);
                v.push(111);
                v.push(100);
                v.push(105);
                v.push(110);
                v.push(103);
            },
            Header::Server => {
                v.push(83);
                v.push(101);
                v.push(114);
                v.push(118);
                v.push(101);
                v.push(114);
            },
        }
        assert(v@ =~= header_name_bytes(*self));
        v
    }

    /// Parses a byte slice into a recognized header name. The name is
    /// trimmed and compared ignoring ASCII case.
    ///
    /// # Errors
    /// `UnsupportedHeader` is returned if the name is not recognized.
    pub fn try_from(bytes: &[u8]) -> (r: Result<Header, MessageError>)
        ensures
            match r {
                Ok(h) => parse_header_name(bytes@) == Some(h),
                Err(e) => parse_header_name(bytes@) is None && e
                    == MessageError::UnsupportedHeader,
            },
    {
        let t = trim(bytes);
        if eq_ignore_case(t, Header::ContentLength.raw().as_slice()) {
            Ok(Header::ContentLength)
        } else if eq_ignore_case(t, Header::ContentType.raw().as_slice()) {
            Ok(Header::ContentType)
        } else if eq_ignore_case(t, Header::Expect.raw().as_slice()) {
            Ok(Header::Expect)
        } else if eq_ignore_case(t, Header::TransferEncoding.raw().as_slice()) {
            Ok(Header::TransferEncoding)
        } else if eq_ignore_case(t, Header::Server.raw().as_slice()) {
            Ok(Header::Server)
        } else {
            Err(MessageError::UnsupportedHeader)
        }
    }
}

/// The mathematical content of a `Headers` value: the tracked
/// `Content-Length`, whether `Expect: 100-continue` was seen, and the
/// stored header entries in insertion order.
pub struct HeadersV {
    /// Value of the `Content-Length` header.
    pub content_length: int,
    /// Whether the headers carry `Expect: 100-continue`.
    pub expect: bool,
    /// Stored name/value pairs, as the bytes they hold on the wire.
    pub entries: Seq<(Seq<u8>, Seq<u8>)>,
}

/// The headers of a message with no header lines.
pub open spec fn headers_default() -> HeadersV {
    HeadersV { content_length: 0, expect: false, entries: Seq::empty() }
}

/// Index of the first entry whose name is exactly `k`, if any.
pub open spec fn find_key(entries: Seq<(Seq<u8>, Seq<u8>)>, k: Seq<u8>) -> Option<int>
    decreases entries.len(),
{
    if entries.len() == 0 {
        None
    } else if entries[0].0 == k {
        Some(0)
    } else {
        match find_key(entries.drop_first(), k) {
            None => None,
            Some(i) => Some(i + 1),
        }
    }
}

/// `find_key` returns the least index whose name is `k`.
pub proof fn lemma_find_key(entries: Seq<(Seq<u8>, Seq<u8>)>, k: Seq<u8>)
    ensures
        match find_key(entries, k) {
            Some(i) => 0 <= i < entries.len() && entries[i].0 == k && forall|j: int|
                0 <= j < i ==> (#[trigger] entries[j]).0 != k,
            None => forall|j: int| 0 <= j < entries.len() ==> (#[trigger] entries[j]).0 != k,
        },
    decreases entries.len(),
{
    if entries.len() > 0 && entries[0].0 != k {
        lemma_find_key(entries.drop_first(), k);
        assert(forall|j: int|
            1 <= j < entries.len() ==> #[trigger] entries[j] == entries.drop_first()[j - 1]);
    }
}

/// The least index whose name is `k` determines `find_key`.
pub proof fn lemma_find_key_is(entries: Seq<(Seq<u8>, Seq<u8>)>, k: Seq<u8>, i: int)
    requires
        0 <= i < entries.len(),
        entries[i].0 == k,
        forall|j: int| 0 <= j < i ==> (#[trigger] entries[j]).0 != k,
    ensures
        find_key(entries, k) == Some(i),
{
    lemma_find_key(entries, k);
    match find_key(entries, k) {
        Some(m) => {
            if m < i {
                assert(entries[m].0 != k);
            }
            if i < m {
                assert(entries[i].0 != k);
            }
        },
        None => {
            assert(entries[i].0 != k);
        },
    }
}

/// `entries` with the value for name `k` set to `v`: the first entry named
/// `k` is replaced, or a new entry is appended.
pub open spec fn upsert(entries: Seq<(Seq<u8>, Seq<u8>)>, k: Seq<u8>, v: Seq<u8>) -> Seq<
    (Seq<u8>, Seq<u8>),
> {
    match find_key(entries, k) {
        None => entries.push((k, v)),
        Some(i) => entries.update(i, (k, v)),
    }
}

/// One header line as parsed into an existing header collection: the
/// line must be valid UTF-8, the name and value split on the first
/// `": "`, a second `": "` in the value invalidates the line,
/// `Content-Length` must carry a non-negative 32-bit decimal, any
/// `Transfer-Encoding` is rejected, `Expect` must carry exactly
/// `100-continue`, and any other name is stored verbatim. Names are
/// compared without trimming, ignoring ASCII case only.
pub open spec fn parse_header_line_spec(h: HeadersV, line: Seq<u8>) -> Result<
    HeadersV,
    MessageError,
> {
    if !valid_utf8(line) {
        Err(MessageError::InvalidHeader)
    } else {
        match find_first(line, colon_sp()) {
            None => Err(MessageError::InvalidHeader),
            Some(i) => {
                let name = line.take(i);
                let value = line.skip(i + 2);
                if find_first(value, colon_sp()) is Some {
                    Err(MessageError::InvalidHeader)
                } else if lower(name) == lower(header_name_bytes(Header::ContentLength)) {
                    match content_length_value(trim_spec(value)) {
                        Some(n) => Ok(HeadersV { content_length: n, ..h }),
                        None => Err(MessageError::InvalidHeader),
                    }
                } else if lower(name) == lower(header_name_bytes(Header::TransferEncoding)) {
                    Err(MessageError::InvalidHeader)
                } else if lower(name) == lower(header_name_bytes(Header::Expect)) {
                    if trim_spec(value) == continue_bytes() {
                        Ok(HeadersV { expect: true, ..h })
                    } else {
                        Err(MessageError::InvalidHeader)
                    }
                } else if valid_utf8(name) && valid_utf8(value) {
                    Ok(HeadersV { entries: upsert(h.entries, name, value), ..h })
                } else {
                    // Splitting valid UTF-8 at the ASCII separator leaves
                    // valid parts; the check is what the executable
                    // storage step performs.
                    Err(MessageError::InvalidHeader)
                }
            },
        }
    }
}

/// A whole header block: it must be valid UTF-8 as the original request
/// text, then its lines parse one by one.
pub open spec fn parse_header_block(b: Seq<u8>) -> Result<HeadersV, MessageError> {
    if !valid_utf8(b) {
        Err(MessageError::InvalidRequest(RequestError::InvalidRequest))
    } else {
        parse_headers_from(headers_default(), b)
    }
}

/// A header block parsed line by line into `h`. Lines are separated by
/// CRLF; an empty line ends the block; `UnsupportedHeader` skips the line.
pub open spec fn parse_headers_from(h: HeadersV, b: Seq<u8>) -> Result<HeadersV, MessageError>
    decreases b.len(),
{
    let split = find_first(b, crlf());
    let line = match split {
        Some(i) => b.take(i),
        None => b,
    };
    if line.len() == 0 {
        Ok(h)
    } else {
        let step = match parse_header_line_spec(h, line) {
            Ok(h2) => Ok(h2),
            Err(MessageError::UnsupportedHeader) => Ok(h),
            Err(e) => Err(e),
        };
        match step {
            Err(e) => Err(e),
            Ok(h2) => match split {
                None => Ok(h2),
                Some(i) => if 0 <= i && i + 2 <= b.len() {
                    parse_headers_from(h2, b.skip(i + 2))
                } else {
                    // Dead branch: a found separator lies within the block.
                    Ok(h2)
                },
            },
        }
    }
}

/// The byte contribution of one stored header entry.
pub open spec fn entry_bytes(e: (Seq<u8>, Seq<u8>)) -> Seq<u8> {
    e.0 + colon_sp() + e.1 + crlf()
}

/// The byte contribution of the stored header entries, in order.
pub open spec fn entries_bytes(entries: Seq<(Seq<u8>, Seq<u8>)>) -> Seq<u8>
    decreases entries.len(),
{
    if entries.len() == 0 {
        Seq::empty()
    } else {
        entry_bytes(entries[0]) + entries_bytes(entries.drop_first())
    }
}

/// The serialized form of a header collection: stored entries first, then
/// `Content-Length` if positive, then the terminating empty line.
pub open spec fn headers_block_bytes(h: HeadersV) -> Seq<u8> {
    entries_bytes(h.entries) + (if h.content_length > 0 {
        header_name_bytes(Header::ContentLength) + colon_sp() + dec_bytes(h.content_length)
            + crlf()
    } else {
        Seq::<u8>::empty()
    }) + crlf()
}

/// Appending an entry extends the serialized entries by its bytes.
pub proof fn lemma_entries_bytes_push(entries: Seq<(Seq<u8>, Seq<u8>)>, e: (Seq<u8>, Seq<u8>))
    ensures
        entries_bytes(entries.push(e)) == entries_bytes(entries) + entry_bytes(e),
    decreases entries.len(),
{
    if entries.len() == 0 {
        assert(entries.push(e)[0] == e);
        assert(entries.push(e).drop_first() =~= Seq::<(Seq<u8>, Seq<u8>)>::empty());
        assert(entries_bytes(entries.push(e).drop_first()) =~= Seq::<u8>::empty());
        assert(entries_bytes(entries.push(e)) =~= entry_bytes(e) + Seq::<u8>::empty());
        assert(entry_bytes(e) + Seq::<u8>::empty() =~= entry_bytes(e));
        assert(entries_bytes(entries) =~= Seq::<u8>::empty());
        assert(entries_bytes(entries) + entry_bytes(e) =~= entry_bytes(e));
    } else {
        assert(entries.push(e).drop_first() =~= entries.drop_first().push(e));
        lemma_entries_bytes_push(entries.drop_first(), e);
        assert(entries_bytes(entries.push(e)) == entry_bytes(entries[0]) + (entries_bytes(
            entries.drop_first(),
        ) + entry_bytes(e)));
        assert(entry_bytes(entries[0]) + (entries_bytes(entries.drop_first()) + entry_bytes(e))
            =~= (entry_bytes(entries[0]) + entries_bytes(entries.drop_first())) + entry_bytes(e));
    }
}

/// The list of headers of an HTTP request or response.
///
/// The `Content-Length` of the body is tracked in a dedicated field so it
/// can be written without a lookup; `Expect: 100-continue` is tracked as a
/// flag; every other header is stored verbatim and does not drive
/// behavior.
#[derive(Clone, Debug, PartialEq)]
pub struct Headers {
    content_length: i32,
    expect: bool,
    map: Vec<(String, String)>,
}

impl View for Headers {
    type V = HeadersV;

    closed spec fn view(&self) -> HeadersV {
        HeadersV {
            content_length: self.content_length as int,
            expect: self.expect,
            entries: Seq::new(
                self.map@.len(),
                |i: int| (string_bytes(self.map@[i].0@), string_bytes(self.map@[i].1@)),
            ),
        }
    }
}

impl Default for Headers {
    /// Headers with no entries, content length zero and no expectation.
    fn default() -> (r: Headers)
        ensures
            r@ == headers_default(),
    {
        let r = Headers { content_length: 0, expect: false, map: Vec::new() };
        assert(r@.entries =~= headers_default().entries);
        assert(r@ =~= headers_default());
        r
    }
}

impl Headers {
    /// Returns the content length of the body.
    pub fn content_length(&self) -> (r: i32)
        ensures
            r == self@.content_length,
    {
        self.content_length
    }

    /// Whether the headers carry `Expect: 100-continue`.
    pub fn expect_continue(&self) -> (r: bool)
        ensures
            r == self@.expect,
    {
        self.expect
    }

    /// Sets the tracked content length.
    pub(crate) fn set_content_length(&mut self, n: i32)
        ensures
            final(self)@ == (HeadersV { content_length: n as int, ..old(self)@ }),
    {
        self.content_length = n;
        assert(final(self)@.entries =~= old(self)@.entries);
    }

    /// The stored value under the exact name `key`, if any.
    pub fn header_line(&self, key: &str) -> (r: Option<&String>)
        ensures
            match r {
                Some(v) => {
                    &&& find_key(self@.entries, string_bytes(key@)) is Some
                    &&& string_bytes(v@) == self@.entries[find_key(
                        self@.entries,
                        string_bytes(key@),
                    )->Some_0].1
                },
                None => find_key(self@.entries, string_bytes(key@)) is None,
            },
    {
        let kb = key.as_bytes();
        let mut i: usize = 0;
        while i < self.map.len()
            invariant
                0 <= i <= self.map@.len(),
                kb@ == string_bytes(key@),
                forall|j: int| 0 <= j < i ==> (#[trigger] self@.entries[j]).0 != kb@,
            decreases self.map@.len() - i,
        {
            let entry = &self.map[i];
            if bytes_eq(entry.0.as_str().as_bytes(), kb) {
                proof {
                    lemma_find_key_is(self@.entries, kb@, i as int);
                }
                return Some(&self.map[i].1);
            }
            i = i + 1;
        }
        proof {
            lemma_find_key(self@.entries, kb@);
            if find_key(self@.entries, kb@) is Some {
                let w = find_key(self@.entries, kb@)->Some_0;
                assert(self@.entries[w].0 != kb@);
            }
        }
        None
    }

    /// Stores `value` under `key`, replacing the first entry with exactly
    /// that name if one exists.
    pub fn add_header_line(&mut self, key: String, value: String)
        ensures
            final(self)@ == (HeadersV {
                entries: upsert(old(self)@.entries, string_bytes(key@), string_bytes(value@)),
                ..old(self)@
            }),
    {
        let ghost kb = string_bytes(key@);
        let ghost vb = string_bytes(value@);
        let ghost entries0 = self@.entries;
        let mut i: usize = 0;
        let n = self.map.len();
        while i < n
            invariant
                0 <= i <= n == self.map@.len(),
                kb == string_bytes(key@),
                vb == string_bytes(value@),
                entries0 == self@.entries,
                *self == *old(self),
                forall|j: int| 0 <= j < i ==> (#[trigger] entries0[j]).0 != kb,
            decreases n - i,
        {
            let hit = bytes_eq(self.map[i].0.as_str().as_bytes(), key.as_str().as_bytes());
            if hit {
                proof {
                    lemma_find_key_is(entries0, kb, i as int);
                }
                self.map.set(i, (key, value));
                assert(self@.entries =~= upsert(entries0, kb, vb));
                return ;
            }
            i = i + 1;
        }
        proof {
            lemma_find_key(entries0, kb);
            if find_key(entries0, kb) is Some {
                let w = find_key(entries0, kb)->Some_0;
                assert(entries0[w].0 != kb);
            }
        }
        self.map.push((key, value));
        assert(self@.entries =~= upsert(entries0, kb, vb));
    }

    /// Expects one header line and parses it, updating the header
    /// structure, or returns an error if the header is invalid.
    ///
    /// # Errors
    /// `UnsupportedHeader` is returned when the parsed header line is not
    /// of interest. `InvalidHeader` is returned when the line is not
    /// valid UTF-8, is formatted incorrectly, or uses HTTP features that
    /// this implementation does not support, which invalidates the
    /// request.
    pub fn parse_header_line(&mut self, header_line: &[u8]) -> (r: Result<(), MessageError>)
        ensures
            match r {
                Ok(()) => parse_header_line_spec(old(self)@, header_line@) == Ok::<
                    HeadersV,
                    MessageError,
                >(final(self)@),
                Err(e) => parse_header_line_spec(old(self)@, header_line@) == Err::<
                    HeadersV,
                    MessageError,
                >(e) && *final(self) == *old(self),
            },
    {
        if utf8_to_string(header_line).is_none() {
            return Err(MessageError::InvalidHeader);
        }
        let mut sep: Vec<u8> = Vec::new();
        sep.push(58);
        sep.push(32);
        assert(sep@ =~= colon_sp());
        let found = find(header_line, sep.as_slice());
        match found {
            None => Err(MessageError::InvalidHeader),
            Some(i) => {
                proof {
                    lemma_find_first(header_line@, colon_sp());
                }
                let hl_len = header_line.len();
                assert(i + 2 <= hl_len);
                let name = vstd::slice::slice_subrange(header_line, 0, i);
                let value = vstd::slice::slice_subrange(header_line, i + 2, hl_len);
                assert(name@ == header_line@.take(i as int));
                assert(value@ == header_line@.skip(i + 2));
                if find(value, sep.as_slice()).is_some() {
                    return Err(MessageError::InvalidHeader);
                }
                if eq_ignore_case(name, Header::ContentLength.raw().as_slice()) {
                    match parse_content_length(trim(value)) {
                        Some(n) => {
                            self.content_length = n;
                            assert(final(self)@.entries =~= old(self)@.entries);
                            Ok(())
                        },
                        None => Err(MessageError::InvalidHeader),
                    }
                } else if eq_ignore_case(name, Header::TransferEncoding.raw().as_slice()) {
                    Err(MessageError::InvalidHeader)
                } else if eq_ignore_case(name, Header::Expect.raw().as_slice()) {
                    let mut cont: Vec<u8> = Vec::new();
                    cont.push(49);
                    cont.push(48);
                    cont.push(48);
                    cont.push(45);
                    cont.push(99);
                    cont.push(111);
                    cont.push(110);
                    cont.push(116);
                    cont.push(105);
                    cont.push(110);
                    cont.push(117);
                    cont.push(101);
                    assert(cont@ =~= continue_bytes());
                    if bytes_eq(trim(value), cont.as_slice()) {
                        self.expect = true;
                        assert(final(self)@.entries =~= old(self)@.entries);
                        Ok(())
                    } else {
                        Err(MessageError::InvalidHeader)
                    }
                } else {
                    match (utf8_to_string(name), utf8_to_string(value)) {
                        (Some(key_s), Some(value_s)) => {
                            self.add_header_line(key_s, value_s);
                            Ok(())
                        },
                        _ => Err(MessageError::InvalidHeader),
                    }
                }
            },
        }
    }

    /// Parses a byte slice into a `Headers` structure for an HTTP request.
    ///
    /// The block must be valid UTF-8; there can be any number of header
    /// lines, separated by CRLF and ended by an empty line.
    ///
    /// # Errors
    /// Returns `InvalidRequest` when the block is not valid UTF-8 and
    /// `InvalidHeader` when parsing a line fails.
    pub fn try_from(bytes: &[u8]) -> (r: Result<Headers, MessageError>)
        ensures
            match r {
                Ok(h) => parse_header_block(bytes@) == Ok::<HeadersV, MessageError>(h@),
                Err(e) => parse_header_block(bytes@) == Err::<HeadersV, MessageError>(e),
            },
    {
        if utf8_to_string(bytes).is_none() {
            return Err(MessageError::InvalidRequest(RequestError::InvalidRequest));
        }
        let mut headers = Headers::default();
        let mut pos: usize = 0;
        let mut sep: Vec<u8> = Vec::new();
        sep.push(CR);
        sep.push(LF);
        assert(sep@ =~= crlf());
        assert(bytes@.skip(0) =~= bytes@);
        loop
            invariant
                0 <= pos <= bytes@.len(),
                sep@ == crlf(),
                valid_utf8(bytes@),
                parse_headers_from(headers_default(), bytes@) == parse_headers_from(
                    headers@,
                    bytes@.skip(pos as int),
                ),
            decreases bytes@.len() - pos,
        {
            let rest = vstd::slice::slice_subrange(bytes, pos, bytes.len());
            assert(rest@ == bytes@.skip(pos as int));
            let split = find(rest, sep.as_slice());
            proof {
                lemma_find_first(rest@, crlf());
            }
            let (line_end, next_pos, has_more): (usize, usize, bool) = match split {
                Some(i) => (i, pos + i + 2, true),
                None => (rest.len(), bytes.len(), false),
            };
            let line = vstd::slice::slice_subrange(bytes, pos, pos + line_end);
            assert(line@ =~= match find_first(rest@, crlf()) {
                Some(i) => rest@.take(i),
                None => rest@,
            });
            if line.len() == 0 {
                return Ok(headers);
            }
            let step = headers.parse_header_line(line);
            match step {
                Ok(()) => {},
                Err(MessageError::UnsupportedHeader) => {},
                Err(e) => {
                    return Err(e);
                },
            }
            if !has_more {
                return Ok(headers);
            }
            assert(bytes@.skip(pos as int).skip(line_end + 2) =~= bytes@.skip(next_pos as int));
            pos = next_pos;
        }
    }

    /// Serializes the headers onto the end of `buf`: stored entries first,
    /// then `Content-Length` if positive, then the terminating empty line.
    pub fn write_all(&self, buf: &mut Vec<u8>)
        ensures
            final(buf)@ == old(buf)@ + headers_block_bytes(self@),
    {
        let ghost entries = self@.entries;
        let n = self.map.len();
        let mut i: usize = 0;
        while i < n
            invariant
                0 <= i <= n == self.map@.len(),
                entries == self@.entries,
                buf@ == old(buf)@ + entries_bytes(entries.take(i as int)),
            decreases n - i,
        {
            let entry = &self.map[i];
            buf.extend_from_slice(entry.0.as_str().as_bytes());
            buf.push(58);
            buf.push(32);
            buf.extend_from_slice(entry.1.as_str().as_bytes());
            buf.push(CR);
            buf.push(LF);
            proof {
                assert(entries.take(i + 1).drop_last() =~= entries.take(i as int));
                assert(entries.take(i + 1).last() == entries[i as int]);
                lemma_entries_bytes_take_step(entries, i as int);
                assert(buf@ =~= old(buf)@ + entries_bytes(entries.take(i + 1)));
            }
            i = i + 1;
        }
        assert(entries.take(n as int) =~= entries);
        if self.content_length > 0 {
            let name = Header::ContentLength.raw();
            buf.extend_from_slice(name.as_slice());
            buf.push(58);
            buf.push(32);
            push_dec(self.content_length as u32, buf);
            buf.push(CR);
            buf.push(LF);
        }
        buf.push(CR);
        buf.push(LF);
        assert(final(buf)@ =~= old(buf)@ + headers_block_bytes(self@));
    }
}


/// A trailing CRLF changes nothing: the block either ended at an earlier
/// empty line, or its last line simply gains its terminator.
pub proof fn lemma_parse_headers_crlf_ext(h: HeadersV, x: Seq<u8>)
    ensures
        parse_headers_from(h, x + crlf()) == parse_headers_from(h, x),
    decreases x.len(),
{
    let xc = x + crlf();
    match find_first(x, crlf()) {
        Some(i) => {
            lemma_find_first(x, crlf());
            lemma_find_first_extend(x, crlf(), crlf());
            assert(xc.take(i) =~= x.take(i));
            let line = x.take(i);
            if line.len() == 0 {
            } else {
                match parse_header_line_spec(h, line) {
                    Ok(h2) => {
                        assert(xc.skip(i + 2) =~= x.skip(i + 2) + crlf());
                        lemma_parse_headers_crlf_ext(h2, x.skip(i + 2));
                    },
                    Err(MessageError::UnsupportedHeader) => {
                        assert(xc.skip(i + 2) =~= x.skip(i + 2) + crlf());
                        lemma_parse_headers_crlf_ext(h, x.skip(i + 2));
                    },
                    Err(e) => {},
                }
            }
        },
        None => {
            lemma_find_first(x, crlf());
            assert(occurs_at(xc, crlf(), x.len() as int)) by {
                assert(xc.subrange(x.len() as int, x.len() as int + 2) =~= crlf());
            }
            assert forall|j: int| 0 <= j < x.len() implies !occurs_at(xc, crlf(), j) by {
                if j + 2 <= x.len() {
                    assert(!occurs_at(x, crlf(), j));
                    if xc.subrange(j, j + 2) == crlf() {
                        assert(x.subrange(j, j + 2) =~= xc.subrange(j, j + 2));
                    }
                } else {
                    // The window straddles the boundary: its second byte
                    // is the CR of the appended terminator, not an LF.
                    if xc.subrange(j, j + 2) == crlf() {
                        assert(xc.subrange(j, j + 2)[1] == LF);
                        assert(xc[j + 1] == CR);
                    }
                }
            }
            lemma_find_first_is(xc, crlf(), x.len() as int);
            assert(xc.take(x.len() as int) =~= x);
            if x.len() == 0 {
            } else {
                match parse_header_line_spec(h, x) {
                    Ok(h2) => {
                        assert(xc.skip(x.len() as int + 2) =~= Seq::<u8>::empty());
                        assert(find_first(Seq::<u8>::empty(), crlf()) is None);
                        assert(parse_headers_from(h2, Seq::<u8>::empty()) == Ok::<
                            HeadersV,
                            MessageError,
                        >(h2));
                    },
                    Err(MessageError::UnsupportedHeader) => {
                        assert(xc.skip(x.len() as int + 2) =~= Seq::<u8>::empty());
                        assert(find_first(Seq::<u8>::empty(), crlf()) is None);
                        assert(parse_headers_from(h, Seq::<u8>::empty()) == Ok::<
                            HeadersV,
                            MessageError,
                        >(h));
                    },
                    Err(e) => {},
                }
            }
        },
    }
}

/// The bytes of one stored header line, without its terminator.
pub open spec fn entry_line(e: (Seq<u8>, Seq<u8>)) -> Seq<u8> {
    e.0 + colon_sp() + e.1
}

/// What must hold of a stored header entry for its serialized line to
/// parse back to exactly the same entry: name and value are ASCII with no
/// CR, LF or `": "` inside, and the name is none of the names that drive
/// behavior.
pub open spec fn entry_wf(e: (Seq<u8>, Seq<u8>)) -> bool {
    &&& all_ascii(e.0)
    &&& all_ascii(e.1)
    &&& (forall|i: int| 0 <= i < e.0.len() ==> #[trigger] e.0[i] != CR && e.0[i] != LF)
    &&& (forall|i: int| 0 <= i < e.1.len() ==> #[trigger] e.1[i] != CR && e.1[i] != LF)
    &&& find_first(e.0, colon_sp()) is None
    &&& find_first(e.1, colon_sp()) is None
    &&& lower(e.0) != lower(header_name_bytes(Header::ContentLength))
    &&& lower(e.0) != lower(header_name_bytes(Header::TransferEncoding))
    &&& lower(e.0) != lower(header_name_bytes(Header::Expect))
}

/// A well-formed stored entry's line parses back to storing that entry.
pub proof fn lemma_parse_stored_line(h: HeadersV, e: (Seq<u8>, Seq<u8>))
    requires
        entry_wf(e),
    ensures
        parse_header_line_spec(h, entry_line(e)) == Ok::<HeadersV, MessageError>(
            HeadersV { entries: upsert(h.entries, e.0, e.1), ..h },
        ),
{
    let line = entry_line(e);
    let nl = e.0.len() as int;
    assert(all_ascii(line)) by {
        assert(forall|i: int| 0 <= i < nl ==> line[i] == #[trigger] e.0[i]);
        assert(line[nl] == 58 && line[nl + 1] == 32);
        assert(forall|i: int|
            nl + 2 <= i < line.len() ==> line[i] == #[trigger] e.1[i - nl - 2]);
    }
    lemma_ascii_valid_utf8(line);
    lemma_ascii_valid_utf8(e.0);
    lemma_ascii_valid_utf8(e.1);
    assert(occurs_at(line, colon_sp(), nl)) by {
        assert(line.subrange(nl, nl + 2) =~= colon_sp());
    }
    lemma_find_first(e.0, colon_sp());
    assert forall|j: int| 0 <= j < nl implies !occurs_at(line, colon_sp(), j) by {
        if j + 2 <= nl {
            assert(!occurs_at(e.0, colon_sp(), j));
            if line.subrange(j, j + 2) == colon_sp() {
                assert(e.0.subrange(j, j + 2) =~= line.subrange(j, j + 2));
            }
        } else {
            // The window straddles the name's end: its second byte is the
            // colon of the separator, not the space.
            if line.subrange(j, j + 2) == colon_sp() {
                assert(line.subrange(j, j + 2)[1] == 32);
                assert(line[j + 1] == 58);
            }
        }
    }
    lemma_find_first_is(line, colon_sp(), nl);
    assert(line.take(nl) =~= e.0);
    assert(line.skip(nl + 2) =~= e.1);
}


/// A block of well-formed stored entries with names not yet present
/// parses back to appending exactly those entries, and hands whatever
/// follows the block to the rest of the parse.
pub proof fn lemma_parse_entry_block(h: HeadersV, entries: Seq<(Seq<u8>, Seq<u8>)>, t: Seq<u8>)
    requires
        forall|i: int| 0 <= i < entries.len() ==> entry_wf(#[trigger] entries[i]),
        forall|i: int| 0 <= i < entries.len() ==> find_key(h.entries, (#[trigger] entries[i]).0) is None,
        forall|i: int, j: int|
            0 <= i < j < entries.len() ==> (#[trigger] entries[i]).0 != (#[trigger] entries[j]).0,
    ensures
        parse_headers_from(h, entries_bytes(entries) + t) == parse_headers_from(
            HeadersV { entries: h.entries + entries, ..h },
            t,
        ),
    decreases entries.len(),
{
    if entries.len() == 0 {
        assert(entries_bytes(entries) + t =~= t);
        assert(h.entries + entries =~= h.entries);
        assert(HeadersV { entries: h.entries + entries, ..h } == h);
    } else {
        let e0 = entries[0];
        assert(entry_wf(e0));
        let line0 = entry_line(e0);
        let ln = line0.len() as int;
        let rest_bytes = entries_bytes(entries.drop_first()) + t;
        let x = entries_bytes(entries) + t;
        assert(x =~= line0 + crlf() + rest_bytes);
        assert(occurs_at(x, crlf(), ln)) by {
            assert(x.subrange(ln, ln + 2) =~= crlf());
        }
        assert forall|j: int| 0 <= j < ln implies !occurs_at(x, crlf(), j) by {
            if x.subrange(j, j + 2) == crlf() {
                assert(x.subrange(j, j + 2)[0] == CR);
                assert(x[j] == line0[j]);
                assert(line0[j] != CR) by {
                    lemma_entry_line_bytes(e0, j);
                }
            }
        }
        lemma_find_first_is(x, crlf(), ln);
        assert(x.take(ln) =~= line0);
        assert(line0.len() > 0);
        lemma_parse_stored_line(h, e0);
        lemma_find_key(h.entries, e0.0);
        assert(upsert(h.entries, e0.0, e0.1) == h.entries.push(e0)) by {
            assert((e0.0, e0.1) == e0);
        }
        let h2 = HeadersV { entries: h.entries.push(e0), ..h };
        assert(x.skip(ln + 2) =~= rest_bytes);
        assert forall|i: int|
            0 <= i < entries.drop_first().len() implies find_key(
            h2.entries,
            (#[trigger] entries.drop_first()[i]).0,
        ) is None by {
            let e = entries.drop_first()[i];
            assert(e == entries[i + 1]);
            assert(find_key(h.entries, e.0) is None);
            lemma_find_key(h.entries, e.0);
            assert(e.0 != e0.0);
            lemma_find_key(h2.entries, e.0);
            if find_key(h2.entries, e.0) is Some {
                let w = find_key(h2.entries, e.0)->Some_0;
                assert(h2.entries[w].0 == e.0);
                if w < h.entries.len() {
                    assert(h.entries[w].0 == e.0);
                } else {
                    assert(h2.entries[w] == e0);
                }
            }
        }
        assert forall|i: int, j: int|
            0 <= i < j < entries.drop_first().len() implies (#[trigger] entries.drop_first()[i]).0
            != (#[trigger] entries.drop_first()[j]).0 by {
            assert(entries.drop_first()[i] == entries[i + 1]);
            assert(entries.drop_first()[j] == entries[j + 1]);
        }
        assert forall|i: int| 0 <= i < entries.drop_first().len() implies entry_wf(
            #[trigger] entries.drop_first()[i],
        ) by {
            assert(entries.drop_first()[i] == entries[i + 1]);
        }
        lemma_parse_entry_block(h2, entries.drop_first(), t);
        assert(h2.entries + entries.drop_first() =~= h.entries + entries);
    }
}

/// No byte of a well-formed entry's line is a CR or an LF.
pub proof fn lemma_entry_line_bytes(e: (Seq<u8>, Seq<u8>), j: int)
    requires
        entry_wf(e),
        0 <= j < entry_line(e).len(),
    ensures
        entry_line(e)[j] != CR && entry_line(e)[j] != LF,
{
    let nl = e.0.len() as int;
    if j < nl {
        assert(entry_line(e)[j] == e.0[j]);
    } else if j < nl + 2 {
        assert(entry_line(e)[j] == colon_sp()[j - nl]);
    } else {
        assert(entry_line(e)[j] == e.1[j - nl - 2]);
    }
}

/// The serialized `Content-Length` line parses back to setting exactly
/// that value.
pub proof fn lemma_parse_cl_line(h: HeadersV, cl: int)
    requires
        0 < cl <= 0x7fff_ffff,
    ensures
        parse_headers_from(h, header_name_bytes(Header::ContentLength) + colon_sp() + dec_bytes(cl))
            == Ok::<HeadersV, MessageError>(HeadersV { content_length: cl, ..h }),
{
    let name = header_name_bytes(Header::ContentLength);
    let digits = dec_bytes(cl);
    let line = name + colon_sp() + digits;
    lemma_dec_round_trip(cl);
    assert(forall|i: int|
        0 <= i < name.len() ==> #[trigger] name[i] != CR && name[i] != LF && name[i] != 58
            && name[i] < 128 && !crate::ascii::is_ws(name[i]));
    assert(forall|i: int|
        0 <= i < digits.len() ==> 48 <= #[trigger] digits[i] <= 57);
    assert forall|j: int| !occurs_at(line, crlf(), j) by {
        if 0 <= j && j + 2 <= line.len() {
            if line.subrange(j, j + 2) == crlf() {
                assert(line.subrange(j, j + 2)[0] == CR);
                if j < name.len() {
                    assert(line[j] == name[j]);
                } else if j < name.len() + 2 {
                    assert(line[j] == colon_sp()[j - name.len()]);
                } else {
                    assert(line[j] == digits[j - name.len() - 2]);
                }
            }
        }
    }
    lemma_find_first(line, crlf());
    if find_first(line, crlf()) is Some {
        assert(occurs_at(line, crlf(), find_first(line, crlf())->Some_0));
    }
    assert(all_ascii(line)) by {
        assert(forall|i: int| 0 <= i < name.len() ==> line[i] == #[trigger] name[i]);
        assert(line[name.len() as int] == 58 && line[name.len() as int + 1] == 32);
        assert(forall|i: int|
            name.len() + 2 <= i < line.len() ==> line[i] == #[trigger] digits[i - name.len()
                - 2]);
    }
    lemma_ascii_valid_utf8(line);
    let nl = name.len() as int;
    assert(occurs_at(line, colon_sp(), nl)) by {
        assert(line.subrange(nl, nl + 2) =~= colon_sp());
    }
    assert forall|j: int| 0 <= j < nl implies !occurs_at(line, colon_sp(), j) by {
        if line.subrange(j, j + 2) == colon_sp() {
            assert(line.subrange(j, j + 2)[0] == 58);
            assert(line[j] == name[j]);
        }
    }
    lemma_find_first_is(line, colon_sp(), nl);
    assert(line.take(nl) =~= name);
    assert(line.skip(nl + 2) =~= digits);
    assert forall|j: int| !occurs_at(digits, colon_sp(), j) by {
        if 0 <= j && j + 2 <= digits.len() {
            if digits.subrange(j, j + 2) == colon_sp() {
                assert(digits.subrange(j, j + 2)[0] == 58);
            }
        }
    }
    lemma_find_first(digits, colon_sp());
    if find_first(digits, colon_sp()) is Some {
        assert(occurs_at(digits, colon_sp(), find_first(digits, colon_sp())->Some_0));
    }
    // The canonical name folds to itself in lower case.
    assert(lower(name) == lower(header_name_bytes(Header::ContentLength)));
    assert(trim_spec(digits) == digits) by {
        assert(!crate::ascii::is_ws(digits[0]));
        assert(!crate::ascii::is_ws(digits.last()));
    }
    assert(content_length_value(trim_spec(digits)) == Some(cl));
    assert(parse_header_line_spec(h, line) == Ok::<HeadersV, MessageError>(
        HeadersV { content_length: cl, ..h },
    ));
    assert(line.len() > 0);
}

/// A header line parse leaves a non-negative content length in place.
pub proof fn lemma_parse_header_line_cl_nonneg(h: HeadersV, line: Seq<u8>)
    requires
        h.content_length >= 0,
        parse_header_line_spec(h, line) is Ok,
    ensures
        (parse_header_line_spec(h, line)->Ok_0).content_length >= 0,
{
    if valid_utf8(line) {
        match find_first(line, colon_sp()) {
            None => {},
            Some(i) => {
                let value = line.skip(i + 2);
                crate::ascii::lemma_content_length_value_nonneg(trim_spec(value));
            },
        }
    }
}

/// Serializing one more entry appends that entry's bytes.
proof fn lemma_entries_bytes_take_step(entries: Seq<(Seq<u8>, Seq<u8>)>, i: int)
    requires
        0 <= i < entries.len(),
    ensures
        entries_bytes(entries.take(i + 1)) == entries_bytes(entries.take(i)) + entry_bytes(
            entries[i],
        ),
{
    assert(entries.take(i + 1) =~= entries.take(i).push(entries[i]));
    lemma_entries_bytes_push(entries.take(i), entries[i]);
}

/// Wrapper over supported media types.
#[derive(Clone, Copy, Debug, PartialEq, Eq, Structural)]
pub enum MediaType {
    /// Media type `text/plain`.
    PlainText,
    /// Media type `application/json`.
    ApplicationJson,
}

/// The wire representation of a media type.
pub open spec fn media_type_bytes(m: MediaType) -> Seq<u8> {
    match m {
        // text/plain
        MediaType::PlainText => seq![
            116u8, 101u8, 120u8, 116u8, 47u8, 112u8, 108u8, 97u8, 105u8, 110u8,
        ],
        // application/json
        MediaType::ApplicationJson => seq![
            97u8, 112u8, 112u8, 108u8, 105u8, 99u8, 97u8, 116u8, 105u8, 111u8, 110u8, 47u8,
            106u8, 115u8, 111u8, 110u8,
        ],
    }
}

/// The media type that `b` names after trimming, if any.
pub open spec fn parse_media_type(b: Seq<u8>) -> Option<MediaType> {
    if trim_spec(b) == media_type_bytes(MediaType::PlainText) {
        Some(MediaType::PlainText)
    } else if trim_spec(b) == media_type_bytes(MediaType::ApplicationJson) {
        Some(MediaType::ApplicationJson)
    } else {
        None
    }
}

impl Default for MediaType {
    /// The default media type, `application/json`.
    fn default() -> (r: MediaType)
        ensures
            r == MediaType::ApplicationJson,
    {
        MediaType::ApplicationJson
    }
}

impl MediaType {
    /// The wire bytes corresponding to the media type.
    pub fn raw(self) -> (r: Vec<u8>)
        ensures
            r@ == media_type_bytes(self),
    {
        let mut v: Vec<u8> = Vec::new();
        match self {
            MediaType::PlainText => {
                v.push(116);
                v.push(101);
                v.push(120);
                v.push(116);
                v.push(47);
                v.push(112);
                v.push(108);
                v.push(97);
                v.push(105);
                v.push(110);
            },
            MediaType::ApplicationJson => {
                v.push(97);
                v.push(112);
                v.push(112);
                v.push(108);
                v.push(105);
                v.push(99);
                v.push(97);
                v.push(116);
                v.push(105);
                v.push(111);
                v.push(110);
                v.push(47);
                v.push(106);
                v.push(115);
                v.push(111);
                v.push(110);
            },
        }
        assert(v@ =~= media_type_bytes(self));
        v
    }

    /// Parses a byte slice into a `MediaType`. The name is trimmed before
    /// the comparison.
    ///
    /// # Errors
    /// Returns `InvalidRequest` when the media type is unsupported.
    pub fn try_from(bytes: &[u8]) -> (r: Result<MediaType, MessageError>)
        ensures
            match r {
                Ok(m) => parse_media_type(bytes@) == Some(m),
                Err(e) => parse_media_type(bytes@) is None && e == MessageError::InvalidRequest(
                    RequestError::InvalidRequest,
                ),
            },
    {
        let t = trim(bytes);
        if bytes_eq(t, MediaType::PlainText.raw().as_slice()) {
            Ok(MediaType::PlainText)
        } else if bytes_eq(t, MediaType::ApplicationJson.raw().as_slice()) {
            Ok(MediaType::ApplicationJson)
        } else {
            Err(MessageError::InvalidRequest(RequestError::InvalidRequest))
        }
    }

    /// A static string representation of the media type.
    pub fn as_str(self) -> (r: &'static str)
        ensures
            string_bytes(r@) == media_type_bytes(self),
    {
        match self {
            MediaType::PlainText => {
                let s = "text/plain";
                proof {
                    lemma_str_bytes_text_plain(s);
                }
                s
            },
            MediaType::ApplicationJson => {
                let s = "application/json";
                proof {
                    lemma_str_bytes_application_json(s);
                }
                s
            },
        }
    }
}

proof fn lemma_str_bytes_text_plain(s: &str)
    requires
        s@ == "text/plain"@,
    ensures
        string_bytes(s@) == media_type_bytes(MediaType::PlainText),
{
    reveal_strlit("text/plain");
    assert(s@ =~= seq!['t', 'e', 'x', 't', '/', 'p', 'l', 'a', 'i', 'n']);
    vstd::utf8::is_ascii_chars_encode_utf8(s@);
    assert(string_bytes(s@) =~= media_type_bytes(MediaType::PlainText));
}

proof fn lemma_str_bytes_application_json(s: &str)
    requires
        s@ == "application/json"@,
    ensures
        string_bytes(s@) == media_type_bytes(MediaType::ApplicationJson),
{
    reveal_strlit("application/json");
    assert(s@ =~= seq![
        'a', 'p', 'p', 'l', 'i', 'c', 'a', 't', 'i', 'o', 'n', '/', 'j', 's', 'o', 'n',
    ]);
    vstd::utf8::is_ascii_chars_encode_utf8(s@);
    assert(string_bytes(s@) =~= media_type_bytes(MediaType::ApplicationJson));
}

} // verus!
