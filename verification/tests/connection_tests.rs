use std::cell::RefCell;
use std::rc::Rc;

use vstd::seq::Seq;

use micro_http::server::ClientConnection;
use micro_http::{
    ByteStream, ConnectionError, HttpConnection, MessageError, Method, ReadOutcome, RequestError,
    Response, StatusCode, Version, WriteOutcome,
};

#[derive(Default)]
struct Shared {
    input: Vec<u8>,
    pos: usize,
    closed: bool,
    written: Vec<u8>,
    chunk: usize,
}

#[derive(Clone)]
struct PipeStream(Rc<RefCell<Shared>>);

impl PipeStream {
    fn new() -> PipeStream {
        PipeStream(Rc::new(RefCell::new(Shared { chunk: 1024, ..Shared::default() })))
    }

    fn with_chunk(chunk: usize) -> PipeStream {
        PipeStream(Rc::new(RefCell::new(Shared { chunk, ..Shared::default() })))
    }

    fn push_input(&self, bytes: &[u8]) {
        self.0.borrow_mut().input.extend_from_slice(bytes);
    }

    fn close(&self) {
        self.0.borrow_mut().closed = true;
    }

    fn written(&self) -> Vec<u8> {
        self.0.borrow().written.clone()
    }
}

impl ByteStream for PipeStream {
    fn recv_log(&self) -> Seq<u8> {
        unreachable!()
    }

    fn sent_log(&self) -> Seq<u8> {
        unreachable!()
    }

    fn read_chunk(&mut self) -> ReadOutcome {
        let mut s = self.0.borrow_mut();
        if s.pos < s.input.len() {
            let end = (s.pos + s.chunk).min(s.input.len());
            let bytes = s.input[s.pos..end].to_vec();
            s.pos = end;
            ReadOutcome::Data(bytes)
        } else if s.closed {
            ReadOutcome::Closed
        } else {
            ReadOutcome::WouldBlock
        }
    }

    fn write_chunk(&mut self, buf: &[u8]) -> WriteOutcome {
        if buf.is_empty() {
            return WriteOutcome::WouldBlock;
        }
        self.0.borrow_mut().written.extend_from_slice(buf);
        WriteOutcome::Wrote(buf.len())
    }
}

const REQUEST: &[u8] = b"PATCH /machine-config HTTP/1.1\r\nContent-Length: 13\r\nContent-Type: application/json\r\n\r\nwhatever body";

fn drain_requests(conn: &mut HttpConnection<PipeStream>) -> Vec<micro_http::Request> {
    let mut out = Vec::new();
    while let Some(request) = conn.pop_parsed_request() {
        out.push(request);
    }
    out
}

#[test]
fn test_connection_parses_a_request() {
    let stream = PipeStream::new();
    stream.push_input(REQUEST);
    let mut conn = HttpConnection::new(stream.clone());
    conn.try_read().unwrap();
    let requests = drain_requests(&mut conn);
    assert_eq!(requests.len(), 1);
    assert_eq!(requests[0].method(), Method::Patch);
    assert_eq!(requests[0].uri().get_abs_path(), "/machine-config");
    assert_eq!(
        requests[0].body.as_ref().unwrap().as_stream().as_slice(),
        b"whatever body"
    );
    assert!(!conn.pending_write());
}

#[test]
fn test_connection_incremental_parse_matches_whole_parse() {
    // Feeding the same bytes one at a time yields the same requests, in
    // the same order, as feeding them all at once.
    let mut wire: Vec<u8> = Vec::new();
    wire.extend_from_slice(REQUEST);
    wire.extend_from_slice(b"GET /machine-config HTTP/1.1\r\nContent-Length: 20\r\n\r\nwhatever second body");

    let whole = PipeStream::new();
    whole.push_input(&wire);
    let mut whole_conn = HttpConnection::new(whole);
    whole_conn.try_read().unwrap();
    let all_at_once = drain_requests(&mut whole_conn);

    let trickle = PipeStream::with_chunk(1);
    trickle.push_input(&wire);
    let mut trickle_conn = HttpConnection::new(trickle);
    let mut byte_by_byte = Vec::new();
    for _ in 0..wire.len() {
        trickle_conn.try_read().unwrap();
        byte_by_byte.append(&mut drain_requests(&mut trickle_conn));
    }

    assert_eq!(all_at_once.len(), 2);
    assert_eq!(byte_by_byte.len(), 2);
    assert_eq!(all_at_once, byte_by_byte);
    assert_eq!(all_at_once[0].method(), Method::Patch);
    assert_eq!(all_at_once[1].method(), Method::Get);
    assert_eq!(
        all_at_once[1].body.as_ref().unwrap().as_stream().as_slice(),
        b"whatever second body"
    );
}

#[test]
fn test_connection_expect_continue_before_body() {
    let stream = PipeStream::new();
    stream.push_input(b"PATCH /machine-config HTTP/1.1\r\nContent-Length: 13\r\nExpect: 100-continue\r\n\r\n");
    let mut conn = HttpConnection::new(stream.clone());
    // The header block is complete and expects a continue; the body is
    // still missing, so no request is parsed yet.
    conn.try_read().unwrap();
    assert!(drain_requests(&mut conn).is_empty());
    assert!(conn.pending_write());
    conn.try_write().unwrap();
    assert_eq!(stream.written(), b"HTTP/1.1 100\r\n\r\n".to_vec());
    // The body arrives; the request completes, and no second continue is
    // queued for it.
    stream.push_input(b"whatever body");
    conn.try_read().unwrap();
    let requests = drain_requests(&mut conn);
    assert_eq!(requests.len(), 1);
    assert!(requests[0].headers.expect_continue());
    assert!(!conn.pending_write());
}

#[test]
fn test_connection_expect_continue_complete_request() {
    // A complete request that carries the expectation still gets its
    // continue, ahead of any application response.
    let stream = PipeStream::new();
    stream.push_input(b"PATCH /machine-config HTTP/1.1\r\nContent-Length: 13\r\nExpect: 100-continue\r\n\r\nwhatever body");
    let mut conn = HttpConnection::new(stream.clone());
    conn.try_read().unwrap();
    assert_eq!(drain_requests(&mut conn).len(), 1);
    assert!(conn.pending_write());
    conn.try_write().unwrap();
    assert_eq!(stream.written(), b"HTTP/1.1 100\r\n\r\n".to_vec());
}

#[test]
fn test_connection_responses_keep_order() {
    // Responses drain in the order they were enqueued, whatever the
    // stream accepts per write.
    let stream = PipeStream::new();
    let mut conn = HttpConnection::new(stream.clone());
    let mut first = Response::new(Version::Http11, StatusCode::OK);
    first.with_body(b"first");
    let second = Response::new(Version::Http11, StatusCode::NoContent);
    conn.enqueue_response(first);
    conn.enqueue_response(second);
    assert!(conn.pending_write());
    conn.try_write().unwrap();
    assert!(!conn.pending_write());
    assert_eq!(
        stream.written(),
        b"HTTP/1.1 200\r\nContent-Length: 5\r\n\r\nfirstHTTP/1.1 204\r\n\r\n".to_vec()
    );
}

#[test]
fn test_connection_invalid_write() {
    let stream = PipeStream::new();
    let mut conn = HttpConnection::new(stream);
    assert_eq!(conn.try_write().unwrap_err(), ConnectionError::InvalidWrite);
}

#[test]
fn test_connection_eof() {
    let stream = PipeStream::new();
    stream.close();
    let mut conn = HttpConnection::new(stream);
    assert_eq!(conn.try_read().unwrap_err(), ConnectionError::ConnectionClosed);
}

#[test]
fn test_connection_eof_mid_request() {
    // A stream that ends in the middle of a request invalidates it.
    let stream = PipeStream::new();
    stream.push_input(b"PATCH /machine-config HTTP/1.1\r\nContent-Length: 13\r\n\r\nwha");
    stream.close();
    let mut conn = HttpConnection::new(stream);
    conn.try_read().unwrap();
    assert!(drain_requests(&mut conn).is_empty());
    assert_eq!(
        conn.try_read().unwrap_err(),
        ConnectionError::ParseError(MessageError::InvalidRequest(RequestError::InvalidRequest))
    );
}

#[test]
fn test_connection_parse_error_discards_queue() {
    // A parse failure drops the requests parsed but not yet handed out.
    let stream = PipeStream::new();
    let mut wire: Vec<u8> = Vec::new();
    wire.extend_from_slice(REQUEST);
    wire.extend_from_slice(b"BOGUS /machine-config HTTP/1.1\r\n\r\n");
    stream.push_input(&wire);
    let mut conn = HttpConnection::new(stream);
    assert_eq!(
        conn.try_read().unwrap_err(),
        ConnectionError::ParseError(MessageError::InvalidRequest(
            RequestError::InvalidHttpMethod
        ))
    );
    assert!(conn.pop_parsed_request().is_none());
}

#[test]
fn test_connection_oversized_request() {
    let stream = PipeStream::new();
    let mut wire: Vec<u8> = Vec::new();
    wire.extend_from_slice(b"GET /");
    wire.extend(std::iter::repeat(b'a').take(2000));
    stream.push_input(&wire);
    let mut conn = HttpConnection::new(stream);
    // The first kilobyte fits exactly; the rest overflows the buffer.
    conn.try_read().unwrap();
    assert_eq!(
        conn.try_read().unwrap_err(),
        ConnectionError::ParseError(MessageError::InvalidRequest(RequestError::InvalidRequest))
    );
}

#[test]
fn test_client_connection_in_flight_survives_disconnect() {
    let stream = PipeStream::new();
    stream.push_input(REQUEST);
    let mut conn = ClientConnection::new(HttpConnection::new(stream.clone()));
    assert!(!conn.is_done());
    let requests = conn.read().unwrap();
    assert_eq!(requests.len(), 1);
    // The request is in flight: even after the peer hangs up, the record
    // is not done until the application's obligation is settled.
    stream.close();
    assert!(conn.read().unwrap().is_empty());
    assert!(!conn.is_done());
    let mut response = Response::new(Version::Http11, StatusCode::OK);
    response.with_body(b"response body");
    conn.enqueue_response(response);
    // The response was dropped silently, and the record is now done.
    assert!(conn.is_done());
    assert!(stream.written().is_empty());
}

#[test]
fn test_client_connection_write_path() {
    let stream = PipeStream::new();
    stream.push_input(REQUEST);
    let mut conn = ClientConnection::new(HttpConnection::new(stream.clone()));
    assert_eq!(conn.read().unwrap().len(), 1);
    let mut response = Response::new(Version::Http11, StatusCode::OK);
    response.with_body(b"response body");
    // Absorbing the response turns the connection writable.
    assert!(conn.absorb_response(response));
    conn.write().unwrap();
    assert!(!conn.is_done());
    assert_eq!(
        stream.written(),
        b"HTTP/1.1 200\r\nContent-Length: 13\r\n\r\nresponse body".to_vec()
    );
}
