use std::cell::RefCell;
use std::rc::Rc;

use vstd::seq::Seq;

use micro_http::{
    ByteStream, Message, MessageError, Method, ReadOutcome, Request, RequestError, Response,
    ResponseError, StatusCode, StatusLine, Version, WriteOutcome,
};

#[derive(Default)]
struct Shared {
    input: Vec<u8>,
    pos: usize,
    closed: bool,
    written: Vec<u8>,
    chunk: usize,
}

#[derive(Clone)]
struct LoopStream(Rc<RefCell<Shared>>);

impl LoopStream {
    fn new() -> LoopStream {
        LoopStream(Rc::new(RefCell::new(Shared { chunk: 1024, ..Shared::default() })))
    }

    fn push_input(&self, bytes: &[u8]) {
        self.0.borrow_mut().input.extend_from_slice(bytes);
    }

    fn written(&self) -> Vec<u8> {
        self.0.borrow().written.clone()
    }
}

impl ByteStream for LoopStream {
    fn recv_log(&self) -> Seq<u8> {
        unreachable!()
    }

    fn sent_log(&self) -> Seq<u8> {
        unreachable!()
    }

    fn read_chunk(&mut self) -> ReadOutcome {
        let mut s = self.0.borrow_mut();
        if s.pos < s.input.len() {
            let end = (s.pos + s.chunk).min(s.input.len());
            let bytes = s.input[s.pos..end].to_vec();
            s.pos = end;
            ReadOutcome::Data(bytes)
        } else if s.closed {
            ReadOutcome::Closed
        } else {
            ReadOutcome::WouldBlock
        }
    }

    fn write_chunk(&mut self, buf: &[u8]) -> WriteOutcome {
        if buf.is_empty() {
            return WriteOutcome::WouldBlock;
        }
        self.0.borrow_mut().written.extend_from_slice(buf);
        WriteOutcome::Wrote(buf.len())
    }
}

#[test]
fn test_request_try_from_get() {
    let request = Request::try_from(b"GET http://localhost/home HTTP/1.0\r\n\r\n").unwrap();
    assert_eq!(request.version(), Version::Http10);
    assert_eq!(request.method(), Method::Get);
    assert_eq!(request.uri().get_abs_path(), "/home");
    assert!(request.body.is_none());
}

#[test]
fn test_request_try_from_with_body() {
    let request = Request::try_from(
        b"PATCH /machine-config HTTP/1.1\r\n\
          Content-Length: 13\r\n\
          Content-Type: application/json\r\n\r\nwhatever body",
    )
    .unwrap();
    assert_eq!(request.method(), Method::Patch);
    assert_eq!(request.version(), Version::Http11);
    assert_eq!(request.uri().get_abs_path(), "/machine-config");
    assert_eq!(request.headers.content_length(), 13);
    assert_eq!(request.body.as_ref().unwrap().as_stream().as_slice(), b"whatever body");
}

#[test]
fn test_request_try_from_utf8_uri() {
    // A request target may be any non-empty valid UTF-8, as the original
    // wire text allows.
    let request = Request::try_from("GET /caf\u{e9} HTTP/1.1\r\n\r\n".as_bytes()).unwrap();
    assert_eq!(request.method(), Method::Get);
    assert_eq!(request.uri().get_abs_path(), "/caf\u{e9}");
    // An undecodable target is an invalid URI.
    assert_eq!(
        Request::try_from(b"GET /\xff\xfe HTTP/1.1\r\n\r\n").unwrap_err(),
        MessageError::InvalidRequest(RequestError::InvalidUri)
    );
}

#[test]
fn test_request_try_from_errors() {
    // No request line terminator.
    assert_eq!(
        Request::try_from(b"GET / HTTP/1.1").unwrap_err(),
        MessageError::InvalidRequest(RequestError::InvalidRequest)
    );
    // Request line too short.
    assert_eq!(
        Request::try_from(b"GET /\r\n\r\n").unwrap_err(),
        MessageError::InvalidRequest(RequestError::InvalidRequest)
    );
    // Unsupported method.
    assert_eq!(
        Request::try_from(b"POST /machine-config HTTP/1.1\r\n\r\n").unwrap_err(),
        MessageError::InvalidRequest(RequestError::InvalidHttpMethod)
    );
    // Unsupported version.
    assert_eq!(
        Request::try_from(b"GET /machine-config HTTP/2.0\r\n\r\n").unwrap_err(),
        MessageError::InvalidHttpVersion
    );
    // Bad header.
    assert_eq!(
        Request::try_from(b"GET /machine-config HTTP/1.1\r\nContent-Length: alpha\r\n\r\n")
            .unwrap_err(),
        MessageError::InvalidHeader
    );
    // Body shorter than announced.
    assert_eq!(
        Request::try_from(b"GET /machine-config HTTP/1.1\r\nContent-Length: 20\r\n\r\nshort")
            .unwrap_err(),
        MessageError::InvalidRequest(RequestError::InvalidRequest)
    );
    // No header-block terminator.
    assert_eq!(
        Request::try_from(b"GET /machine-config HTTP/1.1\r\nContent-Length: 20\r\n").unwrap_err(),
        MessageError::InvalidRequest(RequestError::InvalidRequest)
    );
}

#[test]
fn test_request_send() {
    let mut request =
        Request::try_from(b"PUT /machine-config HTTP/1.1\r\nContent-Length: 4\r\n\r\nbody")
            .unwrap();
    let mut buf: Vec<u8> = Vec::new();
    request.send(&mut buf);
    assert_eq!(buf, b"PUT /machine-config HTTP/1.1\r\nContent-Length: 4\r\n\r\nbody".to_vec());
}

#[test]
fn test_status_line() {
    let sl = StatusLine::try_from(b"HTTP/1.1 200").unwrap();
    let mut buf: Vec<u8> = Vec::new();
    sl.write_all(&mut buf);
    assert_eq!(buf, b"HTTP/1.1 200\r\n".to_vec());

    let sl = StatusLine::try_from(b"HTTP/1.0 404 Not Found").unwrap();
    let mut buf: Vec<u8> = Vec::new();
    sl.write_all(&mut buf);
    assert_eq!(buf, b"HTTP/1.0 404 Not Found\r\n".to_vec());

    assert_eq!(
        StatusLine::try_from(b"HTTP/1.1 503").unwrap_err(),
        MessageError::InvalidResponse(ResponseError::InvalidStatusCode)
    );
    assert_eq!(
        StatusLine::try_from(b"HTP/1.1 200").unwrap_err(),
        MessageError::InvalidResponse(ResponseError::InvalidResponse)
    );
}

#[test]
fn test_status_line_utf8_reason() {
    let sl = StatusLine::try_from("HTTP/1.1 404 Nicht gefunden \u{2014} weg".as_bytes()).unwrap();
    let mut buf: Vec<u8> = Vec::new();
    sl.write_all(&mut buf);
    assert_eq!(buf, "HTTP/1.1 404 Nicht gefunden \u{2014} weg\r\n".as_bytes().to_vec());
    assert_eq!(
        StatusLine::try_from(b"HTTP/1.1 404 \xff\xfe").unwrap_err(),
        MessageError::InvalidResponse(ResponseError::InvalidResponse)
    );
}

#[test]
fn test_response_send() {
    let mut response = Response::new(Version::Http10, StatusCode::OK);
    let body = String::from("This is a test");
    response.with_body(body.as_bytes());
    response.with_header(String::from("Content-Type"), String::from("text/plain"));

    assert!(response.status() == StatusCode::OK);
    assert_eq!(response.body().unwrap().as_slice(), body.as_bytes());
    assert_eq!(response.http_version(), Version::Http10);
    assert_eq!(response.content_length(), 14);
    assert_eq!(
        response.header_line("Content-Type").map(String::as_str),
        Some("text/plain")
    );

    let mut buf: Vec<u8> = Vec::new();
    response.send(&mut buf);
    assert_eq!(
        buf,
        b"HTTP/1.0 200\r\nContent-Type: text/plain\r\nContent-Length: 14\r\n\r\nThis is a test"
            .to_vec()
    );
}

#[test]
fn test_response_send_no_body() {
    let mut response = Response::new(Version::Http11, StatusCode::NoContent);
    let mut buf: Vec<u8> = Vec::new();
    response.send(&mut buf);
    assert_eq!(buf, b"HTTP/1.1 204\r\n\r\n".to_vec());
}

#[test]
fn test_response_receive_round_trip() {
    // The bytes a response writes to the stream parse back to a response
    // with the same body and a Content-Length equal to its length.
    let mut response = Response::new(Version::Http11, StatusCode::OK);
    response.with_body(b"response body");
    response.with_header(String::from("Server"), String::from("Firecracker API"));
    let mut buf: Vec<u8> = Vec::new();
    response.send(&mut buf);

    let stream = LoopStream::new();
    stream.push_input(&buf);
    let mut endpoint = stream.clone();
    let parsed = Response::receive(&mut endpoint).unwrap();
    assert_eq!(parsed.status(), StatusCode::OK);
    assert_eq!(parsed.http_version(), Version::Http11);
    assert_eq!(parsed.content_length(), 13);
    assert_eq!(parsed.body().unwrap().as_slice(), b"response body");
    assert_eq!(
        parsed.header_line("Server").map(String::as_str),
        Some("Firecracker API")
    );
}

#[test]
fn test_response_receive_errors() {
    let stream = LoopStream::new();
    stream.push_input(b"HTTP/1.1 999\r\n\r\n");
    let mut endpoint = stream.clone();
    assert_eq!(
        Response::receive(&mut endpoint).unwrap_err(),
        MessageError::InvalidResponse(ResponseError::InvalidStatusCode)
    );

    // A stream that ends mid-response cannot be parsed.
    let stream = LoopStream::new();
    stream.push_input(b"HTTP/1.1 200\r\n");
    stream.0.borrow_mut().closed = true;
    let mut endpoint = stream.clone();
    assert_eq!(
        Response::receive(&mut endpoint).unwrap_err(),
        MessageError::InvalidResponse(ResponseError::InvalidResponse)
    );
}

#[test]
fn test_client_request() {
    let stream = LoopStream::new();
    let mut reply = Response::new(Version::Http11, StatusCode::NoContent);
    let mut reply_bytes: Vec<u8> = Vec::new();
    reply.send(&mut reply_bytes);
    stream.push_input(&reply_bytes);

    let mut client =
        micro_http::Client::new(stream.clone(), String::from("http://localhost")).unwrap();
    assert_eq!(client.base_url().as_str(), "http://localhost");
    let request = Request::try_from(b"GET /home HTTP/1.1\r\n\r\n").unwrap();
    let response = client.request(request).unwrap();
    assert_eq!(response.status(), StatusCode::NoContent);
    assert_eq!(stream.written(), b"GET /home HTTP/1.1\r\n\r\n".to_vec());
}

fn body_len<M: Message>(message: &M) -> Option<usize> {
    message.body().map(Vec::len)
}

#[test]
fn test_message_trait() {
    let mut request = Request::try_from(b"GET /home HTTP/1.1\r\n\r\n").unwrap();
    let mut response = Response::new(Version::Http11, StatusCode::OK);
    assert_eq!(Message::version(&request), Version::Http11);
    assert_eq!(Message::version(&response), Version::Http11);
    assert_eq!(body_len(&request), None);
    Message::with_body(&mut request, b"abc");
    Message::with_body(&mut response, b"defg");
    assert_eq!(body_len(&request), Some(3));
    assert_eq!(body_len(&response), Some(4));
    Message::with_header(&mut response, String::from("Server"), String::from("x"));
    assert_eq!(
        Message::header_line(&response, "Server").map(String::as_str),
        Some("x")
    );
    assert_eq!(Message::header_line(&request, "Server"), None);
    let mut buf: Vec<u8> = Vec::new();
    Message::send(&mut response, &mut buf);
    assert_eq!(buf, b"HTTP/1.1 200\r\nServer: x\r\nContent-Length: 4\r\n\r\ndefg".to_vec());
}
