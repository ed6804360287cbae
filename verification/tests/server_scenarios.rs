use std::cell::RefCell;
use std::rc::Rc;

use vstd::seq::Seq;

use micro_http::server::{server_full_message_vec, EVENT_IN, EVENT_OUT};
use micro_http::{
    ByteStream, ConnectionError, EventSet, HttpServer, Method, NotifierAction, ReadOutcome,
    Request, Response, ServerError, ServerEvent, StatusCode, Version, WriteOutcome,
};

#[derive(Default)]
struct Shared {
    input: Vec<u8>,
    pos: usize,
    closed: bool,
    written: Vec<u8>,
}

#[derive(Clone)]
struct SocketStream(Rc<RefCell<Shared>>);

impl SocketStream {
    fn new() -> SocketStream {
        SocketStream(Rc::new(RefCell::new(Shared::default())))
    }

    fn push_input(&self, bytes: &[u8]) {
        self.0.borrow_mut().input.extend_from_slice(bytes);
    }

    fn close(&self) {
        self.0.borrow_mut().closed = true;
    }

    fn written(&self) -> Vec<u8> {
        self.0.borrow().written.clone()
    }
}

impl ByteStream for SocketStream {
    fn recv_log(&self) -> Seq<u8> {
        unreachable!()
    }

    fn sent_log(&self) -> Seq<u8> {
        unreachable!()
    }

    fn read_chunk(&mut self) -> ReadOutcome {
        let mut s = self.0.borrow_mut();
        if s.pos < s.input.len() {
            let end = (s.pos + 1024).min(s.input.len());
            let bytes = s.input[s.pos..end].to_vec();
            s.pos = end;
            ReadOutcome::Data(bytes)
        } else if s.closed {
            ReadOutcome::Closed
        } else {
            ReadOutcome::WouldBlock
        }
    }

    fn write_chunk(&mut self, buf: &[u8]) -> WriteOutcome {
        if buf.is_empty() {
            return WriteOutcome::WouldBlock;
        }
        self.0.borrow_mut().written.extend_from_slice(buf);
        WriteOutcome::Wrote(buf.len())
    }
}

fn accept(server: &mut HttpServer<SocketStream>, stream: &SocketStream, id: u64) {
    let events = vec![ServerEvent::NewConnection(stream.clone(), id)];
    assert!(server.requests(events).unwrap().is_empty());
}

fn readable(id: u64) -> Vec<ServerEvent<SocketStream>> {
    vec![ServerEvent::Ready(id, EventSet::new(EVENT_IN))]
}

fn writable(id: u64) -> Vec<ServerEvent<SocketStream>> {
    vec![ServerEvent::Ready(id, EventSet::new(EVENT_OUT))]
}

const FIRST_REQUEST: &[u8] = b"PATCH /machine-config HTTP/1.1\r\nContent-Length: 13\r\nContent-Type: application/json\r\n\r\nwhatever body";
const SECOND_REQUEST: &[u8] = b"GET /machine-config HTTP/1.1\r\nContent-Length: 20\r\nContent-Type: application/json\r\n\r\nwhatever second body";

fn ok_response(body: &'static [u8]) -> impl Fn(&Request) -> Response {
    move |_request: &Request| {
        let mut response = Response::new(Version::Http11, StatusCode::OK);
        response.with_body(body);
        response
    }
}

#[test]
fn test_wait_one_connection() {
    let mut server: HttpServer<SocketStream> = HttpServer::new();
    let socket = SocketStream::new();
    accept(&mut server, &socket, 11);
    assert_eq!(
        server.take_notifier_actions(),
        vec![NotifierAction::Add(11, EVENT_IN)]
    );

    socket.push_input(FIRST_REQUEST);
    let mut req_vec = server.requests(readable(11)).unwrap();
    let server_request = req_vec.remove(0);
    assert_eq!(server_request.inner().method(), Method::Patch);
    assert_eq!(server_request.inner().uri().get_abs_path(), "/machine-config");
    assert_eq!(server_request.inner().headers.content_length(), 13);
    assert_eq!(
        server_request.inner().body.as_ref().unwrap().as_stream().as_slice(),
        b"whatever body"
    );

    server
        .respond(server_request.process(ok_response(b"response body")))
        .unwrap();
    assert_eq!(
        server.take_notifier_actions(),
        vec![NotifierAction::Modify(11, EVENT_OUT)]
    );
    assert!(server.requests(writable(11)).unwrap().is_empty());
    assert_eq!(
        server.take_notifier_actions(),
        vec![NotifierAction::Modify(11, EVENT_IN)]
    );

    let buf = socket.written();
    assert!(buf.len() > 0);
    assert_eq!(
        buf,
        b"HTTP/1.1 200\r\nContent-Length: 13\r\n\r\nresponse body".to_vec()
    );
}

#[test]
fn test_wait_concurrent_connections() {
    let mut server: HttpServer<SocketStream> = HttpServer::new();
    let first_socket = SocketStream::new();
    accept(&mut server, &first_socket, 21);

    first_socket.push_input(FIRST_REQUEST);
    let second_socket = SocketStream::new();
    accept(&mut server, &second_socket, 22);

    let mut req_vec = server.requests(readable(21)).unwrap();
    let server_request = req_vec.remove(0);
    server
        .respond(server_request.process(ok_response(b"response body")))
        .unwrap();

    second_socket.push_input(SECOND_REQUEST);
    let mut req_vec = server.requests(readable(22)).unwrap();
    let second_server_request = req_vec.remove(0);
    assert_eq!(
        *second_server_request.inner(),
        Request::try_from(SECOND_REQUEST).unwrap()
    );

    assert!(server.requests(writable(21)).unwrap().is_empty());
    assert!(first_socket.written().len() > 0);

    server
        .respond(second_server_request.process(ok_response(b"response second body")))
        .unwrap();
    assert!(server.requests(writable(22)).unwrap().is_empty());
    let buf = second_socket.written();
    assert!(buf.len() > 0);
    assert_eq!(
        buf,
        b"HTTP/1.1 200\r\nContent-Length: 20\r\n\r\nresponse second body".to_vec()
    );
}

#[test]
fn test_wait_expect_connection() {
    let mut server: HttpServer<SocketStream> = HttpServer::new();
    let socket = SocketStream::new();
    accept(&mut server, &socket, 31);

    socket.push_input(
        b"PATCH /machine-config HTTP/1.1\r\nContent-Length: 13\r\nExpect: 100-continue\r\n\r\n",
    );
    // The headers alone complete no request, but the connection now owes
    // a `100 Continue` and turns writable.
    let req_vec = server.requests(readable(31)).unwrap();
    assert!(req_vec.is_empty());
    assert_eq!(
        server.take_notifier_actions(),
        vec![NotifierAction::Add(31, EVENT_IN), NotifierAction::Modify(31, EVENT_OUT)]
    );
    // The next cycle writes the continue.
    let req_vec = server.requests(writable(31)).unwrap();
    assert!(req_vec.is_empty());
    assert_eq!(socket.written(), b"HTTP/1.1 100\r\n\r\n".to_vec());

    socket.push_input(b"whatever body");
    let mut req_vec = server.requests(readable(31)).unwrap();
    let server_request = req_vec.remove(0);
    assert_eq!(
        server_request.inner().body.as_ref().unwrap().as_stream().as_slice(),
        b"whatever body"
    );

    server
        .respond(server_request.process(ok_response(b"response body")))
        .unwrap();
    assert!(server.requests(writable(31)).unwrap().is_empty());
    assert!(socket.written().len() > b"HTTP/1.1 100\r\n\r\n".len());
}

#[test]
fn test_wait_many_connections() {
    let mut server: HttpServer<SocketStream> = HttpServer::new();
    let mut sockets: Vec<SocketStream> = Vec::with_capacity(11);
    for i in 0..10 {
        let socket = SocketStream::new();
        accept(&mut server, &socket, 100 + i);
        sockets.push(socket);
    }
    assert_eq!(server.connection_count(), 10);

    // The eleventh connection receives the exact refusal payload and is
    // dropped; the ten being served stay.
    let rejected = SocketStream::new();
    accept(&mut server, &rejected, 110);
    let buf = rejected.written();
    assert_eq!(buf.len(), 120);
    assert_eq!(buf, server_full_message_vec());
    assert_eq!(
        buf,
        b"HTTP/1.1 503\r\nServer: Firecracker API\r\nConnection: close\r\nContent-Length: 40\r\n\r\n{ \"error\": \"Too many open connections\" }".to_vec()
    );
    assert_eq!(server.connection_count(), 10);

    // The ten admitted connections still work.
    sockets[0].push_input(FIRST_REQUEST);
    assert_eq!(server.requests(readable(100)).unwrap().len(), 1);
}

#[test]
fn test_wait_parse_error() {
    let mut server: HttpServer<SocketStream> = HttpServer::new();
    let socket = SocketStream::new();
    accept(&mut server, &socket, 41);

    socket.push_input(
        b"PATCH /machine-config HTTP/1.1\r\nContent-Length: alpha\r\nContent-Type: application/json\r\n\r\nwhatever body",
    );
    assert!(server.requests(readable(41)).unwrap().is_empty());
    assert!(server.requests(writable(41)).unwrap().is_empty());
    let buf = socket.written();
    let error_message = b"HTTP/1.1 400\r\n\
                          Content-Length: 80\r\n\r\n{ \"error\": \"Invalid header.\n\
                          All previous unanswered requests will be dropped.\" }";
    assert_eq!(buf, error_message.to_vec());
}

#[test]
fn test_wait_in_flight_responses() {
    let mut server: HttpServer<SocketStream> = HttpServer::new();
    let first_socket = SocketStream::new();
    accept(&mut server, &first_socket, 51);

    first_socket.push_input(FIRST_REQUEST);
    let mut req_vec = server.requests(readable(51)).unwrap();
    let server_request = req_vec.remove(0);

    // The peer disconnects before the application answers. The record
    // survives: a response is still owed.
    first_socket.close();
    assert!(server.requests(readable(51)).unwrap().is_empty());
    assert_eq!(server.connection_count(), 1);

    let second_socket = SocketStream::new();
    accept(&mut server, &second_socket, 52);
    assert_eq!(server.connection_count(), 2);

    // Answering the dead connection drops the response silently and
    // absolves the application; the record is reaped on the next cycle,
    // and never earlier.
    server
        .enqueue_responses(vec![server_request.process(ok_response(b"response body"))])
        .unwrap();
    assert!(server.requests(Vec::new()).unwrap().is_empty());
    assert_eq!(server.connection_count(), 1);
    assert!(first_socket.written().is_empty());

    second_socket.push_input(SECOND_REQUEST);
    let mut req_vec = server.requests(readable(52)).unwrap();
    let second_server_request = req_vec.remove(0);
    assert_eq!(
        *second_server_request.inner(),
        Request::try_from(SECOND_REQUEST).unwrap()
    );

    server
        .respond(second_server_request.process(ok_response(b"response second body")))
        .unwrap();
    assert!(server.requests(writable(52)).unwrap().is_empty());
    assert!(second_socket.written().len() > 0);
}

#[test]
fn test_wait_stale_events() {
    let mut server: HttpServer<SocketStream> = HttpServer::new();
    // Readiness for a connection that does not exist is ignored.
    assert!(server.requests(readable(99)).unwrap().is_empty());
    // A writable event for a connection that owes nothing is an error.
    let socket = SocketStream::new();
    accept(&mut server, &socket, 61);
    assert_eq!(
        server.requests(writable(61)).unwrap_err(),
        ServerError::ConnectionError(ConnectionError::InvalidWrite)
    );
}

#[test]
fn test_respond_twice_is_harmless() {
    let mut server: HttpServer<SocketStream> = HttpServer::new();
    let socket = SocketStream::new();
    accept(&mut server, &socket, 71);
    socket.push_input(FIRST_REQUEST);
    let mut req_vec = server.requests(readable(71)).unwrap();
    let server_request = req_vec.remove(0);
    server
        .respond(server_request.process(ok_response(b"response body")))
        .unwrap();
    // A second response for the same request is dropped: the connection
    // is owed nothing.
    server
        .respond(server_request.process(ok_response(b"unexpected")))
        .unwrap();
    assert!(server.requests(writable(71)).unwrap().is_empty());
    assert_eq!(
        socket.written(),
        b"HTTP/1.1 200\r\nContent-Length: 13\r\n\r\nresponse body".to_vec()
    );
}
