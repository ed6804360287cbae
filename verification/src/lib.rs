//! Minimal implementation of the HTTP/1.0 and HTTP/1.1 protocols for
//! control-plane APIs: an incremental request parser, a response serializer,
//! a per-stream connection state machine and a single-threaded connection
//! multiplexer with admission control.
//!
//! The implementation is stateless with respect to the HTTP specification:
//! it does not support chunked transfer encoding or compression.
//!
//! `HttpConnection` drives the data exchange and parsing for one stream.
//! For handling multiple clients use `HttpServer`, which multiplexes
//! connections and hands out completed requests; the caller supplies the
//! transport (any type implementing `ByteStream`) and runs the readiness
//! notifier, performing the `NotifierAction`s the server queues.

use vstd::prelude::*;

pub mod ascii;
pub mod client;
pub mod common;
pub mod connection;
pub mod headers;
pub mod message;
pub mod request;
pub mod response;
pub mod server;
pub mod transport;

pub use client::Client;
pub use common::{
    Body, ClientError, ConnectionError, MessageError, Method, RequestError, ResponseError,
    ServerError, Version,
};
pub use connection::HttpConnection;
pub use headers::{Header, Headers, MediaType};
pub use message::Message;
pub use request::{Request, RequestLine, Uri};
pub use response::{Response, StatusCode, StatusLine};
pub use server::{
    ClientConnectionState, EventSet, HttpServer, NotifierAction, ServerEvent, ServerRequest,
    ServerResponse,
};
pub use transport::{ByteStream, ReadOutcome, WriteOutcome};

verus! {

} // verus!
