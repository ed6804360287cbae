//! Shared data model of the HTTP codec: error taxonomy, message bodies,
//! methods and protocol versions.

use vstd::prelude::*;
use vstd::string::StringExecFns;

use crate::ascii::string_bytes;

verus! {

/// Errors associated with parsing an HTTP request from a byte slice.
#[derive(Clone, Copy, Debug, PartialEq, Eq, Structural)]
pub enum RequestError {
    /// The HTTP method is not supported or it is invalid.
    InvalidHttpMethod,
    /// The request URI is invalid.
    InvalidUri,
    /// The request is invalid and cannot be served.
    InvalidRequest,
}

impl RequestError {
    /// The message that `describe` returns.
    pub open spec fn msg(self) -> Seq<char> {
        match self {
            RequestError::InvalidHttpMethod => "Invalid HTTP Method: Unsupported HTTP method."@,
            RequestError::InvalidUri => "Invalid URI: Unsupported URI."@,
            RequestError::InvalidRequest => "Invalid request."@,
        }
    }

    /// Renders the error as a message for an error response body.
    pub fn describe(&self) -> (r: String)
        ensures
            r@ == self.msg(),
    {
        match self {
            RequestError::InvalidHttpMethod => String::from_str(
                "Invalid HTTP Method: Unsupported HTTP method.",
            ),
            RequestError::InvalidUri => String::from_str("Invalid URI: Unsupported URI."),
            RequestError::InvalidRequest => String::from_str("Invalid request."),
        }
    }
}

/// Errors associated with parsing an HTTP response from a byte slice.
#[derive(Clone, Copy, Debug, PartialEq, Eq, Structural)]
pub enum ResponseError {
    /// The response status code is invalid.
    InvalidStatusCode,
    /// The response is invalid and cannot be parsed.
    InvalidResponse,
}

impl ResponseError {
    /// The message that `describe` returns.
    pub open spec fn msg(self) -> Seq<char> {
        match self {
            ResponseError::InvalidStatusCode => "Invalid Status Code: Unsupported HTTP status code."@,
            ResponseError::InvalidResponse => "Invalid response."@,
        }
    }

    /// Renders the error as a message for an error response body.
    pub fn describe(&self) -> (r: String)
        ensures
            r@ == self.msg(),
    {
        match self {
            ResponseError::InvalidStatusCode => String::from_str(
                "Invalid Status Code: Unsupported HTTP status code.",
            ),
            ResponseError::InvalidResponse => String::from_str("Invalid response."),
        }
    }
}

/// Errors associated with parsing an HTTP message from a byte stream.
#[derive(Clone, Copy, Debug, PartialEq, Eq, Structural)]
pub enum MessageError {
    /// Request-specific error.
    InvalidRequest(RequestError),
    /// Response-specific error.
    InvalidResponse(ResponseError),
    /// The HTTP version in the message is not supported or it is invalid.
    InvalidHttpVersion,
    /// The header specified may be valid, but is not supported by this
    /// HTTP implementation.
    UnsupportedHeader,
    /// The header specified is invalid.
    InvalidHeader,
    /// IO error.
    IOError,
}

impl MessageError {
    /// The message that `describe` returns.
    pub open spec fn msg(self) -> Seq<char> {
        match self {
            MessageError::InvalidRequest(inner) => "Request error: "@ + inner.msg(),
            MessageError::InvalidResponse(inner) => "Response error: "@ + inner.msg(),
            MessageError::InvalidHttpVersion => "Invalid HTTP Version: Unsupported HTTP version."@,
            MessageError::UnsupportedHeader => "Unsupported header."@,
            MessageError::InvalidHeader => "Invalid header."@,
            MessageError::IOError => "IO error."@,
        }
    }

    /// The message that `describe` returns, as the bytes it occupies in an
    /// error response body.
    pub open spec fn msg_bytes(self) -> Seq<u8> {
        string_bytes(self.msg())
    }

    /// Renders the error as a message for an error response body.
    pub fn describe(&self) -> (r: String)
        ensures
            r@ == self.msg(),
    {
        match self {
            MessageError::InvalidRequest(inner) => String::from_str("Request error: ").concat(
                inner.describe().as_str(),
            ),
            MessageError::InvalidResponse(inner) => String::from_str("Response error: ").concat(
                inner.describe().as_str(),
            ),
            MessageError::InvalidHttpVersion => String::from_str(
                "Invalid HTTP Version: Unsupported HTTP version.",
            ),
            MessageError::UnsupportedHeader => String::from_str("Unsupported header."),
            MessageError::InvalidHeader => String::from_str("Invalid header."),
            MessageError::IOError => String::from_str("IO error."),
        }
    }
}

/// Every error message is short: it fits easily in a response body.
pub proof fn lemma_msg_len(e: MessageError)
    ensures
        e.msg().len() <= 96,
{
    reveal_strlit("Request error: ");
    reveal_strlit("Response error: ");
    reveal_strlit("Invalid HTTP Method: Unsupported HTTP method.");
    reveal_strlit("Invalid URI: Unsupported URI.");
    reveal_strlit("Invalid request.");
    reveal_strlit("Invalid Status Code: Unsupported HTTP status code.");
    reveal_strlit("Invalid response.");
    reveal_strlit("Invalid HTTP Version: Unsupported HTTP version.");
    reveal_strlit("Unsupported header.");
    reveal_strlit("Invalid header.");
    reveal_strlit("IO error.");
}

/// Errors associated with an HTTP connection.
#[derive(Clone, Debug, PartialEq)]
pub enum ConnectionError {
    /// The request parsing has failed.
    ParseError(MessageError),
    /// Could not perform a stream operation successfully; holds the
    /// stream's own account of the failure.
    StreamError(String),
    /// Attempted to read or write on a closed connection.
    ConnectionClosed,
    /// Attempted to write on a stream when there was nothing to write.
    InvalidWrite,
}

/// Errors associated with an HTTP client.
#[derive(Clone, Debug, PartialEq)]
pub enum ClientError {
    /// Could not perform a stream operation successfully.
    StreamError(String),
}

/// Errors pertaining to `HttpServer`.
#[derive(Clone, Debug, PartialEq)]
pub enum ServerError {
    /// A readiness-notifier or listener operation failed.
    IOError(String),
    /// Error from one of the connections.
    ConnectionError(ConnectionError),
    /// Server maximum capacity has been reached.
    ServerFull,
}

/// The body associated with an HTTP request or response.
#[derive(Clone, Debug, PartialEq)]
pub struct Body {
    /// Body of the HTTP message as bytes.
    pub stream: Vec<u8>,
}

impl View for Body {
    type V = Seq<u8>;

    open spec fn view(&self) -> Seq<u8> {
        self.stream@
    }
}

impl Body {
    /// Creates a new `Body` from the bytes it holds.
    pub fn new(stream: Vec<u8>) -> (r: Body)
        ensures
            r@ == stream@,
    {
        Body { stream }
    }

    /// The body as a byte vector.
    pub fn as_stream(&self) -> (r: &Vec<u8>)
        ensures
            r@ == self@,
    {
        &self.stream
    }

    /// Returns the length of the `Body`.
    pub fn len(&self) -> (r: usize)
        ensures
            r == self@.len(),
    {
        self.stream.len()
    }

    /// Checks if the body is empty, that is, has zero length.
    pub fn is_empty(&self) -> (r: bool)
        ensures
            r == (self@.len() == 0),
    {
        self.stream.len() == 0
    }
}

/// Supported HTTP methods.
#[derive(Clone, Copy, Debug, PartialEq, Eq, Structural)]
pub enum Method {
    /// GET method.
    Get,
    /// PUT method.
    Put,
    /// PATCH method.
    Patch,
}

/// The wire representation of a method.
pub open spec fn method_bytes(m: Method) -> Seq<u8> {
    match m {
        Method::Get => seq![71u8, 69u8, 84u8],
        Method::Put => seq![80u8, 85u8, 84u8],
        Method::Patch => seq![80u8, 65u8, 84u8, 67u8, 72u8],
    }
}

/// The method whose wire representation `b` is, if any.
pub open spec fn parse_method(b: Seq<u8>) -> Option<Method> {
    if b == method_bytes(Method::Get) {
        Some(Method::Get)
    } else if b == method_bytes(Method::Put) {
        Some(Method::Put)
    } else if b == method_bytes(Method::Patch) {
        Some(Method::Patch)
    } else {
        None
    }
}

impl Method {
    /// Returns a `Method` object if the parsing of `bytes` is successful.
    ///
    /// The method is case sensitive: `b"GET"` parses, `b"get"` does not.
    ///
    /// # Errors
    /// `InvalidHttpMethod` is returned if the specified HTTP method is
    /// unsupported.
    pub fn try_from(bytes: &[u8]) -> (r: Result<Method, MessageError>)
        ensures
            match r {
                Ok(m) => parse_method(bytes@) == Some(m),
                Err(e) => {
                    &&& parse_method(bytes@) is None
                    &&& e == MessageError::InvalidRequest(RequestError::InvalidHttpMethod)
                },
            },
    {
        if crate::ascii::bytes_eq(bytes, Method::Get.raw().as_slice()) {
            Ok(Method::Get)
        } else if crate::ascii::bytes_eq(bytes, Method::Put.raw().as_slice()) {
            Ok(Method::Put)
        } else if crate::ascii::bytes_eq(bytes, Method::Patch.raw().as_slice()) {
            Ok(Method::Patch)
        } else {
            Err(MessageError::InvalidRequest(RequestError::InvalidHttpMethod))
        }
    }

    /// The wire bytes corresponding to the method.
    pub fn raw(self) -> (r: Vec<u8>)
        ensures
            r@ == method_bytes(self),
    {
        let mut v: Vec<u8> = Vec::new();
        match self {
            Method::Get => {
                v.push(71);
                v.push(69);
                v.push(84);
            },
            Method::Put => {
                v.push(80);
                v.push(85);
                v.push(84);
            },
            Method::Patch => {
                v.push(80);
                v.push(65);
                v.push(84);
                v.push(67);
                v.push(72);
            },
        }
        assert(v@ =~= method_bytes(self));
        v
    }
}

/// Supported HTTP versions.
#[derive(Clone, Copy, Debug, PartialEq, Eq, Structural)]
pub enum Version {
    /// HTTP/1.0
    Http10,
    /// HTTP/1.1
    Http11,
}

/// The wire representation of a version.
pub open spec fn version_bytes(v: Version) -> Seq<u8> {
    match v {
        Version::Http10 => seq![72u8, 84u8, 84u8, 80u8, 47u8, 49u8, 46u8, 48u8],
        Version::Http11 => seq![72u8, 84u8, 84u8, 80u8, 47u8, 49u8, 46u8, 49u8],
    }
}

/// The version whose wire representation `b` is, if any.
pub open spec fn parse_version(b: Seq<u8>) -> Option<Version> {
    if b == version_bytes(Version::Http10) {
        Some(Version::Http10)
    } else if b == version_bytes(Version::Http11) {
        Some(Version::Http11)
    } else {
        None
    }
}

impl Default for Version {
    /// Returns the default HTTP version, HTTP/1.1.
    fn default() -> (r: Version)
        ensures
            r == Version::Http11,
    {
        Version::Http11
    }
}

impl Version {
    /// The wire bytes corresponding to the version.
    pub fn raw(self) -> (r: Vec<u8>)
        ensures
            r@ == version_bytes(self),
    {
        let mut v: Vec<u8> = Vec::new();
        v.push(72);
        v.push(84);
        v.push(84);
        v.push(80);
        v.push(47);
        v.push(49);
        v.push(46);
        match self {
            Version::Http10 => {
                v.push(48);
            },
            Version::Http11 => {
                v.push(49);
            },
        }
        assert(v@ =~= version_bytes(self));
        v
    }

    /// Creates a new HTTP `Version` from its wire bytes.
    ///
    /// The supported versions are HTTP/1.0 and HTTP/1.1. The version is
    /// case sensitive and the accepted input is upper case.
    ///
    /// # Errors
    /// Returns `InvalidHttpVersion` when the HTTP version is not supported.
    pub fn try_from(bytes: &[u8]) -> (r: Result<Version, MessageError>)
        ensures
            match r {
                Ok(v) => parse_version(bytes@) == Some(v),
                Err(e) => parse_version(bytes@) is None && e == MessageError::InvalidHttpVersion,
            },
    {
        if crate::ascii::bytes_eq(bytes, Version::Http10.raw().as_slice()) {
            Ok(Version::Http10)
        } else if crate::ascii::bytes_eq(bytes, Version::Http11.raw().as_slice()) {
            Ok(Version::Http11)
        } else {
            Err(MessageError::InvalidHttpVersion)
        }
    }
}

} // verus!
