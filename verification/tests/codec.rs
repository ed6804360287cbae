use micro_http::ascii::{find, parse_content_length, trim};
use micro_http::{
    Body, Header, Headers, MediaType, MessageError, Method, RequestError, ResponseError,
    StatusCode, Uri, Version,
};

#[test]
fn test_method_round_trip() {
    assert_eq!(Method::try_from(b"GET").unwrap(), Method::Get);
    assert_eq!(Method::try_from(b"PUT").unwrap(), Method::Put);
    assert_eq!(Method::try_from(b"PATCH").unwrap(), Method::Patch);
    assert_eq!(Method::Get.raw(), b"GET".to_vec());
    assert_eq!(Method::Put.raw(), b"PUT".to_vec());
    assert_eq!(Method::Patch.raw(), b"PATCH".to_vec());
    // The method is case sensitive.
    assert_eq!(
        Method::try_from(b"get").unwrap_err(),
        MessageError::InvalidRequest(RequestError::InvalidHttpMethod)
    );
    assert!(Method::try_from(b"POST").is_err());
    assert!(Method::try_from(b"").is_err());
}

#[test]
fn test_version_round_trip() {
    assert_eq!(Version::try_from(b"HTTP/1.0").unwrap(), Version::Http10);
    assert_eq!(Version::try_from(b"HTTP/1.1").unwrap(), Version::Http11);
    assert_eq!(Version::Http10.raw(), b"HTTP/1.0".to_vec());
    assert_eq!(Version::Http11.raw(), b"HTTP/1.1".to_vec());
    assert_eq!(Version::default(), Version::Http11);
    assert_eq!(
        Version::try_from(b"http/1.1").unwrap_err(),
        MessageError::InvalidHttpVersion
    );
    assert!(Version::try_from(b"HTTP/2.0").is_err());
}

#[test]
fn test_status_code_round_trip() {
    let cases = [
        (StatusCode::Continue, b"100"),
        (StatusCode::OK, b"200"),
        (StatusCode::NoContent, b"204"),
        (StatusCode::BadRequest, b"400"),
        (StatusCode::NotFound, b"404"),
        (StatusCode::InternalServerError, b"500"),
        (StatusCode::NotImplemented, b"501"),
    ];
    for (code, raw) in cases {
        assert_eq!(code.raw(), raw.to_vec());
        assert_eq!(StatusCode::try_from(&raw[..]).unwrap(), code);
    }
    assert_eq!(
        StatusCode::try_from(b"503").unwrap_err(),
        MessageError::InvalidResponse(ResponseError::InvalidStatusCode)
    );
}

#[test]
fn test_media_type() {
    assert_eq!(
        MediaType::try_from(b"application/json").unwrap(),
        MediaType::ApplicationJson
    );
    assert_eq!(MediaType::try_from(b"text/plain").unwrap(), MediaType::PlainText);
    assert!(MediaType::try_from(b"application/json2").is_err());
    assert!(MediaType::try_from(b"").is_err());
    assert_eq!(MediaType::ApplicationJson.as_str(), "application/json");
    assert_eq!(MediaType::PlainText.as_str(), "text/plain");
    assert_eq!(MediaType::default(), MediaType::ApplicationJson);
}

#[test]
fn test_header_names() {
    assert_eq!(Header::try_from(b"Content-Length").unwrap(), Header::ContentLength);
    assert_eq!(Header::try_from(b"content-length").unwrap(), Header::ContentLength);
    assert_eq!(Header::try_from(b" Expect ").unwrap(), Header::Expect);
    assert_eq!(Header::try_from(b"TRANSFER-ENCODING").unwrap(), Header::TransferEncoding);
    assert_eq!(Header::try_from(b"Server").unwrap(), Header::Server);
    assert_eq!(Header::try_from(b"Content-Type").unwrap(), Header::ContentType);
    assert_eq!(
        Header::try_from(b"X-Unknown").unwrap_err(),
        MessageError::UnsupportedHeader
    );
    assert_eq!(Header::ContentLength.raw(), b"Content-Length".to_vec());
}

#[test]
fn test_find() {
    let bytes = b"pattern and the pattern";
    assert_eq!(find(bytes, b"pattern"), Some(0));
    assert_eq!(find(bytes, b"and"), Some(8));
    assert_eq!(find(bytes, b"missing"), None);
    assert_eq!(find(b"", b"x"), None);
    assert_eq!(find(b"\r\nabc\r\n", b"\r\n"), Some(0));
}

#[test]
fn test_trim_and_content_length_values() {
    assert_eq!(trim(b"  24 \t"), b"24");
    assert_eq!(trim(b""), b"");
    assert_eq!(trim(b" \t "), b"");
    assert_eq!(parse_content_length(b"24"), Some(24));
    assert_eq!(parse_content_length(b"+24"), Some(24));
    assert_eq!(parse_content_length(b"0"), Some(0));
    assert_eq!(parse_content_length(b"2147483647"), Some(2147483647));
    assert_eq!(parse_content_length(b"2147483648"), None);
    assert_eq!(parse_content_length(b"alpha"), None);
    assert_eq!(parse_content_length(b"-1"), None);
    // A minus sign is accepted exactly on zero, as a signed parse allows.
    assert_eq!(parse_content_length(b"-0"), Some(0));
    assert_eq!(parse_content_length(b"-000"), Some(0));
    assert_eq!(parse_content_length(b"-"), None);
    assert_eq!(parse_content_length(b""), None);
}

#[test]
fn test_headers_parse_header_line() {
    let mut request_header = Headers::default();
    assert!(request_header.parse_header_line(b"Content-Length: 24").is_ok());
    assert!(request_header.parse_header_line(b"Content-Length: 24: 2").is_err());
    assert_eq!(request_header.content_length(), 24);

    let mut headers = Headers::default();
    assert_eq!(
        headers.parse_header_line(b"Content-Length: alpha").unwrap_err(),
        MessageError::InvalidHeader
    );
    assert_eq!(
        headers.parse_header_line(b"Content-Length: -5").unwrap_err(),
        MessageError::InvalidHeader
    );
    assert_eq!(
        headers.parse_header_line(b"Transfer-Encoding: chunked").unwrap_err(),
        MessageError::InvalidHeader
    );
    assert_eq!(
        headers.parse_header_line(b"Transfer-Encoding: identity").unwrap_err(),
        MessageError::InvalidHeader
    );
    assert_eq!(
        headers.parse_header_line(b"Expect: 103-checkpoint").unwrap_err(),
        MessageError::InvalidHeader
    );
    assert_eq!(
        headers.parse_header_line(b"NoSeparator").unwrap_err(),
        MessageError::InvalidHeader
    );
    assert!(headers.parse_header_line(b"Expect: 100-continue").is_ok());
    assert!(headers.expect_continue());

    // A signed zero passes the non-negative check.
    let mut headers = Headers::default();
    assert!(headers.parse_header_line(b"Content-Length: -0").is_ok());
    assert_eq!(headers.content_length(), 0);

    // Names are compared without trimming: a padded name is not the
    // recognized one and is stored verbatim instead.
    let mut headers = Headers::default();
    assert!(headers.parse_header_line(b"Content-Length : 7").is_ok());
    assert_eq!(headers.content_length(), 0);
    assert_eq!(
        headers.header_line("Content-Length ").map(String::as_str),
        Some("7")
    );
}

#[test]
fn test_headers_try_from() {
    let headers = Headers::try_from(b"Content-Length: 55\r\n\r\n").unwrap();
    assert_eq!(headers.content_length(), 55);

    let headers =
        Headers::try_from(b"Content-Length: 13\r\nContent-Type: application/json\r\n\r\n").unwrap();
    assert_eq!(headers.content_length(), 13);
    assert_eq!(
        headers.header_line("Content-Type").map(String::as_str),
        Some("application/json")
    );
    assert_eq!(headers.header_line("Missing"), None);

    assert_eq!(
        Headers::try_from(b"Content-Length: alpha\r\n\r\n").unwrap_err(),
        MessageError::InvalidHeader
    );
    // Unknown headers are stored verbatim and do not invalidate.
    let headers = Headers::try_from(b"X-Custom: some value\r\n\r\n").unwrap();
    assert_eq!(
        headers.header_line("X-Custom").map(String::as_str),
        Some("some value")
    );
    // An empty block parses to the default.
    let headers = Headers::try_from(b"").unwrap();
    assert_eq!(headers.content_length(), 0);
    assert!(!headers.expect_continue());
}

#[test]
fn test_headers_write_all() {
    let headers = Headers::default();
    let mut buf: Vec<u8> = Vec::new();
    headers.write_all(&mut buf);
    assert_eq!(buf, b"\r\n".to_vec());

    let mut buf: Vec<u8> = Vec::new();
    let mut headers = Headers::try_from(b"Content-Length: 40\r\n\r\n").unwrap();
    headers.add_header_line(String::from("Server"), String::from("Firecracker API"));
    headers.write_all(&mut buf);
    assert_eq!(buf, b"Server: Firecracker API\r\nContent-Length: 40\r\n\r\n".to_vec());
}

#[test]
fn test_headers_utf8_values() {
    // Header names and values outside ASCII are stored verbatim as long
    // as they are valid UTF-8, as the wire text of a request is.
    let mut headers = Headers::default();
    assert!(headers.parse_header_line("X-Note: f\u{fc}r Sie".as_bytes()).is_ok());
    assert_eq!(
        headers.header_line("X-Note").map(String::as_str),
        Some("f\u{fc}r Sie")
    );
    // A line that is not valid UTF-8 is an invalid header.
    assert_eq!(
        headers.parse_header_line(b"X-Bad: \xff\xfe").unwrap_err(),
        MessageError::InvalidHeader
    );
    // A block that is not valid UTF-8 cannot be request text at all.
    assert_eq!(
        Headers::try_from(b"X-Bad: \xff\xfe\r\n\r\n").unwrap_err(),
        MessageError::InvalidRequest(RequestError::InvalidRequest)
    );
    let headers = Headers::try_from("X-Note: caf\u{e9}\r\n\r\n".as_bytes()).unwrap();
    assert_eq!(
        headers.header_line("X-Note").map(String::as_str),
        Some("caf\u{e9}")
    );
}

#[test]
fn test_body() {
    let body = Body::new(b"This is a test body.".to_vec());
    assert_eq!(body.len(), 20);
    assert!(!body.is_empty());
    assert_eq!(body.as_stream().as_slice(), b"This is a test body.");
    assert!(Body::new(Vec::new()).is_empty());
}

#[test]
fn test_uri() {
    let uri = Uri::new("http://localhost/home");
    assert_eq!(uri.get_abs_path(), "/home");
    let uri = Uri::new("/machine-config");
    assert_eq!(uri.get_abs_path(), "/machine-config");
    let uri = Uri::new("http://localhost");
    assert_eq!(uri.get_abs_path(), "");
    let uri = Uri::new("http://");
    assert_eq!(uri.get_abs_path(), "");
    let uri = Uri::new("relative/path");
    assert_eq!(uri.get_abs_path(), "");
    assert!(Uri::try_from(b"/ok").is_ok());
    assert_eq!(Uri::try_from(b"").unwrap_err(), RequestError::InvalidUri);
    // Any valid UTF-8 request target is accepted; undecodable bytes are
    // not.
    let uri = Uri::try_from("/caf\u{e9}".as_bytes()).unwrap();
    assert_eq!(uri.get_abs_path(), "/caf\u{e9}");
    let uri = Uri::try_from("http://h\u{f6}st/\u{fc}ber".as_bytes()).unwrap();
    assert_eq!(uri.get_abs_path(), "/\u{fc}ber");
    assert_eq!(Uri::try_from(&[47, 200][..]).unwrap_err(), RequestError::InvalidUri);
}

#[test]
fn test_error_messages() {
    assert_eq!(MessageError::InvalidHeader.describe(), "Invalid header.");
    assert_eq!(MessageError::UnsupportedHeader.describe(), "Unsupported header.");
    assert_eq!(MessageError::IOError.describe(), "IO error.");
    assert_eq!(
        MessageError::InvalidHttpVersion.describe(),
        "Invalid HTTP Version: Unsupported HTTP version."
    );
    assert_eq!(
        MessageError::InvalidRequest(RequestError::InvalidRequest).describe(),
        "Request error: Invalid request."
    );
    assert_eq!(
        MessageError::InvalidResponse(ResponseError::InvalidResponse).describe(),
        "Response error: Invalid response."
    );
}
