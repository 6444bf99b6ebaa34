use std::convert::TryFrom;
use std::io::{BufRead, Cursor};

use http_server::headers::Headers;
use http_server::reader::{ReadError, ReadInput, ReadStatus, ReadStep, Reader};
use http_server::request::{InvalidRequest, Request};
use http_server::response::Response;
use http_server::RawRequest;

/// Reads one request from `inner` into `buf`, doing the reading that the
/// reader asks for.
fn read_request<R: BufRead>(inner: &mut R, buf: &mut RawRequest) -> Result<ReadStatus, ReadError> {
    let mut reader = Reader::new();
    let mut line = Vec::new();
    inner.read_until(b'\n', &mut line)?;
    let mut input = ReadInput::Line(line);
    loop {
        match reader.read(buf, input)? {
            ReadStep::Line => {
                let mut line = Vec::new();
                inner.read_until(b'\n', &mut line)?;
                input = ReadInput::Line(line);
            }
            ReadStep::Body(n) => {
                let mut body = vec![0u8; n];
                inner.read_exact(&mut body)?;
                input = ReadInput::Body(body);
            }
            ReadStep::Done(status) => return Ok(status),
        }
    }
}

#[test]
fn parses_valid_get_request() {
    let raw = b"GET /test HTTP/1.1\r\nHost: localhost\r\n\r\n".to_vec();

    let request = Request::try_from(&raw).unwrap();

    assert_eq!(request.method(), "GET");
    assert_eq!(request.path(), "/test");
    assert_eq!(request.version(), "HTTP/1.1");
}

#[test]
fn parses_headers() {
    let raw = b"GET /test HTTP/1.1\r\nHost: localhost\r\nUser-Agent: nc\r\n\r\n".to_vec();

    let request = Request::try_from(&raw).unwrap();

    assert_eq!(request.headers().get("Host"), Some("localhost"));
    assert_eq!(request.headers().get("User-Agent"), Some("nc"));
}

#[test]
fn detects_connection_close_case_insensitively() {
    let raw = b"GET /test HTTP/1.1\r\ncOnNeCtIoN: Close\r\n\r\n".to_vec();

    let request = Request::try_from(&raw).unwrap();

    assert!(request.should_close());
}

#[test]
fn rejects_malformed_request_line() {
    let raw = b"GET\r\nHost: localhost\r\n\r\n".to_vec();

    let result = Request::try_from(&raw);

    assert!(matches!(result, Err(InvalidRequest::Malformed)));
}

#[test]
fn rejects_malformed_header() {
    let raw = b"GET /test HTTP/1.1\r\nHost localhost\r\n\r\n".to_vec();

    let result = Request::try_from(&raw);

    assert!(matches!(result, Err(InvalidRequest::MalformedHeader)));
}

#[test]
fn reader_returns_closed_on_eof_before_request() {
    let mut input = Cursor::new(&b""[..]);
    let mut buf = RawRequest::new();

    let status = read_request(&mut input, &mut buf).unwrap();

    assert_eq!(status, ReadStatus::Closed);
    assert!(buf.is_empty());
}

#[test]
fn reader_reads_complete_header_only_request() {
    let input = b"GET /test HTTP/1.1\r\nHost: localhost\r\n\r\n";
    let mut cursor = Cursor::new(&input[..]);
    let mut buf = RawRequest::new();

    let status = read_request(&mut cursor, &mut buf).unwrap();

    assert_eq!(status, ReadStatus::Complete);
    assert_eq!(buf.as_slice(), input);
}

#[test]
fn reader_reads_body_using_content_length() {
    let input = b"POST /test HTTP/1.1\r\nHost: localhost\r\nContent-Length: 5\r\n\r\nhelloextra";
    let expected = b"POST /test HTTP/1.1\r\nHost: localhost\r\nContent-Length: 5\r\n\r\nhello";
    let mut cursor = Cursor::new(&input[..]);
    let mut buf = RawRequest::new();

    let status = read_request(&mut cursor, &mut buf).unwrap();

    assert_eq!(status, ReadStatus::Complete);
    assert_eq!(buf.as_slice(), expected);
}

#[test]
fn response_formats_ok_with_content_length() {
    let response = Response::ok(Headers::new(), "Hello world!");

    assert_eq!(
        response.as_bytes(),
        "HTTP/1.1 200 OK\r\nContent-Length: 12\r\n\r\nHello world!".as_bytes()
    );
}

#[test]
fn response_formats_bad_request_with_custom_headers() {
    let response = Response::bad_request(Headers::from(&[("Connection", "close")]), "bad");

    assert_eq!(
        response.as_bytes(),
        "HTTP/1.1 400 BAD REQUEST\r\nConnection: close\r\nContent-Length: 3\r\n\r\nbad".as_bytes()
    );
}

#[test]
fn response_formats_not_found_with_empty_body() {
    let response = Response::not_found(Headers::new(), "");

    assert_eq!(
        response.as_bytes(),
        "HTTP/1.1 404 NOT FOUND\r\nContent-Length: 0\r\n\r\n".as_bytes()
    );
}
