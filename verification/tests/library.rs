use std::convert::TryFrom;

use http_server::headers::Headers;
use http_server::reader::{content_length, ReadError, ReadInput, ReadStatus, ReadStep, Reader};
use http_server::request::{find_bytes, InvalidRequest, Request};
use http_server::response::{Response, Status};
use http_server::server::{handle, keeps_connection_open, serve_step, Connection};
use http_server::text::{
    chars_of, crlf_pieces, line_spans, parse_usize_span, str_eq_ignore_ascii_case, word_spans,
};
use http_server::RawRequest;

fn words_of(s: &str) -> Vec<String> {
    let v = chars_of(s);
    word_spans(&v).iter().map(|&(a, b)| v[a..b].iter().collect()).collect()
}

#[test]
fn request_line_words_split_at_unicode_whitespace() {
    let raw = "GET\u{a0}/x\u{3000}HTTP/1.1  extra\r\nH: v\r\n\r\n".as_bytes().to_vec();
    let request = Request::try_from(&raw).unwrap();
    assert_eq!(request.method(), "GET");
    assert_eq!(request.path(), "/x");
    assert_eq!(request.version(), "HTTP/1.1");
}

#[test]
fn request_without_headers_is_malformed() {
    let raw = b"GET / HTTP/1.1\r\n\r\n".to_vec();
    assert!(matches!(Request::try_from(&raw), Err(InvalidRequest::Malformed)));
}

#[test]
fn request_without_blank_line_is_malformed() {
    let raw = b"GET / HTTP/1.1\r\nHost: x\r\n".to_vec();
    assert!(matches!(Request::try_from(&raw), Err(InvalidRequest::Malformed)));
}

#[test]
fn request_without_line_end_is_malformed() {
    let raw = b"GET / HTTP/1.1".to_vec();
    assert!(matches!(Request::try_from(&raw), Err(InvalidRequest::Malformed)));
}

#[test]
fn request_line_that_is_not_utf8_is_refused() {
    let raw = b"GET /\xff HTTP/1.1\r\nHost: x\r\n\r\n".to_vec();
    let err = Request::try_from(&raw).err().unwrap();
    assert!(matches!(err, InvalidRequest::Utf8Error(_)));
    assert!(err.message().starts_with("Invalid utf8 request: "));
}

#[test]
fn header_block_that_is_not_utf8_is_refused() {
    let raw = b"GET / HTTP/1.1\r\nHost: \xc3\r\n\r\n".to_vec();
    assert!(matches!(Request::try_from(&raw), Err(InvalidRequest::Utf8Error(_))));
}

#[test]
fn later_header_replaces_earlier_one() {
    let raw = b"GET / HTTP/1.1\r\nA: 1\r\nB: 2\r\nA: 3\r\n\r\n".to_vec();
    let request = Request::try_from(&raw).unwrap();
    assert_eq!(request.headers().len(), 2);
    assert_eq!(request.headers().get("A"), Some("3"));
    assert_eq!(request.headers().get("B"), Some("2"));
    assert_eq!(request.headers().get("a"), None);
    assert_eq!(request.headers().entry(0), ("A", "3"));
}

#[test]
fn header_splits_at_first_colon_space() {
    let raw = b"GET / HTTP/1.1\r\nX: b: c\r\nY:z: \r\n\r\nbody".to_vec();
    let request = Request::try_from(&raw).unwrap();
    assert_eq!(request.headers().get("X"), Some("b: c"));
    assert_eq!(request.headers().get("Y:z"), Some(""));
}

#[test]
fn keep_alive_does_not_close() {
    let raw = b"GET / HTTP/1.1\r\nConnection: keep-alive\r\n\r\n".to_vec();
    let request = Request::try_from(&raw).unwrap();
    assert!(!request.should_close());
    assert!(keeps_connection_open(&Some(request)));
    assert!(!keeps_connection_open(&None));
}

#[test]
fn refusal_messages() {
    assert_eq!(InvalidRequest::Malformed.message(), "Malformed request");
    assert_eq!(InvalidRequest::MalformedHeader.message(), "Malformed header request");
}

#[test]
fn content_length_rules() {
    assert_eq!(content_length(b"GET / HTTP/1.1\r\nHost: x\r\n\r\n").unwrap(), 0);
    assert_eq!(content_length(b"A\r\ncontent-LENGTH: +7\r\n\r\n").unwrap(), 7);
    assert_eq!(content_length(b"A\r\nContent-Length: 007\r\n").unwrap(), 7);
    assert_eq!(content_length(b"Content-Length: x\r\nContent-Length: 3\r\n").unwrap(), 3);
    assert_eq!(content_length(b"Content-Length: -3\r\n").unwrap(), 0);
    assert_eq!(content_length(b"Content-Length: +\r\n").unwrap(), 0);
    assert_eq!(content_length(b"Content-Length:3\r\n").unwrap(), 0);
    assert_eq!(content_length(b"Content-Length: 99999999999999999999999\r\n").unwrap(), 0);
    assert_eq!(content_length(b"Content-Length: 4\nContent-Length: 5\n").unwrap(), 4);
    assert!(matches!(content_length(b"Content-Length: 4\xff\r\n"), Err(ReadError::Utf8(_))));
}

#[test]
fn reader_steps() {
    let mut reader = Reader::new();
    let mut buf = RawRequest::new();
    let step = reader.read(&mut buf, ReadInput::Line(b"POST / HTTP/1.1\r\n".to_vec())).unwrap();
    assert_eq!(step, ReadStep::Line);
    let step = reader.read(&mut buf, ReadInput::Line(b"Content-Length: 2\r\n".to_vec())).unwrap();
    assert_eq!(step, ReadStep::Line);
    let step = reader.read(&mut buf, ReadInput::Line(b"\r\n".to_vec())).unwrap();
    assert_eq!(step, ReadStep::Body(2));
    let step = reader.read(&mut buf, ReadInput::Body(b"ok".to_vec())).unwrap();
    assert_eq!(step, ReadStep::Done(ReadStatus::Complete));
    assert_eq!(buf, b"POST / HTTP/1.1\r\nContent-Length: 2\r\n\r\nok".to_vec());
}

#[test]
fn reader_closes_on_end_of_input_mid_request() {
    let mut reader = Reader::new();
    let mut buf = RawRequest::new();
    let step = reader.read(&mut buf, ReadInput::Line(b"GET / HT".to_vec())).unwrap();
    assert_eq!(step, ReadStep::Line);
    let step = reader.read(&mut buf, ReadInput::Line(Vec::new())).unwrap();
    assert_eq!(step, ReadStep::Done(ReadStatus::Closed));
    assert_eq!(buf, b"GET / HT".to_vec());
}

#[test]
fn reader_refuses_header_block_that_is_not_utf8() {
    let mut reader = Reader::new();
    let mut buf = RawRequest::new();
    reader.read(&mut buf, ReadInput::Line(b"GET /\xff HTTP/1.1\r\n".to_vec())).unwrap();
    let err = reader.read(&mut buf, ReadInput::Line(b"\r\n".to_vec())).unwrap_err();
    assert!(matches!(err, ReadError::Utf8(_)));
    assert!(err.message().starts_with("ReadError: Utf8 error: "));
}

#[test]
fn read_error_message_for_io() {
    let err = ReadError::from(std::io::Error::new(std::io::ErrorKind::Other, "boom"));
    assert!(err.message().starts_with("ReadError: IO error: "));
}

#[test]
fn headers_insert_then_get() {
    let mut headers = Headers::new();
    headers.insert("A", "1");
    headers.insert("B", "2");
    headers.insert("A", "3");
    assert_eq!(headers.get("A"), Some("3"));
    assert_eq!(headers.get("B"), Some("2"));
    assert_eq!(headers.len(), 2);
    let from = Headers::from(&[("K", "x"), ("K", "y")]);
    assert_eq!(from.len(), 1);
    assert_eq!(from.get("K"), Some("y"));
}

#[test]
fn response_counts_body_bytes() {
    let response = Response::ok(Headers::new(), "h\u{e9}");
    assert_eq!(
        response.as_bytes(),
        "HTTP/1.1 200 OK\r\nContent-Length: 3\r\n\r\nh\u{e9}".as_bytes()
    );
    let body = "x".repeat(1234);
    let response = Response::not_found(Headers::from(&[("A", "1"), ("B", "2")]), &body);
    let expected = format!("HTTP/1.1 404 NOT FOUND\r\nA: 1\r\nB: 2\r\nContent-Length: 1234\r\n\r\n{body}");
    assert_eq!(response.as_bytes(), expected.as_bytes());
}

#[test]
fn status_codes_and_names() {
    assert_eq!(Status::Success.code(), 200);
    assert_eq!(Status::Success.name(), "OK");
    assert_eq!(Status::BadRequest.code(), 400);
    assert_eq!(Status::BadRequest.name(), "BAD REQUEST");
    assert_eq!(Status::NotFound.code(), 404);
    assert_eq!(Status::NotFound.name(), "NOT FOUND");
}

#[test]
fn handle_sleep_route_asks_for_a_wait() {
    let raw = b"GET /sleep HTTP/1.1\r\nHost: x\r\n\r\n".to_vec();
    let (request, response, delay) = handle(&raw);
    assert!(request.is_some());
    assert_eq!(delay, 5);
    assert_eq!(
        response.as_bytes(),
        "HTTP/1.1 200 OK\r\nContent-Length: 12\r\n\r\nSlept for 5s".as_bytes()
    );
}

#[test]
fn handle_other_method_or_version_is_not_found() {
    for raw in [&b"POST /test HTTP/1.1\r\nH: v\r\n\r\n"[..], &b"GET /test HTTP/1.0\r\nH: v\r\n\r\n"[..]] {
        let raw = raw.to_vec();
        let (request, response, delay) = handle(&raw);
        assert!(request.is_some());
        assert_eq!(delay, 0);
        assert_eq!(
            response.as_bytes(),
            "HTTP/1.1 404 NOT FOUND\r\nContent-Length: 0\r\n\r\n".as_bytes()
        );
    }
}

#[test]
fn handle_malformed_header_is_bad_request() {
    let raw = b"GET /test HTTP/1.1\r\nHost localhost\r\n\r\n".to_vec();
    let (request, response, delay) = handle(&raw);
    assert!(request.is_none());
    assert_eq!(delay, 0);
    assert_eq!(
        response.as_bytes(),
        "HTTP/1.1 400 BAD REQUEST\r\nConnection: close\r\nContent-Length: 24\r\n\r\nMalformed header request"
            .as_bytes()
    );
}

#[test]
fn serve_step_stops_without_a_complete_request() {
    let raw = RawRequest::new();
    assert!(serve_step(Ok(ReadStatus::Closed), &raw).is_none());
    let err = ReadError::from(std::io::Error::new(std::io::ErrorKind::Other, "boom"));
    assert!(serve_step(Err(err), &raw).is_none());
    let raw = b"GET /test HTTP/1.1\r\nConnection: CLOSE\r\n\r\n".to_vec();
    let (_, delay, keep_open) = serve_step(Ok(ReadStatus::Complete), &raw).unwrap();
    assert_eq!(delay, 0);
    assert!(!keep_open);
    let raw = b"GET /test HTTP/1.1\r\nHost: x\r\n\r\n".to_vec();
    let (_, _, keep_open) = serve_step(Ok(ReadStatus::Complete), &raw).unwrap();
    assert!(keep_open);
}

#[test]
fn text_scanning() {
    assert_eq!(words_of("  a\tbc \u{85}d  "), vec!["a", "bc", "d"]);
    assert_eq!(words_of(""), Vec::<String>::new());
    let v = chars_of("a\r\n\r\nb\r\r\n");
    assert_eq!(crlf_pieces(&v), vec![(0, 1), (3, 3), (5, 7), (9, 9)]);
    let v = chars_of("a\r\nb\n\nc\r");
    assert_eq!(line_spans(&v), vec![(0, 1), (3, 4), (5, 5), (6, 8)]);
    let v = chars_of("+18446744073709551615");
    assert_eq!(parse_usize_span(&v, (0, v.len())), Some(usize::MAX));
    assert_eq!(parse_usize_span(&v, (0, 0)), None);
    assert!(str_eq_ignore_ascii_case("Content-Length", "content-length"));
    assert!(!str_eq_ignore_ascii_case("Content-Length", "content-lengths"));
    assert!(!str_eq_ignore_ascii_case("\u{e9}", "\u{c9}"));
    assert_eq!(find_bytes(b"ab\r\ncd\r\n", b"\r\n"), Some(2));
    assert_eq!(find_bytes(b"ab\r", b"\r\n"), None);
}

#[test]
fn written_request_parses_back() {
    let raw = "PUT /a/b HTTP/2\r\nX: caf\u{e9}\r\nY: a: b\r\nX: again\r\n\r\nrest\r\n\r\n"
        .as_bytes()
        .to_vec();
    let request = Request::try_from(&raw).unwrap();
    assert_eq!(request.method(), "PUT");
    assert_eq!(request.path(), "/a/b");
    assert_eq!(request.version(), "HTTP/2");
    assert_eq!(request.headers().len(), 2);
    assert_eq!(request.headers().entry(0), ("X", "again"));
    assert_eq!(request.headers().entry(1), ("Y", "a: b"));
}

#[test]
fn refused_request_closes_the_connection() {
    let raw = b"GET\r\nConnection: keep-alive\r\n\r\n".to_vec();
    let (response, delay, keep_open) = serve_step(Ok(ReadStatus::Complete), &raw).unwrap();
    assert_eq!(delay, 0);
    assert!(!keep_open);
    assert!(response.as_bytes().starts_with(b"HTTP/1.1 400 BAD REQUEST\r\nConnection: close\r\n"));
}

#[test]
fn utf8_refusal_text_holds_the_error_text() {
    let raw = b"GET /\xff HTTP/1.1\r\nHost: x\r\n\r\n".to_vec();
    let expected_error = std::str::from_utf8(b"GET /\xff HTTP/1.1").unwrap_err();
    let err = Request::try_from(&raw).err().unwrap();
    assert_eq!(err.message(), format!("Invalid utf8 request: {expected_error}"));
    let (request, response, delay) = handle(&raw);
    assert!(request.is_none());
    assert_eq!(delay, 0);
    let body = format!("Invalid utf8 request: {expected_error}");
    let expected = format!(
        "HTTP/1.1 400 BAD REQUEST\r\nConnection: close\r\nContent-Length: {}\r\n\r\n{}",
        body.len(),
        body
    );
    assert_eq!(response.as_bytes(), expected.as_bytes());
}

#[test]
fn utf8_read_error_text_holds_the_error_text() {
    let bytes = b"Host: \xc3\r\n\r\n";
    let expected_error = std::str::from_utf8(bytes).unwrap_err();
    let err = content_length(bytes).unwrap_err();
    assert_eq!(err.message(), format!("ReadError: Utf8 error: {expected_error}"));
}

#[test]
fn status_text_is_code_and_reason() {
    assert_eq!(Status::Success.text(), "200 OK");
    assert_eq!(Status::BadRequest.text(), "400 BAD REQUEST");
    assert_eq!(Status::NotFound.text(), "404 NOT FOUND");
}

#[test]
fn bytes_after_the_header_block_do_not_change_the_parse() {
    let raw = b"GET /a HTTP/1.1\r\nH: v\r\n\r\n".to_vec();
    let mut longer = raw.clone();
    longer.extend_from_slice(b"\xff\xfe\r\n\r\nX: y\r\n\r\n");
    let r1 = Request::try_from(&raw).unwrap();
    let r2 = Request::try_from(&longer).unwrap();
    assert_eq!(r1.method(), r2.method());
    assert_eq!(r1.path(), r2.path());
    assert_eq!(r1.version(), r2.version());
    assert_eq!(r2.headers().len(), 1);
    assert_eq!(r2.headers().get("H"), Some("v"));
}

#[test]
fn last_connection_line_decides_close() {
    let raw = b"GET / HTTP/1.1\r\nConnection: close\r\nConnection: keep-alive\r\n\r\n".to_vec();
    assert!(!Request::try_from(&raw).unwrap().should_close());
    let raw = b"GET / HTTP/1.1\r\nConnection: keep-alive\r\nCONNECTION: Close\r\n\r\n".to_vec();
    assert!(Request::try_from(&raw).unwrap().should_close());
    let raw = b"GET / HTTP/1.1\r\nConnection: closed\r\n\r\n".to_vec();
    assert!(!Request::try_from(&raw).unwrap().should_close());
}

#[test]
fn connection_answers_until_a_request_closes_it() {
    let mut connection = Connection::new();
    let first = b"GET /test HTTP/1.1\r\nH: v\r\n\r\n".to_vec();
    let (response, delay) = connection.step(Ok(ReadStatus::Complete), &first).unwrap();
    assert_eq!(delay, 0);
    assert_eq!(
        response.as_bytes(),
        "HTTP/1.1 200 OK\r\nContent-Length: 12\r\n\r\nHello world!".as_bytes()
    );
    assert!(connection.is_open());
    let second = b"GET /x HTTP/1.1\r\nConnection: close\r\n\r\n".to_vec();
    assert!(connection.step(Ok(ReadStatus::Complete), &second).is_some());
    assert!(!connection.is_open());
    assert!(connection.step(Ok(ReadStatus::Complete), &first).is_none());
    assert!(!connection.is_open());
}

#[test]
fn connection_stops_when_reading_ends() {
    let mut connection = Connection::new();
    let raw = RawRequest::new();
    assert!(connection.step(Ok(ReadStatus::Closed), &raw).is_none());
    assert!(!connection.is_open());
    let mut connection = Connection::new();
    let err = ReadError::from(std::io::Error::new(std::io::ErrorKind::Other, "boom"));
    assert!(connection.step(Err(err), &raw).is_none());
    assert!(!connection.is_open());
}
