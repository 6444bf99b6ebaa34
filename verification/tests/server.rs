use std::io::{BufRead, Cursor, ErrorKind, Write};

use http_server::reader::{ReadError, ReadInput, ReadStatus, ReadStep, Reader};
use http_server::server::{handle, Connection};
use http_server::RawRequest;

/// Reads one request from `inner` into `buf`, doing the reading that the
/// reader asks for.
fn read_request<R: BufRead>(inner: &mut R, buf: &mut RawRequest) -> Result<ReadStatus, ReadError> {
    let mut reader = Reader::new();
    let mut line = Vec::new();
    inner.read_until(b'\n', &mut line)?;
    let mut input = ReadInput::Line(line);
    loop {
        match reader.read(buf, input)? {
            ReadStep::Line => {
                let mut line = Vec::new();
                inner.read_until(b'\n', &mut line)?;
                input = ReadInput::Line(line);
            }
            ReadStep::Body(n) => {
                let mut body = vec![0u8; n];
                inner.read_exact(&mut body)?;
                input = ReadInput::Body(body);
            }
            ReadStep::Done(status) => return Ok(status),
        }
    }
}

/// Serves the requests of one connection, answering each as the
/// connection's decisions say (without waiting where it asks to).
fn serve_connection<R: BufRead, W: Write>(mut reader: R, writer: &mut W) -> std::io::Result<()> {
    let mut request = RawRequest::with_capacity(4096);
    let mut connection = Connection::new();
    loop {
        request.clear();
        let read = read_request(&mut reader, &mut request);
        if let Some((response, _delay)) = connection.step(read, &request) {
            writer.write_all(response.as_bytes())?;
        }
        if !connection.is_open() {
            break;
        }
    }
    Ok(())
}

#[test]
fn handle_returns_ok_for_get_test() {
    let raw = b"GET /test HTTP/1.1\r\nHost: localhost\r\n\r\n".to_vec();

    let (request, response, _) = handle(&raw);

    assert!(request.is_some());
    assert_eq!(
        response.as_bytes(),
        "HTTP/1.1 200 OK\r\nContent-Length: 12\r\n\r\nHello world!".as_bytes()
    );
}

#[test]
fn handle_returns_not_found_for_unknown_route() {
    let raw = b"GET /missing HTTP/1.1\r\nHost: localhost\r\n\r\n".to_vec();

    let (request, response, _) = handle(&raw);

    assert!(request.is_some());
    assert_eq!(
        response.as_bytes(),
        "HTTP/1.1 404 NOT FOUND\r\nContent-Length: 0\r\n\r\n".as_bytes()
    );
}

#[test]
fn handle_returns_bad_request_for_malformed_request() {
    let raw = b"GET\r\nHost: localhost\r\n\r\n".to_vec();

    let (request, response, _) = handle(&raw);

    assert!(request.is_none());
    assert_eq!(
        response.as_bytes(),
        "HTTP/1.1 400 BAD REQUEST\r\nConnection: close\r\nContent-Length: 17\r\n\r\nMalformed request"
            .as_bytes()
    );
}

#[test]
fn serve_connection_writes_bad_request_and_stops() {
    let input = Cursor::new(
        &b"GET\r\nHost: localhost\r\n\r\nGET /test HTTP/1.1\r\nHost: localhost\r\n\r\n"[..],
    );
    let mut output = Vec::new();

    serve_connection(input, &mut output).unwrap();

    assert_eq!(
        output,
        b"HTTP/1.1 400 BAD REQUEST\r\nConnection: close\r\nContent-Length: 17\r\n\r\nMalformed request"
    );
}

#[test]
fn serve_connection_stops_after_connection_close_request() {
    let input = Cursor::new(&b"GET /test HTTP/1.1\r\nHost: localhost\r\nConnection: close\r\n\r\nGET /test HTTP/1.1\r\nHost: localhost\r\n\r\n"[..]);
    let mut output = Vec::new();

    serve_connection(input, &mut output).unwrap();

    assert_eq!(
        output,
        b"HTTP/1.1 200 OK\r\nContent-Length: 12\r\n\r\nHello world!"
    );
}

#[test]
fn serve_connection_processes_multiple_keep_alive_requests() {
    let input = Cursor::new(&b"GET /test HTTP/1.1\r\nHost: localhost\r\n\r\nGET /missing HTTP/1.1\r\nHost: localhost\r\nConnection: close\r\n\r\n"[..]);
    let mut output = Vec::new();

    serve_connection(input, &mut output).unwrap();

    assert_eq!(
        output,
        b"HTTP/1.1 200 OK\r\nContent-Length: 12\r\n\r\nHello world!HTTP/1.1 404 NOT FOUND\r\nContent-Length: 0\r\n\r\n"
    );
}

#[test]
fn serve_connection_returns_write_errors() {
    struct FailingWriter;

    impl Write for FailingWriter {
        fn write(&mut self, _buf: &[u8]) -> std::io::Result<usize> {
            Err(std::io::Error::new(ErrorKind::BrokenPipe, "write failed"))
        }

        fn flush(&mut self) -> std::io::Result<()> {
            Ok(())
        }
    }

    let input =
        Cursor::new(&b"GET /test HTTP/1.1\r\nHost: localhost\r\nConnection: close\r\n\r\n"[..]);
    let mut output = FailingWriter;

    let err = serve_connection(input, &mut output).unwrap_err();

    assert_eq!(err.kind(), ErrorKind::BrokenPipe);
}
