//! Assembling one request from a connection: header lines are taken until
//! an empty line, then as many body bytes as the Content-Length header asks
//! for. The reading itself is done by the caller; [`Reader`] decides what to
//! read next and collects what was read.
use vstd::prelude::*;
use vstd::string::StringExecFns;
use vstd::utf8::{decode_utf8, valid_utf8};

use crate::request::crlf_bytes;
use crate::stdcalls::{io_error_text, str_from_utf8, utf8_error_display, utf8_error_of, utf8_error_text};
use crate::text::{
    chars_of, eq_ignore_ascii_case, find_colon_space, line_spans, lines, parse_usize,
    parse_usize_span, span_chars, span_eq_ignore_ascii_case, spans_chars, split_once_colon,
    Span,
};
use crate::RawRequest;

verus! {

/// How reading a request ended.
#[derive(PartialEq, Eq, Structural, Debug, Clone, Copy)]
pub enum ReadStatus {
    /// A whole request was read.
    Complete,
    /// The connection ended before a request was complete.
    Closed,
}

/// Why reading a request failed.
#[derive(Debug)]
pub enum ReadError {
    /// Reading from the connection failed.
    IO(std::io::Error),
    /// The header block is not UTF-8.
    Utf8(std::str::Utf8Error),
}

impl From<std::str::Utf8Error> for ReadError {
    fn from(value: std::str::Utf8Error) -> (r: ReadError)
        ensures
            r == ReadError::Utf8(value),
    {
        ReadError::Utf8(value)
    }
}

impl vstd::std_specs::convert::FromSpecImpl<std::str::Utf8Error> for ReadError {
    open spec fn obeys_from_spec() -> bool {
        true
    }

    open spec fn from_spec(value: std::str::Utf8Error) -> ReadError {
        ReadError::Utf8(value)
    }
}

impl From<std::io::Error> for ReadError {
    fn from(value: std::io::Error) -> (r: ReadError)
        ensures
            r == ReadError::IO(value),
    {
        ReadError::IO(value)
    }
}

impl vstd::std_specs::convert::FromSpecImpl<std::io::Error> for ReadError {
    open spec fn obeys_from_spec() -> bool {
        true
    }

    open spec fn from_spec(value: std::io::Error) -> ReadError {
        ReadError::IO(value)
    }
}

/// `s` begins with `prefix`.
pub open spec fn starts_with(s: Seq<char>, prefix: Seq<char>) -> bool {
    s.len() >= prefix.len() && s.take(prefix.len() as int) == prefix
}

impl ReadError {
    /// The text that describes the failure: "ReadError: IO error: " or
    /// "ReadError: Utf8 error: " followed by the text of the cause. The text
    /// of an I/O error comes from the operating system and is not described.
    pub fn message(&self) -> (s: String)
        ensures
            self is IO ==> starts_with(s@, "ReadError: IO error: "@),
            self matches ReadError::Utf8(e) ==> s@ == "ReadError: Utf8 error: "@
                + utf8_error_display(*e),
    {
        let (mut s, t) = match self {
            ReadError::IO(e) => (String::from_str("ReadError: IO error: "), io_error_text(e)),
            ReadError::Utf8(e) => (
                String::from_str("ReadError: Utf8 error: "),
                utf8_error_text(e),
            ),
        };
        let ghost prefix = s@;
        s.append(t.as_str());
        assert(s@.take(prefix.len() as int) =~= prefix);
        s
    }
}

// ---------------------------------------------------------------- Content-Length

/// The body length that one header line announces: a line "Name: value"
/// whose name is "content-length" in any ASCII case and whose value is a
/// number.
pub open spec fn announced_length(line: Seq<char>) -> Option<usize> {
    match split_once_colon(line) {
        Some(kv) => if eq_ignore_ascii_case(kv.0, "content-length"@) {
            parse_usize(kv.1)
        } else {
            None
        },
        None => None,
    }
}

/// The length announced by the first line of `ls` that announces one, or 0.
pub open spec fn first_announced_length(ls: Seq<Seq<char>>) -> usize
    decreases ls.len(),
{
    if ls.len() == 0 {
        0
    } else {
        match announced_length(ls[0]) {
            Some(n) => n,
            None => first_announced_length(ls.drop_first()),
        }
    }
}

/// The body length that the header text `text` announces.
pub open spec fn content_length_of(text: Seq<char>) -> usize {
    first_announced_length(lines(text))
}

fn line_announced_length(text: &Vec<char>, sp: Span, name: &Vec<char>) -> (r: Option<usize>)
    requires
        sp.0 <= sp.1 <= text@.len(),
        name@ == "content-length"@,
    ensures
        r == announced_length(span_chars(text@, sp)),
{
    let ghost line = span_chars(text@, sp);
    match find_colon_space(text, sp) {
        None => None,
        Some(k) => {
            let key: Span = (sp.0, sp.0 + k);
            let value: Span = (sp.0 + k + 2, sp.1);
            assert(span_chars(text@, key) =~= line.take(k as int));
            assert(span_chars(text@, value) =~= line.skip(k + 2));
            if span_eq_ignore_ascii_case(text, key, name) {
                parse_usize_span(text, value)
            } else {
                None
            }
        },
    }
}

/// The body length that the header bytes `buf` announce, found as the
/// first line "Content-Length: n" (name in any ASCII case, n a number);
/// 0 when there is none. Fails when `buf` is not UTF-8.
pub fn content_length(buf: &[u8]) -> (r: Result<usize, ReadError>)
    ensures
        r is Ok <==> valid_utf8(buf@),
        r matches Ok(n) ==> n == content_length_of(decode_utf8(buf@)),
        r matches Err(e) ==> e == ReadError::Utf8(utf8_error_of(buf@)),
{
    let text = match str_from_utf8(buf) {
        Ok(text) => text,
        Err(e) => return Err(ReadError::Utf8(e)),
    };
    let chars = chars_of(text);
    let name = chars_of("content-length");
    let spans = line_spans(&chars);
    let ghost ls = lines(text@);
    let mut i: usize = 0;
    assert(ls.skip(0) =~= ls);
    while i < spans.len()
        invariant
            chars@ == text@,
            valid_utf8(buf@),
            text@ == decode_utf8(buf@),
            ls == lines(text@),
            name@ == "content-length"@,
            ls == spans_chars(chars@, spans@),
            forall|k: int|
                0 <= k < spans@.len() ==> spans@[k].0 <= #[trigger] spans@[k].1 <= chars@.len(),
            i <= spans@.len(),
            first_announced_length(ls) == first_announced_length(ls.skip(i as int)),
        decreases spans@.len() - i,
    {
        let ghost rest = ls.skip(i as int);
        assert(rest[0] == span_chars(chars@, spans@[i as int]));
        match line_announced_length(&chars, spans[i], &name) {
            Some(n) => {
                return Ok(n);
            },
            None => {
                assert(rest.drop_first() =~= ls.skip(i + 1));
            },
        }
        i = i + 1;
    }
    assert(ls.skip(i as int).len() == 0);
    Ok(0)
}

// ---------------------------------------------------------------- the reader

/// What a reader is handed: one line as read up to and including its '\n'
/// (empty at the end of the connection), or the body bytes it asked for.
pub enum ReadInput {
    Line(Vec<u8>),
    Body(Vec<u8>),
}

/// What a reader asks for next.
#[derive(PartialEq, Eq, Structural, Debug, Clone, Copy)]
pub enum ReadStep {
    /// Read one more line, up to and including '\n'.
    Line,
    /// Read exactly this many body bytes.
    Body(usize),
    /// The request is over.
    Done(ReadStatus),
}

/// Decides, line by line, how much of a connection makes up one request.
pub struct Reader {
    body: Option<usize>,
}

impl View for Reader {
    /// `None` while header lines are read; `Some(n)` while the `n` body bytes
    /// are awaited.
    type V = Option<usize>;

    closed spec fn view(&self) -> Option<usize> {
        self.body
    }
}

/// What `read` does, given what the reader awaits (`body`), the bytes read
/// so far (`buf`) and the input: the step it asks for next, the bytes then
/// read so far, and what it awaits afterwards.
pub open spec fn read_outcome(body: Option<usize>, buf: Seq<u8>, input: Seq<u8>) -> (
    Result<ReadStep, ()>,
    Seq<u8>,
    Option<usize>,
) {
    match body {
        Some(n) => (Ok(ReadStep::Done(ReadStatus::Complete)), buf + input, None),
        None => if input.len() == 0 {
            (Ok(ReadStep::Done(ReadStatus::Closed)), buf, None)
        } else if input != crlf_bytes() {
            (Ok(ReadStep::Line), buf + input, None)
        } else if !valid_utf8(buf + input) {
            (Err(()), buf + input, None)
        } else {
            let n = content_length_of(decode_utf8(buf + input));
            if n == 0 {
                (Ok(ReadStep::Done(ReadStatus::Complete)), buf + input, None)
            } else {
                (Ok(ReadStep::Body(n)), buf + input, Some(n))
            }
        },
    }
}

/// The empty line that ends a header block, and then the body bytes that
/// the header block announces, complete the request: the reader has then
/// collected the header lines, the empty line and exactly those body bytes,
/// and awaits the first line of the next request.
pub proof fn lemma_body_completes_request(buf: Seq<u8>, body: Seq<u8>)
    requires
        valid_utf8(buf + crlf_bytes()),
        content_length_of(decode_utf8(buf + crlf_bytes())) == body.len(),
        body.len() > 0,
    ensures
        read_outcome(None, buf, crlf_bytes()) == (
            Ok::<ReadStep, ()>(ReadStep::Body(body.len() as usize)),
            buf + crlf_bytes(),
            Some(body.len() as usize),
        ),
        read_outcome(Some(body.len() as usize), buf + crlf_bytes(), body) == (
            Ok::<ReadStep, ()>(ReadStep::Done(ReadStatus::Complete)),
            buf + crlf_bytes() + body,
            None::<usize>,
        ),
{
}

/// Without a Content-Length header, the empty line completes the request at
/// once.
pub proof fn lemma_no_length_completes_request(buf: Seq<u8>)
    requires
        valid_utf8(buf + crlf_bytes()),
        content_length_of(decode_utf8(buf + crlf_bytes())) == 0,
    ensures
        read_outcome(None, buf, crlf_bytes()) == (
            Ok::<ReadStep, ()>(ReadStep::Done(ReadStatus::Complete)),
            buf + crlf_bytes(),
            None::<usize>,
        ),
{
}

impl Reader {
    /// A reader about to take the first line of a request.
    pub fn new() -> (r: Reader)
        ensures
            r@ is None,
    {
        Reader { body: None }
    }

    /// Takes in what was read and says what to read next. A line is added
    /// to `buf`; an empty line means the connection ended (`Closed`); the
    /// line "\r\n" ends the header block, whose Content-Length says how many
    /// body bytes follow (`Complete` at once when none). Body bytes are added
    /// to `buf` and complete the request.
    pub fn read(&mut self, buf: &mut RawRequest, input: ReadInput) -> (r: Result<
        ReadStep,
        ReadError,
    >)
        requires
            old(self)@ is None ==> input is Line,
            old(self)@ matches Some(n) ==> input matches ReadInput::Body(b) && b@.len() == n,
        ensures
            ({
                let bytes = match input {
                    ReadInput::Line(l) => l@,
                    ReadInput::Body(b) => b@,
                };
                let (step, after, body) = read_outcome(old(self)@, old(buf)@, bytes);
                &&& final(buf)@ == after
                &&& final(self)@ == body
                &&& r matches Ok(s) ==> step == Ok::<ReadStep, ()>(s)
                &&& r matches Err(e) ==> step == Err::<ReadStep, ()>(()) && e == ReadError::Utf8(
                    utf8_error_of(after),
                )
            }),
    {
        match input {
            ReadInput::Body(mut b) => {
                buf.append(&mut b);
                self.body = None;
                Ok(ReadStep::Done(ReadStatus::Complete))
            },
            ReadInput::Line(mut line) => {
                if line.len() == 0 {
                    return Ok(ReadStep::Done(ReadStatus::Closed));
                }
                let end = line.len() == 2 && line[0] == 13 && line[1] == 10;
                assert(end == (line@ == crlf_bytes())) by {
                    if line@.len() == 2 && line@[0] == 13 && line@[1] == 10 {
                        assert(line@ =~= crlf_bytes());
                    }
                }
                buf.append(&mut line);
                if !end {
                    return Ok(ReadStep::Line);
                }
                match content_length(buf.as_slice()) {
                    Err(e) => Err(e),
                    Ok(n) => {
                        if n == 0 {
                            Ok(ReadStep::Done(ReadStatus::Complete))
                        } else {
                            self.body = Some(n);
                            Ok(ReadStep::Body(n))
                        }
                    },
                }
            },
        }
    }
}

} // verus!
