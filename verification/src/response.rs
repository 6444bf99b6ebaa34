//! Formatting responses: a status line, the given headers, a
//! Content-Length header and the body.
use vstd::prelude::*;
use vstd::string::StringExecFns;
use vstd::utf8::encode_utf8;

use crate::headers::{header_lines, HeaderEntry, Headers};
use crate::text::{decimal, digit_char, lemma_decimal_reads_back, parse_usize};

verus! {

/// The statuses this server answers with.
#[derive(PartialEq, Eq, Structural, Debug, Clone, Copy)]
pub enum Status {
    NotFound,
    BadRequest,
    Success,
}

impl Status {
    /// The numeric status code.
    pub open spec fn code_number(self) -> u16 {
        match self {
            Status::NotFound => 404,
            Status::BadRequest => 400,
            Status::Success => 200,
        }
    }

    /// The reason phrase.
    pub open spec fn reason(self) -> Seq<char> {
        match self {
            Status::NotFound => "NOT FOUND"@,
            Status::BadRequest => "BAD REQUEST"@,
            Status::Success => "OK"@,
        }
    }

    /// The reason phrase, as in "404 NOT FOUND".
    pub fn name(&self) -> (r: &'static str)
        ensures
            r@ == self.reason(),
    {
        match self {
            Status::NotFound => "NOT FOUND",
            Status::BadRequest => "BAD REQUEST",
            Status::Success => "OK",
        }
    }

    /// The status as written in a status line: the code, a space and the
    /// reason phrase, as in "404 NOT FOUND".
    pub open spec fn status_text(self) -> Seq<char> {
        decimal(self.code_number() as nat) + " "@ + self.reason()
    }

    /// The status as written in a status line, as in "404 NOT FOUND".
    pub fn text(&self) -> (s: String)
        ensures
            s@ == self.status_text(),
    {
        let mut s = String::new();
        push_decimal(&mut s, self.code() as usize);
        s.append(" ");
        s.append(self.name());
        assert(s@ =~= self.status_text());
        s
    }

    /// The numeric status code.
    pub fn code(&self) -> (r: u16)
        ensures
            r == self.code_number(),
    {
        match self {
            Status::NotFound => 404,
            Status::BadRequest => 400,
            Status::Success => 200,
        }
    }
}

/// The text of a response: the status line, the header lines, a
/// Content-Length header with the length of the body in UTF-8 bytes, a blank
/// line and the body.
pub open spec fn response_text(status: Status, es: Seq<HeaderEntry>, body: Seq<char>) -> Seq<
    char,
> {
    "HTTP/1.1 "@ + status.status_text() + "\r\n"@ + header_lines(es) + "Content-Length: "@ + decimal(encode_utf8(body).len()) + "\r\n\r\n"@
        + body
}

/// `text` is `head`, then the header line "Content-Length: `digits`", a
/// blank line, and `body`.
pub open spec fn ends_with_length_and_body(
    text: Seq<char>,
    head: Seq<char>,
    digits: Seq<char>,
    body: Seq<char>,
) -> bool {
    text == head + "Content-Length: "@ + digits + "\r\n\r\n"@ + body
}

/// A response announces its body's length: its Content-Length value reads
/// back (as `str::parse::<usize>` reads it) as the number of UTF-8 bytes of
/// the body, and the body follows the blank line after it to the end.
pub proof fn lemma_response_announces_body_length(
    status: Status,
    es: Seq<HeaderEntry>,
    body: Seq<char>,
)
    requires
        encode_utf8(body).len() <= usize::MAX,
    ensures
        exists|head: Seq<char>, digits: Seq<char>|
            #[trigger] ends_with_length_and_body(response_text(status, es, body), head, digits, body)
                && parse_usize(digits) == Some(encode_utf8(body).len() as usize),
{
    let n = encode_utf8(body).len();
    lemma_decimal_reads_back(n);
    let head = "HTTP/1.1 "@ + status.status_text() + "\r\n"@ + header_lines(es);
    let digits = decimal(n);
    assert(ends_with_length_and_body(response_text(status, es, body), head, digits, body));
}

fn digit(d: usize) -> (c: &'static str)
    requires
        d < 10,
    ensures
        c@ == seq![digit_char(d as nat)],
{
    if d == 0 {
        proof { reveal_strlit("0"); }
        assert("0"@ =~= seq!['0']);
        "0"
    } else if d == 1 {
        proof { reveal_strlit("1"); }
        assert("1"@ =~= seq!['1']);
        "1"
    } else if d == 2 {
        proof { reveal_strlit("2"); }
        assert("2"@ =~= seq!['2']);
        "2"
    } else if d == 3 {
        proof { reveal_strlit("3"); }
        assert("3"@ =~= seq!['3']);
        "3"
    } else if d == 4 {
        proof { reveal_strlit("4"); }
        assert("4"@ =~= seq!['4']);
        "4"
    } else if d == 5 {
        proof { reveal_strlit("5"); }
        assert("5"@ =~= seq!['5']);
        "5"
    } else if d == 6 {
        proof { reveal_strlit("6"); }
        assert("6"@ =~= seq!['6']);
        "6"
    } else if d == 7 {
        proof { reveal_strlit("7"); }
        assert("7"@ =~= seq!['7']);
        "7"
    } else if d == 8 {
        proof { reveal_strlit("8"); }
        assert("8"@ =~= seq!['8']);
        "8"
    } else {
        proof { reveal_strlit("9"); }
        assert("9"@ =~= seq!['9']);
        "9"
    }
}

/// Appends the decimal digits of `n`.
fn push_decimal(s: &mut String, n: usize)
    ensures
        final(s)@ == old(s)@ + decimal(n as nat),
    decreases n,
{
    if n >= 10 {
        push_decimal(s, n / 10);
    }
    s.append(digit(n % 10));
    assert(s@ =~= old(s)@ + decimal(n as nat));
}

/// A formatted response.
pub struct Response(String);

impl View for Response {
    type V = Seq<char>;

    closed spec fn view(&self) -> Seq<char> {
        self.0@
    }
}

impl Response {
    fn new(status: Status, headers: Headers, body: &str) -> (r: Response)
        ensures
            r@ == response_text(status, headers@, body@),
    {
        let mut s = String::from_str("HTTP/1.1 ");
        let status_line = status.text();
        s.append(status_line.as_str());
        s.append("\r\n");
        let ghost head = s@;
        let ghost es = headers@;
        let mut i: usize = 0;
        assert(es.take(0) =~= Seq::<HeaderEntry>::empty());
        assert(head + header_lines(es.take(0)) =~= head);
        while i < headers.len()
            invariant
                es == headers@,
                i <= es.len(),
                s@ == head + header_lines(es.take(i as int)),
            decreases es.len() - i,
        {
            let (k, v) = headers.entry(i);
            s.append(k);
            s.append(": ");
            s.append(v);
            s.append("\r\n");
            assert(es.take(i + 1).drop_last() =~= es.take(i as int));
            assert(s@ =~= head + header_lines(es.take(i + 1)));
            i = i + 1;
        }
        assert(es.take(i as int) =~= es);
        s.append("Content-Length: ");
        let len = body.as_bytes().len();
        push_decimal(&mut s, len);
        s.append("\r\n\r\n");
        s.append(body);
        let r = Response(s);
        assert(r@ =~= response_text(status, headers@, body@));
        r
    }

    /// A "200 OK" response with the given headers and body.
    pub fn ok(headers: Headers, body: &str) -> (r: Response)
        ensures
            r@ == response_text(Status::Success, headers@, body@),
    {
        Response::new(Status::Success, headers, body)
    }

    /// A "400 BAD REQUEST" response with the given headers and body.
    pub fn bad_request(headers: Headers, body: &str) -> (r: Response)
        ensures
            r@ == response_text(Status::BadRequest, headers@, body@),
    {
        Response::new(Status::BadRequest, headers, body)
    }

    /// A "404 NOT FOUND" response with the given headers and body.
    pub fn not_found(headers: Headers, body: &str) -> (r: Response)
        ensures
            r@ == response_text(Status::NotFound, headers@, body@),
    {
        Response::new(Status::NotFound, headers, body)
    }

    /// The response as UTF-8 bytes, ready to be written.
    pub fn as_bytes(&self) -> (b: &[u8])
        ensures
            b@ == encode_utf8(self@),
    {
        self.0.as_str().as_bytes()
    }
}

} // verus!
