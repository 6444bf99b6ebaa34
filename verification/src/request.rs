//! Parsing a raw request: the request line (method, path, version) and the
//! header block, which ends at the first blank line.
use vstd::prelude::*;
use vstd::slice::slice_subrange;
use vstd::string::StrSliceExecFns;
use vstd::utf8::{decode_utf8, valid_utf8};

use crate::headers::{
    distinct_names, entries_get, entries_insert, has_name, lemma_get_after_insert,
    lemma_get_other_after_insert, name_index, HeaderEntry, Headers,
};
use crate::stdcalls::{str_from_utf8, utf8_error_display, utf8_error_of, utf8_error_text};
use crate::text::{
    chars_of, crlf_pieces, eq_ignore_ascii_case, find_colon_space, span_chars, spans_chars,
    split_crlf, split_once_colon, str_eq_ignore_ascii_case, word_spans, words, Span,
};
use crate::RawRequest;

verus! {

// ---------------------------------------------------------------- byte search

/// The position of the first occurrence of `pat` in `s`.
pub open spec fn find_pattern<T>(s: Seq<T>, pat: Seq<T>) -> Option<int>
    decreases s.len(),
{
    if s.len() < pat.len() {
        None
    } else if s.take(pat.len() as int) == pat {
        Some(0)
    } else if s.len() == 0 {
        None
    } else {
        match find_pattern(s.drop_first(), pat) {
            Some(k) => Some(k + 1),
            None => None,
        }
    }
}

/// The line ending "\r\n".
pub open spec fn crlf_bytes() -> Seq<u8> {
    seq![13u8, 10u8]
}

/// An empty line after a line ending: "\r\n\r\n".
pub open spec fn blank_line_bytes() -> Seq<u8> {
    seq![13u8, 10u8, 13u8, 10u8]
}

fn bytes_at(s: &[u8], i: usize, pat: &[u8]) -> (r: bool)
    requires
        i + pat@.len() <= s@.len(),
    ensures
        r == (s@.subrange(i as int, i + pat@.len()) == pat@),
{
    let mut j: usize = 0;
    while j < pat.len()
        invariant
            i + pat@.len() <= s@.len(),
            s@.len() == s.len(),
            j <= pat@.len(),
            forall|m: int| 0 <= m < j ==> s@[i + m] == pat@[m],
        decreases pat@.len() - j,
    {
        assert(i + j < s@.len());
        if s[i + j] != pat[j] {
            assert(s@.subrange(i as int, i + pat@.len())[j as int] != pat@[j as int]);
            return false;
        }
        j = j + 1;
    }
    assert(s@.subrange(i as int, i + pat@.len()) =~= pat@);
    true
}

/// The position of the first occurrence of `pat` in `s`, as
/// `s.windows(pat.len()).position(|w| w == pat)` finds it.
pub fn find_bytes(s: &[u8], pat: &[u8]) -> (r: Option<usize>)
    ensures
        r matches Some(k) ==> find_pattern(s@, pat@) == Some(k as int) && k + pat@.len()
            <= s@.len(),
        r is None ==> find_pattern(s@, pat@) is None,
{
    let mut i: usize = 0;
    assert(s@.skip(0) =~= s@);
    while i <= s.len() && pat.len() <= s.len() - i
        invariant
            i <= s@.len(),
            find_pattern(s@, pat@) == match find_pattern(s@.skip(i as int), pat@) {
                Some(k) => Some(k + i),
                None => None,
            },
        decreases s@.len() - i,
    {
        let ghost rest = s@.skip(i as int);
        assert(rest.take(pat@.len() as int) =~= s@.subrange(i as int, i + pat@.len()));
        if bytes_at(s, i, pat) {
            return Some(i);
        }
        assert(pat@.len() > 0) by {
            if pat@.len() == 0 {
                assert(s@.subrange(i as int, i as int) =~= pat@);
            }
        }
        assert(rest.drop_first() =~= s@.skip(i + 1));
        i = i + 1;
    }
    None
}

// ---------------------------------------------------------------- the model

/// Why a request is refused.
#[derive(PartialEq, Eq, Structural, Debug, Clone, Copy)]
pub enum RequestFault {
    /// The request line or the end of the header block is missing.
    Malformed,
    /// A header line has no ": ".
    MalformedHeader,
    /// The request line or the header block is not UTF-8.
    Utf8,
}

/// What a parsed request holds: method, path, version and header entries.
pub type RequestParts = (Seq<char>, Seq<char>, Seq<char>, Seq<HeaderEntry>);

/// The header entries of `lines`, each split at its first ": " and set in
/// turn; `None` when some line has no ": ".
pub open spec fn header_entries(lines: Seq<Seq<char>>) -> Option<Seq<HeaderEntry>>
    decreases lines.len(),
{
    if lines.len() == 0 {
        Some(seq![])
    } else {
        match header_entries(lines.drop_last()) {
            None => None,
            Some(es) => match split_once_colon(lines.last()) {
                None => None,
                Some(kv) => Some(entries_insert(es, kv.0, kv.1)),
            },
        }
    }
}

/// What parsing `raw` gives. The request line ends at the first "\r\n" and
/// its first three words are the method, the path and the version. The
/// header block runs from there to the first "\r\n\r\n" after it, and is
/// split at "\r\n" into lines of the form "Name: value".
pub open spec fn parse_request(raw: Seq<u8>) -> Result<RequestParts, RequestFault> {
    match find_pattern(raw, crlf_bytes()) {
        None => Err(RequestFault::Malformed),
        Some(e) => {
            let line = raw.take(e);
            if !valid_utf8(line) {
                Err(RequestFault::Utf8)
            } else {
                let w = words(decode_utf8(line));
                if w.len() < 3 {
                    Err(RequestFault::Malformed)
                } else {
                    let hs = e + 2;
                    match find_pattern(raw.skip(hs), blank_line_bytes()) {
                        None => Err(RequestFault::Malformed),
                        Some(h) => {
                            let block = raw.subrange(hs, hs + h);
                            if !valid_utf8(block) {
                                Err(RequestFault::Utf8)
                            } else {
                                match header_entries(split_crlf(decode_utf8(block))) {
                                    None => Err(RequestFault::MalformedHeader),
                                    Some(es) => Ok((w[0], w[1], w[2], es)),
                                }
                            }
                        },
                    }
                }
            }
        },
    }
}

/// The bytes whose decoding fails when parsing `raw` is refused for
/// UTF-8: the request line, or else the header block.
pub open spec fn undecodable_bytes(raw: Seq<u8>) -> Seq<u8> {
    match find_pattern(raw, crlf_bytes()) {
        None => seq![],
        Some(e) => if !valid_utf8(raw.take(e)) {
            raw.take(e)
        } else {
            match find_pattern(raw.skip(e + 2), blank_line_bytes()) {
                None => seq![],
                Some(h) => raw.subrange(e + 2, e + 2 + h),
            }
        },
    }
}

/// The text describing why `raw` is refused (empty when it parses).
pub open spec fn refusal_text(raw: Seq<u8>) -> Seq<char> {
    match parse_request(raw) {
        Ok(_) => seq![],
        Err(RequestFault::Malformed) => "Malformed request"@,
        Err(RequestFault::MalformedHeader) => "Malformed header request"@,
        Err(RequestFault::Utf8) => "Invalid utf8 request: "@ + utf8_error_display(
            utf8_error_of(undecodable_bytes(raw)),
        ),
    }
}

/// Once a prefix of the lines has a line without ": ", so do all the lines.
proof fn lemma_header_entries_fail(lines: Seq<Seq<char>>, k: int)
    requires
        0 <= k <= lines.len(),
        header_entries(lines.take(k)) is None,
    ensures
        header_entries(lines) is None,
    decreases lines.len(),
{
    if k == lines.len() {
        assert(lines.take(k) =~= lines);
    } else {
        assert(lines.drop_last().take(k) =~= lines.take(k));
        lemma_header_entries_fail(lines.drop_last(), k);
    }
}

// ---------------------------------------------------------------- laws of parsing

proof fn lemma_find_in_prefix<T>(a: Seq<T>, b: Seq<T>, pat: Seq<T>)
    requires
        find_pattern(a, pat) is Some,
    ensures
        find_pattern(a + b, pat) == find_pattern(a, pat),
    decreases a.len(),
{
    let s = a + b;
    if a.len() >= pat.len() {
        assert(s.take(pat.len() as int) =~= a.take(pat.len() as int));
    }
    if !(a.take(pat.len() as int) == pat) && a.len() > 0 {
        assert(s.drop_first() =~= a.drop_first() + b);
        lemma_find_in_prefix(a.drop_first(), b, pat);
    }
}

proof fn lemma_find_bound<T>(s: Seq<T>, pat: Seq<T>)
    ensures
        find_pattern(s, pat) matches Some(k) ==> 0 <= k && k + pat.len() <= s.len(),
    decreases s.len(),
{
    if s.len() >= pat.len() && !(s.take(pat.len() as int) == pat) && s.len() > 0 {
        lemma_find_bound(s.drop_first(), pat);
    }
}

/// Bytes after a request that parses (a body, or anything else) leave what
/// it parses to unchanged.
pub proof fn lemma_parse_ignores_what_follows(raw: Seq<u8>, rest: Seq<u8>)
    requires
        parse_request(raw) is Ok,
    ensures
        parse_request(raw + rest) == parse_request(raw),
{
    let all = raw + rest;
    lemma_find_in_prefix(raw, rest, crlf_bytes());
    lemma_find_bound(raw, crlf_bytes());
    lemma_find_bound(raw.skip(find_pattern(raw, crlf_bytes())->0 + 2), blank_line_bytes());
    let e = find_pattern(raw, crlf_bytes())->0;
    assert(all.take(e) =~= raw.take(e));
    assert(all.skip(e + 2) =~= raw.skip(e + 2) + rest);
    lemma_find_in_prefix(raw.skip(e + 2), rest, blank_line_bytes());
    let h = find_pattern(raw.skip(e + 2), blank_line_bytes())->0;
    assert(all.subrange(e + 2, e + 2 + h) =~= raw.subrange(e + 2, e + 2 + h));
}

/// The value of the last of the header lines `lines` whose name is exactly
/// `k`.
pub open spec fn last_value(lines: Seq<Seq<char>>, k: Seq<char>) -> Option<Seq<char>>
    decreases lines.len(),
{
    if lines.len() == 0 {
        None
    } else {
        match split_once_colon(lines.last()) {
            Some(kv) => if kv.0 == k {
                Some(kv.1)
            } else {
                last_value(lines.drop_last(), k)
            },
            None => last_value(lines.drop_last(), k),
        }
    }
}

/// The entries of header lines hold, for each name, the value of its last
/// line, and no name twice.
pub proof fn lemma_entries_hold_last_values(lines: Seq<Seq<char>>, es: Seq<HeaderEntry>)
    requires
        header_entries(lines) == Some(es),
    ensures
        distinct_names(es),
        forall|k: Seq<char>| #[trigger] entries_get(es, k) == last_value(lines, k),
    decreases lines.len(),
{
    if lines.len() == 0 {
        assert forall|k: Seq<char>| #[trigger] entries_get(es, k) == last_value(lines, k) by {
            assert(!has_name(es, k));
        }
    } else {
        let es0 = header_entries(lines.drop_last())->0;
        let kv = split_once_colon(lines.last())->0;
        lemma_entries_hold_last_values(lines.drop_last(), es0);
        lemma_get_after_insert(es0, kv.0, kv.1);
        assert forall|k: Seq<char>| #[trigger] entries_get(es, k) == last_value(lines, k) by {
            if k != kv.0 {
                lemma_get_other_after_insert(es0, kv.0, kv.1, k);
            }
        }
    }
}

/// The header line with name `k` that comes last says "close", without
/// regard to ASCII case.
pub open spec fn last_says_close(lines: Seq<Seq<char>>, k: Seq<char>) -> bool {
    last_value(lines, k) matches Some(v) && eq_ignore_ascii_case(v, "close"@)
}

/// A request asks to close the connection exactly when, for some header name
/// equal to "connection" without regard to ASCII case, the last header line
/// with that exact name has the value "close" (again without regard to
/// ASCII case).
pub proof fn lemma_close_by_header_lines(lines: Seq<Seq<char>>, es: Seq<HeaderEntry>)
    requires
        header_entries(lines) == Some(es),
    ensures
        asks_to_close(es) <==> exists|k: Seq<char>|
            eq_ignore_ascii_case(k, "connection"@) && #[trigger] last_says_close(lines, k),
{
    lemma_entries_hold_last_values(lines, es);
    if asks_to_close(es) {
        let i = choose|i: int|
            0 <= i < es.len() && eq_ignore_ascii_case(#[trigger] es[i].0, "connection"@)
                && eq_ignore_ascii_case(es[i].1, "close"@);
        let k = es[i].0;
        assert(has_name(es, k));
        let j = name_index(es, k);
        assert(es[j].0 == k);
        assert(j == i);
        assert(entries_get(es, k) == Some(es[i].1));
        assert(last_says_close(lines, k));
    }
    if exists|k: Seq<char>|
        eq_ignore_ascii_case(k, "connection"@) && #[trigger] last_says_close(lines, k) {
        let k = choose|k: Seq<char>|
            eq_ignore_ascii_case(k, "connection"@) && #[trigger] last_says_close(lines, k);
        assert(entries_get(es, k) == last_value(lines, k));
        assert(has_name(es, k));
        let i = name_index(es, k);
        assert(es[i].0 == k);
        assert(eq_ignore_ascii_case(es[i].0, "connection"@));
    }
}

// ---------------------------------------------------------------- requests

/// A parsed request. Its parts borrow from the raw request.
pub struct Request<'a> {
    version: &'a str,
    method: &'a str,
    path: &'a str,
    headers: Headers<'a>,
}

impl<'a> View for Request<'a> {
    type V = RequestParts;

    closed spec fn view(&self) -> RequestParts {
        (self.method@, self.path@, self.version@, self.headers@)
    }
}

/// Whether some header is "Connection: close", names and values compared
/// without regard to ASCII case.
pub open spec fn asks_to_close(es: Seq<HeaderEntry>) -> bool {
    exists|i: int|
        0 <= i < es.len() && eq_ignore_ascii_case(#[trigger] es[i].0, "connection"@)
            && eq_ignore_ascii_case(es[i].1, "close"@)
}

/// Why a request was refused.
#[derive(Debug)]
pub enum InvalidRequest {
    /// The request line or the end of the header block is missing.
    Malformed,
    /// A header line has no ": ".
    MalformedHeader,
    /// The request line or the header block is not UTF-8.
    Utf8Error(std::str::Utf8Error),
}

impl InvalidRequest {
    /// The kind of refusal.
    pub open spec fn fault(&self) -> RequestFault {
        match self {
            InvalidRequest::Malformed => RequestFault::Malformed,
            InvalidRequest::MalformedHeader => RequestFault::MalformedHeader,
            InvalidRequest::Utf8Error(_) => RequestFault::Utf8,
        }
    }

    /// The text that describes the refusal.
    pub open spec fn message_text(&self) -> Seq<char> {
        match self {
            InvalidRequest::Malformed => "Malformed request"@,
            InvalidRequest::MalformedHeader => "Malformed header request"@,
            InvalidRequest::Utf8Error(e) => "Invalid utf8 request: "@ + utf8_error_display(*e),
        }
    }

    /// The text that describes the refusal: "Malformed request",
    /// "Malformed header request", or "Invalid utf8 request: " followed by
    /// the text of the decoding error.
    pub fn message(&self) -> (s: String)
        ensures
            s@ == self.message_text(),
    {
        match self {
            InvalidRequest::Malformed => String::from_str("Malformed request"),
            InvalidRequest::MalformedHeader => String::from_str("Malformed header request"),
            InvalidRequest::Utf8Error(e) => {
                let mut s = String::from_str("Invalid utf8 request: ");
                let t = utf8_error_text(e);
                s.append(t.as_str());
                s
            },
        }
    }
}

impl<'a> Request<'a> {
    /// The protocol version, the third word of the request line.
    pub fn version(&self) -> (r: &'a str)
        ensures
            r@ == self@.2,
    {
        self.version
    }

    /// The method, the first word of the request line.
    pub fn method(&self) -> (r: &'a str)
        ensures
            r@ == self@.0,
    {
        self.method
    }

    /// The path, the second word of the request line.
    pub fn path(&self) -> (r: &'a str)
        ensures
            r@ == self@.1,
    {
        self.path
    }

    /// The header entries.
    pub fn headers(&self) -> (r: &Headers<'a>)
        ensures
            r@ == self@.3,
    {
        &self.headers
    }

    /// Whether some header is "Connection: close", names and values compared
    /// without regard to ASCII case.
    pub fn should_close(&self) -> (b: bool)
        ensures
            b == asks_to_close(self@.3),
    {
        let ghost es = self@.3;
        let mut i: usize = 0;
        while i < self.headers.len()
            invariant
                es == self.headers@,
                i <= es.len(),
                forall|j: int|
                    0 <= j < i ==> !(eq_ignore_ascii_case(#[trigger] es[j].0, "connection"@)
                        && eq_ignore_ascii_case(es[j].1, "close"@)),
            decreases es.len() - i,
        {
            let (key, value) = self.headers.entry(i);
            if str_eq_ignore_ascii_case(key, "connection") && str_eq_ignore_ascii_case(
                value,
                "close",
            ) {
                assert(eq_ignore_ascii_case(es[i as int].0, "connection"@));
                return true;
            }
            i = i + 1;
        }
        false
    }

    /// Parses `raw` as a request line followed by a header block.
    pub fn parse(raw: &'a RawRequest) -> (r: Result<Request<'a>, InvalidRequest>)
        ensures
            r matches Ok(req) ==> parse_request(raw@) == Ok::<RequestParts, RequestFault>(req@),
            r matches Err(e) ==> parse_request(raw@) == Err::<RequestParts, RequestFault>(
                e.fault(),
            ) && e.message_text() == refusal_text(raw@),
            r matches Err(InvalidRequest::Utf8Error(u)) ==> u == utf8_error_of(
                undecodable_bytes(raw@),
            ),
    {
        let bytes = raw.as_slice();
        assert(bytes@.len() == bytes.len());
        let crlf: [u8; 2] = [13, 10];
        let e = match find_bytes(bytes, &crlf) {
            Some(e) => e,
            None => {
                assert(crlf@ =~= crlf_bytes());
                return Err(InvalidRequest::Malformed);
            },
        };
        assert(crlf@ =~= crlf_bytes());
        let line_bytes = slice_subrange(bytes, 0, e);
        assert(line_bytes@ =~= raw@.take(e as int));
        let line = match str_from_utf8(line_bytes) {
            Ok(line) => line,
            Err(err) => return Err(InvalidRequest::Utf8Error(err)),
        };
        let line_chars = chars_of(line);
        let words_sp = word_spans(&line_chars);
        if words_sp.len() < 3 {
            return Err(InvalidRequest::Malformed);
        }
        let ghost w = words(decode_utf8(raw@.take(e as int)));
        assert(w[0] == span_chars(line@, words_sp@[0]));
        assert(w[1] == span_chars(line@, words_sp@[1]));
        assert(w[2] == span_chars(line@, words_sp@[2]));
        let (m0, m1) = words_sp[0];
        let (p0, p1) = words_sp[1];
        let (v0, v1) = words_sp[2];
        let method = line.substring_char(m0, m1);
        let path = line.substring_char(p0, p1);
        let version = line.substring_char(v0, v1);

        let hs = e + 2;
        let rest = slice_subrange(bytes, hs, bytes.len());
        assert(rest@ =~= raw@.skip(hs as int));
        let blank: [u8; 4] = [13, 10, 13, 10];
        assert(blank@ =~= blank_line_bytes());
        let h = match find_bytes(rest, &blank) {
            Some(h) => h,
            None => return Err(InvalidRequest::Malformed),
        };
        let block_bytes = slice_subrange(bytes, hs, hs + h);
        assert(block_bytes@ =~= raw@.subrange(hs as int, hs + h));
        let block = match str_from_utf8(block_bytes) {
            Ok(block) => block,
            Err(err) => return Err(InvalidRequest::Utf8Error(err)),
        };
        let block_chars = chars_of(block);
        let pieces = crlf_pieces(&block_chars);
        let ghost lines = split_crlf(block@);
        let mut headers = Headers::new();
        let mut i: usize = 0;
        assert(lines.take(0) =~= Seq::<Seq<char>>::empty());
        #[verifier::loop_isolation(false)]
        while i < pieces.len()
            invariant
                block_chars@ == block@,
                lines == split_crlf(block@),
                lines == spans_chars(block@, pieces@),
                forall|k: int|
                    0 <= k < pieces@.len() ==> pieces@[k].0 <= #[trigger] pieces@[k].1
                        <= block@.len(),
                i <= pieces@.len(),
                header_entries(lines.take(i as int)) == Some(headers@),
            decreases pieces@.len() - i,
        {
            let sp: Span = pieces[i];
            assert(lines.take(i + 1).drop_last() =~= lines.take(i as int));
            assert(lines.take(i + 1).last() == span_chars(block@, sp));
            match find_colon_space(&block_chars, sp) {
                None => {
                    proof {
                        lemma_header_entries_fail(lines, i + 1);
                    }
                    return Err(InvalidRequest::MalformedHeader);
                },
                Some(k) => {
                    let key = block.substring_char(sp.0, sp.0 + k);
                    let value = block.substring_char(sp.0 + k + 2, sp.1);
                    assert(key@ =~= span_chars(block@, sp).take(k as int));
                    assert(value@ =~= span_chars(block@, sp).skip(k + 2));
                    headers.insert(key, value);
                },
            }
            i = i + 1;
        }
        assert(lines.take(i as int) =~= lines);
        let req = Request { version, method, path, headers };
        assert(req@ == (w[0], w[1], w[2], headers@));
        Ok(req)
    }
}

impl<'a> TryFrom<&'a RawRequest> for Request<'a> {
    type Error = InvalidRequest;

    /// Parses `raw`, as [`Request::parse`] does.
    fn try_from(raw: &'a RawRequest) -> (r: Result<Request<'a>, InvalidRequest>)
        ensures
            r matches Ok(req) ==> parse_request(raw@) == Ok::<RequestParts, RequestFault>(req@),
            r matches Err(e) ==> parse_request(raw@) == Err::<RequestParts, RequestFault>(
                e.fault(),
            ) && e.message_text() == refusal_text(raw@),
            r matches Err(InvalidRequest::Utf8Error(u)) ==> u == utf8_error_of(
                undecodable_bytes(raw@),
            ),
    {
        Request::parse(raw)
    }
}

/// `try_from` is described by its own `ensures`, over `parse_request`; no
/// value of the request is given at the level of specifications, so the
/// generic form of the contract is switched off.
impl<'a> vstd::std_specs::convert::TryFromSpecImpl<&'a RawRequest> for Request<'a> {
    open spec fn obeys_try_from_spec() -> bool {
        false
    }

    open spec fn try_from_spec(raw: &'a RawRequest) -> Result<Self, InvalidRequest> {
        Err(InvalidRequest::Malformed)
    }
}

} // verus!
