//! Requests written out as text parse back to what was written: a request
//! line of three words, header lines "Name: value" each ended by "\r\n", a
//! blank line, then any body.
use vstd::prelude::*;
use vstd::utf8::*;

use crate::headers::{entries_from_pairs, header_line, header_lines, HeaderEntry};
use crate::request::{
    blank_line_bytes, crlf_bytes, find_pattern, header_entries, parse_request, RequestFault,
    RequestParts,
};
use crate::text::{
    find_pair, is_whitespace, is_word, split_crlf, split_crlf_from, split_once_colon, words, words_from,
};

verus! {

broadcast use {encode_utf8_valid_utf8, encode_utf8_decode_utf8};

/// `c` does not occur in `s`.
pub open spec fn lacks_char(s: Seq<char>, c: char) -> bool {
    forall|i: int| 0 <= i < s.len() ==> s[i] != c
}

/// `b` does not occur in `s`.
pub open spec fn lacks_byte(s: Seq<u8>, b: u8) -> bool {
    forall|i: int| 0 <= i < s.len() ==> s[i] != b
}

/// The entry can be written as a header line that reads back as itself: no
/// '\r' in name or value, and no ": " in the name.
pub open spec fn writable_header(e: HeaderEntry) -> bool {
    lacks_char(e.0, '\r') && lacks_char(e.1, '\r') && find_pair(e.0, ':', ' ') is None
}

/// The text of a request with the given request line words, header entries
/// and a blank line.
pub open spec fn request_head(m: Seq<char>, p: Seq<char>, v: Seq<char>, hs: Seq<HeaderEntry>) -> Seq<
    char,
> {
    m + " "@ + p + " "@ + v + "\r\n"@ + header_lines(hs) + "\r\n"@
}

/// The header lines of `hs`, without line endings.
pub open spec fn lines_of(hs: Seq<HeaderEntry>) -> Seq<Seq<char>> {
    hs.map_values(|e: HeaderEntry| header_line(e))
}

/// The position found shifted by `n`.
pub open spec fn shifted(r: Option<int>, n: int) -> Option<int> {
    match r {
        Some(k) => Some(k + n),
        None => None,
    }
}

// ---------------------------------------------------------------- UTF-8

proof fn lemma_encode_concat(a: Seq<char>, b: Seq<char>)
    ensures
        encode_utf8(a + b) == encode_utf8(a) + encode_utf8(b),
    decreases a.len(),
{
    if a.len() == 0 {
        assert(a + b =~= b);
        assert(encode_utf8(a) + encode_utf8(b) =~= encode_utf8(b));
    } else {
        assert((a + b).drop_first() =~= a.drop_first() + b);
        assert((a + b)[0] == a[0]);
        lemma_encode_concat(a.drop_first(), b);
        assert(encode_utf8(a + b) =~= encode_utf8(a) + encode_utf8(b));
    }
}

proof fn lemma_scalar_lacks(c: char, b: u8)
    requires
        b < 0x80,
        c as u32 != b as u32,
    ensures
        lacks_byte(encode_scalar(c as u32), b),
        encode_scalar(c as u32).len() > 0,
{
    let x = c as u32;
    if has_width_1_encoding(x) {
        assert(leading_byte_width_1(x) != b) by (bit_vector)
            requires
                x <= 0x7F,
                x != b as u32,
        ;
    } else if has_width_2_encoding(x) {
        assert(leading_byte_width_2(x) >= 0x80) by (bit_vector);
        assert(last_continuation_byte(x) >= 0x80) by (bit_vector);
    } else if has_width_3_encoding(x) {
        assert(leading_byte_width_3(x) >= 0x80) by (bit_vector);
        assert(second_last_continuation_byte(x) >= 0x80) by (bit_vector);
        assert(last_continuation_byte(x) >= 0x80) by (bit_vector);
    } else {
        assert(leading_byte_width_4(x) >= 0x80) by (bit_vector);
        assert(third_last_continuation_byte(x) >= 0x80) by (bit_vector);
        assert(second_last_continuation_byte(x) >= 0x80) by (bit_vector);
        assert(last_continuation_byte(x) >= 0x80) by (bit_vector);
    }
}

/// The encoding of characters other than '\r' holds no byte 13.
proof fn lemma_encode_lacks_cr(s: Seq<char>)
    requires
        lacks_char(s, '\r'),
    ensures
        lacks_byte(encode_utf8(s), 13u8),
        s.len() > 0 ==> encode_utf8(s).len() > 0,
    decreases s.len(),
{
    if s.len() > 0 {
        assert(s[0] != '\r');
        if s[0] as u32 == 13 {
            char_u32_cast(s[0], 13u32);
            assert(13u32 as char == '\r');
        }
        lemma_scalar_lacks(s[0], 13u8);
        assert(lacks_char(s.drop_first(), '\r')) by {
            assert forall|i: int| 0 <= i < s.drop_first().len() implies s.drop_first()[i] != '\r' by {
                assert(s.drop_first()[i] == s[i + 1]);
            }
        }
        lemma_encode_lacks_cr(s.drop_first());
        let e0 = encode_scalar(s[0] as u32);
        let er = encode_utf8(s.drop_first());
        assert(encode_utf8(s) == e0 + er);
        assert forall|i: int| 0 <= i < encode_utf8(s).len() implies encode_utf8(s)[i] != 13u8 by {
            if i < e0.len() {
                assert(encode_utf8(s)[i] == e0[i]);
            } else {
                assert(encode_utf8(s)[i] == er[i - e0.len()]);
            }
        }
    }
}

/// The encoding of "\r\n".
proof fn lemma_encode_crlf()
    ensures
        encode_utf8("\r\n"@) == crlf_bytes(),
{
    reveal_strlit("\r\n");
    let s = "\r\n"@;
    assert(s.drop_first().drop_first() =~= Seq::<char>::empty());
    assert(s[0] as u32 == 13);
    assert(s[1] as u32 == 10);
    assert(leading_byte_width_1(13u32) == 13u8) by (bit_vector);
    assert(leading_byte_width_1(10u32) == 10u8) by (bit_vector);
    let t = s.drop_first();
    assert(t[0] == s[1]);
    assert(t.drop_first() =~= Seq::<char>::empty());
    assert(encode_utf8(t) == encode_scalar(t[0] as u32) + encode_utf8(t.drop_first()));
    assert(encode_utf8(t) =~= seq![10u8]);
    assert(encode_utf8(s) =~= crlf_bytes());
}

// ---------------------------------------------------------------- searching bytes

proof fn lemma_find_skip<T>(a: Seq<T>, b: Seq<T>, pat: Seq<T>)
    requires
        pat.len() > 0,
        forall|i: int| 0 <= i < a.len() ==> a[i] != pat[0],
    ensures
        find_pattern(a + b, pat) == shifted(find_pattern(b, pat), a.len() as int),
    decreases a.len(),
{
    if a.len() == 0 {
        assert(a + b =~= b);
        match find_pattern(b, pat) {
            Some(k) => {},
            None => {},
        }
    } else {
        let s = a + b;
        assert(s[0] == a[0]);
        if s.len() >= pat.len() {
            assert(s.take(pat.len() as int)[0] == s[0]);
            assert(s.take(pat.len() as int) != pat);
        }
        assert(s.drop_first() =~= a.drop_first() + b);
        lemma_find_skip(a.drop_first(), b, pat);
    }
}

proof fn lemma_find_at_start<T>(s: Seq<T>, pat: Seq<T>)
    requires
        s.len() >= pat.len(),
        s.take(pat.len() as int) == pat,
    ensures
        find_pattern(s, pat) == Some(0int),
{
}

/// Searching "\r\n\r\n" through header lines: it is found at the last line
/// ending when a line ending follows, and otherwise not before what follows.
proof fn lemma_find_blank(hs: Seq<HeaderEntry>, y: Seq<u8>)
    requires
        hs.len() > 0,
        forall|i: int| 0 <= i < hs.len() ==> writable_header(#[trigger] hs[i]),
    ensures
        y.len() >= 2 && y[0] == 13 && y[1] == 10 ==> find_pattern(
            encode_utf8(header_lines(hs)) + y,
            blank_line_bytes(),
        ) == Some(encode_utf8(header_lines(hs)).len() - 2),
        y.len() > 0 && y[0] != 13 ==> find_pattern(
            encode_utf8(header_lines(hs)) + y,
            blank_line_bytes(),
        ) == shifted(find_pattern(y, blank_line_bytes()), encode_utf8(header_lines(hs)).len() as int),
    decreases hs.len(),
{
    let pat = blank_line_bytes();
    let hs0 = hs.drop_last();
    let e = hs.last();
    let line = header_line(e);
    let head = header_lines(hs0);
    assert(writable_header(hs[hs.len() - 1]));
    lemma_line_lacks_cr(e);
    lemma_encode_lacks_cr(line);
    lemma_encode_crlf();
    lemma_encode_concat(head + line, "\r\n"@);
    lemma_encode_concat(head, line);
    let eh = encode_utf8(head);
    let el = encode_utf8(line);
    let crlf = crlf_bytes();
    assert(encode_utf8(header_lines(hs)) == eh + el + crlf);
    let y2 = el + crlf + y;
    assert(encode_utf8(header_lines(hs)) + y =~= eh + y2);
    // Through the line itself: no byte 13.
    lemma_find_skip(el, crlf + y, pat);
    assert(el + (crlf + y) =~= y2);
    // Through its line ending.
    let z = crlf + y;
    if y.len() >= 2 && y[0] == 13 && y[1] == 10 {
        assert(z.take(4) =~= pat);
        lemma_find_at_start(z, pat);
    }
    if y.len() > 0 && y[0] != 13 {
        if z.len() >= 4 {
            assert(z.take(4)[2] == y[0]);
            assert(z.take(4) != pat);
        }
        assert(z.drop_first() =~= seq![10u8] + y);
        lemma_find_skip(seq![10u8], y, pat);
    }
    // Through the lines before.
    if hs0.len() > 0 {
        assert forall|i: int| 0 <= i < hs0.len() implies writable_header(#[trigger] hs0[i]) by {
            assert(hs0[i] == hs[i]);
        }
        assert(y2[0] == el[0]);
        lemma_find_blank(hs0, y2);
    } else {
        assert(head =~= Seq::<char>::empty());
        assert(eh =~= Seq::<u8>::empty());
        assert(eh + y2 =~= y2);
    }
}

// ---------------------------------------------------------------- characters

proof fn lemma_line_lacks_cr(e: HeaderEntry)
    requires
        writable_header(e),
    ensures
        lacks_char(header_line(e), '\r'),
        header_line(e).len() > 0,
{
    reveal_strlit(": ");
    let s = header_line(e);
    assert forall|i: int| 0 <= i < s.len() implies s[i] != '\r' by {
        if i < e.0.len() {
            assert(s[i] == e.0[i]);
        } else if i < e.0.len() + 2 {
            assert(s[i] == ": "@[i - e.0.len()]);
        } else {
            assert(s[i] == e.1[i - e.0.len() - 2]);
        }
    }
}

proof fn lemma_split_through(a: Seq<char>, r: Seq<char>, cur: Seq<char>)
    requires
        lacks_char(a, '\r'),
    ensures
        split_crlf_from(a + r, cur) == split_crlf_from(r, cur + a),
    decreases a.len(),
{
    if a.len() == 0 {
        assert(a + r =~= r);
        assert(cur + a =~= cur);
    } else {
        let s = a + r;
        assert(s[0] == a[0]);
        assert(s.drop_first() =~= a.drop_first() + r);
        assert(cur.push(a[0]) + a.drop_first() =~= cur + a);
        lemma_split_through(a.drop_first(), r, cur.push(a[0]));
    }
}

proof fn lemma_split_at_crlf(r: Seq<char>, cur: Seq<char>)
    ensures
        split_crlf_from("\r\n"@ + r, cur) == seq![cur] + split_crlf_from(r, seq![]),
{
    reveal_strlit("\r\n");
    let s = "\r\n"@ + r;
    assert(s[0] == '\r' && s[1] == '\n');
    assert(s.skip(2) =~= r);
}

proof fn lemma_split_header_lines(hs: Seq<HeaderEntry>, r: Seq<char>)
    requires
        forall|i: int| 0 <= i < hs.len() ==> writable_header(#[trigger] hs[i]),
    ensures
        split_crlf_from(header_lines(hs) + r, seq![]) == lines_of(hs) + split_crlf_from(r, seq![]),
    decreases hs.len(),
{
    if hs.len() == 0 {
        assert(header_lines(hs) + r =~= r);
        assert(lines_of(hs) + split_crlf_from(r, seq![]) =~= split_crlf_from(r, seq![]));
    } else {
        let hs0 = hs.drop_last();
        let line = header_line(hs.last());
        assert(writable_header(hs[hs.len() - 1]));
        lemma_line_lacks_cr(hs.last());
        assert forall|i: int| 0 <= i < hs0.len() implies writable_header(#[trigger] hs0[i]) by {
            assert(hs0[i] == hs[i]);
        }
        assert(header_lines(hs) + r =~= header_lines(hs0) + (line + ("\r\n"@ + r)));
        lemma_split_header_lines(hs0, line + ("\r\n"@ + r));
        lemma_split_through(line, "\r\n"@ + r, seq![]);
        assert(Seq::<char>::empty() + line =~= line);
        lemma_split_at_crlf(r, line);
        assert(lines_of(hs) =~= lines_of(hs0).push(line));
        assert(lines_of(hs) + split_crlf_from(r, seq![]) =~= lines_of(hs0) + (seq![line]
            + split_crlf_from(r, seq![])));
    }
}

proof fn lemma_find_pair_through(a: Seq<char>, r: Seq<char>, c1: char, c2: char)
    requires
        find_pair(a, c1, c2) is None,
        !(a.len() > 0 && a.last() == c1 && r.len() > 0 && r[0] == c2),
    ensures
        find_pair(a + r, c1, c2) == shifted(find_pair(r, c1, c2), a.len() as int),
    decreases a.len(),
{
    if a.len() == 0 {
        assert(a + r =~= r);
        match find_pair(r, c1, c2) {
            Some(k) => {},
            None => {},
        }
    } else {
        let s = a + r;
        assert(s[0] == a[0]);
        if a.len() >= 2 {
            assert(s[1] == a[1]);
        } else if r.len() > 0 {
            assert(s[1] == r[0]);
        }
        assert(s.drop_first() =~= a.drop_first() + r);
        if a.len() >= 2 {
            assert(a.drop_first().last() == a.last());
        }
        lemma_find_pair_through(a.drop_first(), r, c1, c2);
    }
}

proof fn lemma_split_header_line(e: HeaderEntry)
    requires
        writable_header(e),
    ensures
        split_once_colon(header_line(e)) == Some(e),
{
    reveal_strlit(": ");
    let r = ": "@ + e.1;
    assert(r[0] == ':' && r[1] == ' ');
    lemma_find_pair_through(e.0, r, ':', ' ');
    assert(header_line(e) =~= e.0 + r);
    let s = header_line(e);
    let k = e.0.len() as int;
    assert(s.take(k) =~= e.0);
    assert(s.skip(k + 2) =~= e.1);
}

proof fn lemma_header_entries_of_lines(hs: Seq<HeaderEntry>)
    requires
        forall|i: int| 0 <= i < hs.len() ==> writable_header(#[trigger] hs[i]),
    ensures
        header_entries(lines_of(hs)) == Some(entries_from_pairs(hs)),
    decreases hs.len(),
{
    if hs.len() > 0 {
        let hs0 = hs.drop_last();
        assert forall|i: int| 0 <= i < hs0.len() implies writable_header(#[trigger] hs0[i]) by {
            assert(hs0[i] == hs[i]);
        }
        assert(writable_header(hs[hs.len() - 1]));
        lemma_header_entries_of_lines(hs0);
        assert(lines_of(hs).drop_last() =~= lines_of(hs0));
        lemma_split_header_line(hs.last());
    }
}

proof fn lemma_words_through(a: Seq<char>, r: Seq<char>, cur: Seq<char>)
    requires
        forall|i: int| 0 <= i < a.len() ==> !is_whitespace(#[trigger] a[i]),
    ensures
        words_from(a + r, cur) == words_from(r, cur + a),
    decreases a.len(),
{
    if a.len() == 0 {
        assert(a + r =~= r);
        assert(cur + a =~= cur);
    } else {
        let s = a + r;
        assert(s[0] == a[0]);
        assert(!is_whitespace(a[0]));
        assert(s.drop_first() =~= a.drop_first() + r);
        assert(cur.push(a[0]) + a.drop_first() =~= cur + a);
        lemma_words_through(a.drop_first(), r, cur.push(a[0]));
    }
}

proof fn lemma_words_at_space(r: Seq<char>, cur: Seq<char>)
    requires
        cur.len() > 0,
    ensures
        words_from(" "@ + r, cur) == seq![cur] + words_from(r, seq![]),
{
    reveal_strlit(" ");
    let s = " "@ + r;
    assert(s[0] == ' ');
    assert(is_whitespace(' '));
    assert(s.drop_first() =~= r);
}

proof fn lemma_request_line_words(m: Seq<char>, p: Seq<char>, v: Seq<char>)
    requires
        is_word(m),
        is_word(p),
        is_word(v),
    ensures
        words(m + " "@ + p + " "@ + v) == seq![m, p, v],
{
    let e = Seq::<char>::empty();
    let r1 = " "@ + (p + (" "@ + v));
    assert(m + " "@ + p + " "@ + v =~= m + r1);
    lemma_words_through(m, r1, e);
    assert(e + m =~= m);
    lemma_words_at_space(p + (" "@ + v), m);
    lemma_words_through(p, " "@ + v, e);
    assert(e + p =~= p);
    lemma_words_at_space(v, p);
    lemma_words_through(v, e, e);
    assert(v + e =~= v);
    assert(e + v =~= v);
    assert(words_from(e, v) =~= seq![v]);
    assert(words_from(p + (" "@ + v), e) == seq![p] + seq![v]);
    assert(words_from(m + r1, e) == seq![m] + (seq![p] + seq![v]));
    assert(seq![m] + (seq![p] + seq![v]) =~= seq![m, p, v]);
}

/// Every word of `s` taken after a word in progress without whitespace is
/// a word.
proof fn lemma_words_are_words(s: Seq<char>, cur: Seq<char>)
    requires
        forall|i: int| 0 <= i < cur.len() ==> !is_whitespace(#[trigger] cur[i]),
    ensures
        forall|k: int| 0 <= k < words_from(s, cur).len() ==> is_word(#[trigger] words_from(s, cur)[k]),
    decreases s.len(),
{
    if s.len() > 0 {
        if is_whitespace(s[0]) {
            let first = if cur.len() > 0 {
                seq![cur]
            } else {
                Seq::<Seq<char>>::empty()
            };
            let e = Seq::<char>::empty();
            lemma_words_are_words(s.drop_first(), e);
            let rest = words_from(s.drop_first(), e);
            assert forall|k: int| 0 <= k < words_from(s, cur).len() implies is_word(
                #[trigger] words_from(s, cur)[k],
            ) by {
                assert(words_from(s, cur) == first + rest);
                if k < first.len() {
                    assert(words_from(s, cur)[k] == cur);
                } else {
                    assert(words_from(s, cur)[k] == rest[k - first.len()]);
                }
            }
        } else {
            let c2 = cur.push(s[0]);
            assert forall|i: int| 0 <= i < c2.len() implies !is_whitespace(#[trigger] c2[i]) by {
                if i < cur.len() {
                    assert(c2[i] == cur[i]);
                }
            }
            lemma_words_are_words(s.drop_first(), c2);
            assert(words_from(s, cur) == words_from(s.drop_first(), c2));
        }
    } else if cur.len() > 0 {
        assert(words_from(s, cur) == seq![cur]);
        assert(is_word(cur));
    } else {
        assert(words_from(s, cur).len() == 0);
    }
}

/// The method, the path and the version of a request that parses are each a
/// word (not empty, without whitespace): the first three words of its
/// request line. A request line, ended by the first "\r\n", that is UTF-8
/// but has fewer than three words is refused as malformed.
pub proof fn lemma_request_line_has_three_words(raw: Seq<u8>)
    ensures
        parse_request(raw) is Ok ==> {
            let p = parse_request(raw)->Ok_0;
            is_word(p.0) && is_word(p.1) && is_word(p.2)
        },
        find_pattern(raw, crlf_bytes()) is Some && valid_utf8(
            raw.take(find_pattern(raw, crlf_bytes())->0),
        ) && words(decode_utf8(raw.take(find_pattern(raw, crlf_bytes())->0))).len() < 3
            ==> parse_request(raw) == Err::<RequestParts, RequestFault>(RequestFault::Malformed),
{
    if find_pattern(raw, crlf_bytes()) is Some {
        let e = find_pattern(raw, crlf_bytes())->0;
        let line = decode_utf8(raw.take(e));
        lemma_words_are_words(line, Seq::<char>::empty());
        let w = words(line);
        if parse_request(raw) is Ok {
            assert(is_word(w[0]));
            assert(is_word(w[1]));
            assert(is_word(w[2]));
        }
    }
}

/// A request written as "method path version\r\n", one or more header lines
/// "Name: value\r\n", a blank line "\r\n" and then any body parses back to the
/// method, the path, the version and the entries that setting the header
/// lines in turn gives; the words must hold no whitespace, and the header
/// names and values no '\r', nor a name ": ".
pub proof fn lemma_written_request_parses(
    m: Seq<char>,
    p: Seq<char>,
    v: Seq<char>,
    hs: Seq<HeaderEntry>,
    body: Seq<u8>,
)
    requires
        is_word(m),
        is_word(p),
        is_word(v),
        hs.len() > 0,
        forall|i: int| 0 <= i < hs.len() ==> writable_header(#[trigger] hs[i]),
    ensures
        parse_request(encode_utf8(request_head(m, p, v, hs)) + body) == Ok::<
            RequestParts,
            RequestFault,
        >((m, p, v, entries_from_pairs(hs))),
{
    reveal_strlit("\r\n");
    reveal_strlit(" ");
    let line = m + " "@ + p + " "@ + v;
    let h = header_lines(hs);
    let crlf = "\r\n"@;
    lemma_encode_crlf();
    // The request line holds no '\r'.
    assert(lacks_char(line, '\r')) by {
        assert(is_whitespace('\r'));
        assert forall|i: int| 0 <= i < line.len() implies line[i] != '\r' by {
            let a = m.len() as int;
            let b = a + 1 + p.len();
            if i < a {
                assert(line[i] == m[i]);
                assert(!is_whitespace(m[i]));
            } else if i == a {
                assert(line[i] == ' ');
            } else if i < b {
                assert(line[i] == p[i - a - 1]);
                assert(!is_whitespace(p[i - a - 1]));
            } else if i == b {
                assert(line[i] == ' ');
            } else {
                assert(line[i] == v[i - b - 1]);
                assert(!is_whitespace(v[i - b - 1]));
            }
        }
    }
    lemma_encode_lacks_cr(line);
    let el = encode_utf8(line);
    let eh = encode_utf8(h);
    let cb = crlf_bytes();
    assert(request_head(m, p, v, hs) =~= line + crlf + h + crlf);
    lemma_encode_concat(line + crlf + h, crlf);
    lemma_encode_concat(line + crlf, h);
    lemma_encode_concat(line, crlf);
    let raw = encode_utf8(request_head(m, p, v, hs)) + body;
    assert(raw =~= el + (cb + eh + cb + body));
    // The request line ends at the first "\r\n".
    lemma_find_skip(el, cb + eh + cb + body, cb);
    assert((cb + eh + cb + body).take(2) =~= cb);
    lemma_find_at_start(cb + eh + cb + body, cb);
    let e = el.len() as int;
    assert(find_pattern(raw, crlf_bytes()) == Some(e));
    assert(raw.take(e) =~= el);
    lemma_request_line_words(m, p, v);
    // The header block ends at the first "\r\n\r\n".
    let rest = raw.skip(e + 2);
    assert(rest =~= eh + (cb + body));
    lemma_find_blank(hs, cb + body);
    let hl = eh.len() - 2;
    assert(find_pattern(rest, blank_line_bytes()) == Some(hl));
    // The header block is the header lines without the last line ending.
    let j = header_lines(hs.drop_last()) + header_line(hs.last());
    assert(h == j + crlf);
    lemma_encode_concat(j, crlf);
    assert(raw.subrange(e + 2, e + 2 + hl) =~= encode_utf8(j));
    // Its lines are the header lines, which give the entries.
    assert forall|i: int| 0 <= i < hs.drop_last().len() implies writable_header(
        #[trigger] hs.drop_last()[i],
    ) by {
        assert(hs.drop_last()[i] == hs[i]);
    }
    assert(writable_header(hs[hs.len() - 1]));
    lemma_line_lacks_cr(hs.last());
    lemma_split_header_lines(hs.drop_last(), header_line(hs.last()));
    let last = header_line(hs.last());
    lemma_split_through(last, Seq::<char>::empty(), Seq::<char>::empty());
    assert(last + Seq::<char>::empty() =~= last);
    assert(Seq::<char>::empty() + last =~= last);
    assert(split_crlf(j) =~= lines_of(hs.drop_last()) + seq![last]);
    assert(lines_of(hs.drop_last()) + seq![last] =~= lines_of(hs));
    lemma_header_entries_of_lines(hs);
}

} // verus!
