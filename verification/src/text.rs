//! Character-level text rules used by the request parser and the reader:
//! Unicode whitespace, splitting into words, splitting at CRLF, splitting
//! into lines, finding a two-character separator, ASCII case-insensitive
//! comparison and decimal numbers.
use vstd::prelude::*;

verus! {

/// A span `[start, end)` of character positions.
pub type Span = (usize, usize);

/// The characters of `s` in the span `sp`.
pub open spec fn span_chars(s: Seq<char>, sp: Span) -> Seq<char> {
    s.subrange(sp.0 as int, sp.1 as int)
}

/// The spans of `spans` read off `s`.
pub open spec fn spans_chars(s: Seq<char>, spans: Seq<Span>) -> Seq<Seq<char>> {
    Seq::new(spans.len(), |k: int| span_chars(s, spans[k]))
}

/// Every span of `spans` lies inside `s`.
pub open spec fn spans_within(s: Seq<char>, spans: Seq<Span>) -> bool {
    forall|k: int| 0 <= k < spans.len() ==> spans[k].0 <= #[trigger] spans[k].1 <= s.len()
}

/// The characters of `s`, in order.
pub fn chars_of(s: &str) -> (v: Vec<char>)
    ensures
        v@ == s@,
{
    let mut v: Vec<char> = Vec::new();
    for c in it: s.chars()
        invariant
            v@ == it.seq().take(it.index() as int),
            it.seq() == s@,
    {
        v.push(c);
    }
    v
}

/// Whether `a` and `b` hold the same characters.
pub fn str_equal(a: &str, b: &str) -> (r: bool)
    ensures
        r == (a@ == b@),
{
    let av = chars_of(a);
    let bv = chars_of(b);
    if av.len() != bv.len() {
        return false;
    }
    let mut i: usize = 0;
    while i < av.len()
        invariant
            av@ == a@,
            bv@ == b@,
            av@.len() == bv@.len(),
            i <= av@.len(),
            forall|j: int| 0 <= j < i ==> av@[j] == bv@[j],
        decreases av@.len() - i,
    {
        if av[i] != bv[i] {
            return false;
        }
        i = i + 1;
    }
    assert(av@ =~= bv@);
    true
}

// ---------------------------------------------------------------- whitespace

/// The Unicode `White_Space` property, which `char::is_whitespace` tests.
pub open spec fn is_whitespace(c: char) -> bool {
    let u = c as u32;
    ||| 0x09 <= u <= 0x0D
    ||| u == 0x20
    ||| u == 0x85
    ||| u == 0xA0
    ||| u == 0x1680
    ||| 0x2000 <= u <= 0x200A
    ||| u == 0x2028
    ||| u == 0x2029
    ||| u == 0x202F
    ||| u == 0x205F
    ||| u == 0x3000
}

/// Whether `c` is Unicode whitespace.
pub fn char_is_whitespace(c: char) -> (b: bool)
    ensures
        b == is_whitespace(c),
{
    let u = c as u32;
    (0x09 <= u && u <= 0x0D) || u == 0x20 || u == 0x85 || u == 0xA0 || u == 0x1680 || (0x2000
        <= u && u <= 0x200A) || u == 0x2028 || u == 0x2029 || u == 0x202F || u == 0x205F || u
        == 0x3000
}

// ---------------------------------------------------------------- words

/// `s` is a word: not empty, with no whitespace.
pub open spec fn is_word(s: Seq<char>) -> bool {
    s.len() > 0 && forall|i: int| 0 <= i < s.len() ==> !is_whitespace(#[trigger] s[i])
}

/// The words of `s`, given that the word in progress so far is `cur`: the
/// maximal non-empty runs of non-whitespace characters, in order.
pub open spec fn words_from(s: Seq<char>, cur: Seq<char>) -> Seq<Seq<char>>
    decreases s.len(),
{
    if s.len() == 0 {
        if cur.len() > 0 {
            seq![cur]
        } else {
            seq![]
        }
    } else if is_whitespace(s[0]) {
        (if cur.len() > 0 {
            seq![cur]
        } else {
            seq![]
        }) + words_from(s.drop_first(), seq![])
    } else {
        words_from(s.drop_first(), cur.push(s[0]))
    }
}

/// The words of `s` (what `str::split_whitespace` yields).
pub open spec fn words(s: Seq<char>) -> Seq<Seq<char>> {
    words_from(s, seq![])
}

/// The spans of the words of `text`, in order.
pub fn word_spans(text: &Vec<char>) -> (spans: Vec<Span>)
    ensures
        spans_within(text@, spans@),
        spans_chars(text@, spans@) == words(text@),
{
    let mut spans: Vec<Span> = Vec::new();
    let mut start: Option<usize> = None;
    let mut i: usize = 0;
    let ghost s = text@;
    assert(s.skip(0) =~= s);
    assert(spans_chars(s, spans@) + words(s) =~= words(s));
    while i < text.len()
        invariant
            s == text@,
            i <= s.len(),
            spans_within(s, spans@),
            start matches Some(b) ==> b < i,
            words(s) == spans_chars(s, spans@) + words_from(
                s.skip(i as int),
                match start {
                    Some(b) => s.subrange(b as int, i as int),
                    None => seq![],
                },
            ),
        decreases s.len() - i,
    {
        let c = text[i];
        let ghost cur = match start {
            Some(b) => s.subrange(b as int, i as int),
            None => seq![],
        };
        assert(s.skip(i as int).drop_first() =~= s.skip(i + 1));
        assert(s.skip(i as int)[0] == c);
        if char_is_whitespace(c) {
            if let Some(b) = start {
                let ghost old_spans = spans@;
                spans.push((b, i));
                assert(spans_chars(s, spans@) =~= spans_chars(s, old_spans) + seq![cur]);
            } else {
                assert(spans_chars(s, spans@) + (seq![] + words_from(s.skip(i + 1), seq![]))
                    =~= spans_chars(s, spans@) + words_from(s.skip(i + 1), seq![]));
            }
            start = None;
        } else {
            if start.is_none() {
                start = Some(i);
                assert(cur.push(c) =~= s.subrange(i as int, i + 1));
            } else {
                assert(cur.push(c) =~= s.subrange(start.unwrap() as int, i + 1));
            }
        }
        i = i + 1;
    }
    let ghost cur = match start {
        Some(b) => s.subrange(b as int, i as int),
        None => seq![],
    };
    assert(s.skip(i as int).len() == 0);
    if let Some(b) = start {
        let ghost old_spans = spans@;
        spans.push((b, i));
        assert(spans_chars(s, spans@) =~= spans_chars(s, old_spans) + seq![cur]);
    } else {
        assert(spans_chars(s, spans@) + seq![] =~= spans_chars(s, spans@));
    }
    spans
}


// ---------------------------------------------------------------- CRLF split

/// The pieces of `s` between occurrences of "\r\n", given that the piece in
/// progress so far is `cur` (what `str::split("\r\n")` yields).
pub open spec fn split_crlf_from(s: Seq<char>, cur: Seq<char>) -> Seq<Seq<char>>
    decreases s.len(),
{
    if s.len() == 0 {
        seq![cur]
    } else if s.len() >= 2 && s[0] == '\r' && s[1] == '\n' {
        seq![cur] + split_crlf_from(s.skip(2), seq![])
    } else {
        split_crlf_from(s.drop_first(), cur.push(s[0]))
    }
}

/// The pieces of `s` between occurrences of "\r\n", leftmost first.
pub open spec fn split_crlf(s: Seq<char>) -> Seq<Seq<char>> {
    split_crlf_from(s, seq![])
}

/// The spans of the pieces of `text` between occurrences of "\r\n".
pub fn crlf_pieces(text: &Vec<char>) -> (spans: Vec<Span>)
    ensures
        spans_within(text@, spans@),
        spans_chars(text@, spans@) == split_crlf(text@),
{
    let mut spans: Vec<Span> = Vec::new();
    let mut start: usize = 0;
    let mut i: usize = 0;
    let ghost s = text@;
    assert(s.skip(0) =~= s);
    assert(s.subrange(0, 0) =~= Seq::<char>::empty());
    assert(spans_chars(s, spans@) + split_crlf(s) =~= split_crlf(s));
    while i < text.len()
        invariant
            s == text@,
            start <= i <= s.len(),
            spans_within(s, spans@),
            split_crlf(s) == spans_chars(s, spans@) + split_crlf_from(
                s.skip(i as int),
                s.subrange(start as int, i as int),
            ),
        decreases s.len() - i,
    {
        let ghost cur = s.subrange(start as int, i as int);
        let ghost rest = s.skip(i as int);
        if i + 1 < text.len() && text[i] == '\r' && text[i + 1] == '\n' {
            assert(rest.skip(2) =~= s.skip(i + 2));
            assert(s.subrange(i + 2, i + 2) =~= Seq::<char>::empty());
            let ghost old_spans = spans@;
            spans.push((start, i));
            assert(spans_chars(s, spans@) =~= spans_chars(s, old_spans) + seq![cur]);
            i = i + 2;
            start = i;
        } else {
            assert(rest.drop_first() =~= s.skip(i + 1));
            assert(cur.push(s[i as int]) =~= s.subrange(start as int, i + 1));
            i = i + 1;
        }
    }
    let ghost cur = s.subrange(start as int, i as int);
    assert(s.skip(i as int).len() == 0);
    let ghost old_spans = spans@;
    spans.push((start, i));
    assert(spans_chars(s, spans@) =~= spans_chars(s, old_spans) + seq![cur]);
    spans
}

// ---------------------------------------------------------------- lines

/// Drops one trailing '\r', if there is one.
pub open spec fn strip_cr(s: Seq<char>) -> Seq<char> {
    if s.len() > 0 && s.last() == '\r' {
        s.drop_last()
    } else {
        s
    }
}

/// The lines of `s`, given that the line in progress so far is `cur`: pieces
/// ended by '\n' lose that '\n' and then one '\r' before it; a last piece
/// without '\n' is kept as it is, and is left out when empty (what
/// `str::lines` yields).
pub open spec fn lines_from(s: Seq<char>, cur: Seq<char>) -> Seq<Seq<char>>
    decreases s.len(),
{
    if s.len() == 0 {
        if cur.len() > 0 {
            seq![cur]
        } else {
            seq![]
        }
    } else if s[0] == '\n' {
        seq![strip_cr(cur)] + lines_from(s.drop_first(), seq![])
    } else {
        lines_from(s.drop_first(), cur.push(s[0]))
    }
}

/// The lines of `s`.
pub open spec fn lines(s: Seq<char>) -> Seq<Seq<char>> {
    lines_from(s, seq![])
}

/// The span of `sp` without one trailing '\r'.
pub fn strip_cr_span(text: &Vec<char>, sp: Span) -> (r: Span)
    requires
        sp.0 <= sp.1 <= text@.len(),
    ensures
        r.0 <= r.1 <= text@.len(),
        span_chars(text@, r) == strip_cr(span_chars(text@, sp)),
{
    if sp.0 < sp.1 && text[sp.1 - 1] == '\r' {
        assert(span_chars(text@, (sp.0, (sp.1 - 1) as usize)) =~= span_chars(text@, sp).drop_last());
        (sp.0, sp.1 - 1)
    } else {
        sp
    }
}

/// The spans of the lines of `text`.
pub fn line_spans(text: &Vec<char>) -> (spans: Vec<Span>)
    ensures
        spans_within(text@, spans@),
        spans_chars(text@, spans@) == lines(text@),
{
    let mut spans: Vec<Span> = Vec::new();
    let mut start: usize = 0;
    let mut i: usize = 0;
    let ghost s = text@;
    assert(s.skip(0) =~= s);
    assert(s.subrange(0, 0) =~= Seq::<char>::empty());
    assert(spans_chars(s, spans@) + lines(s) =~= lines(s));
    while i < text.len()
        invariant
            s == text@,
            start <= i <= s.len(),
            spans_within(s, spans@),
            lines(s) == spans_chars(s, spans@) + lines_from(
                s.skip(i as int),
                s.subrange(start as int, i as int),
            ),
        decreases s.len() - i,
    {
        let ghost cur = s.subrange(start as int, i as int);
        let ghost rest = s.skip(i as int);
        assert(rest.drop_first() =~= s.skip(i + 1));
        if text[i] == '\n' {
            let sp = strip_cr_span(text, (start, i));
            let ghost old_spans = spans@;
            spans.push(sp);
            assert(s.subrange(i + 1, i + 1) =~= Seq::<char>::empty());
            assert(spans_chars(s, spans@) =~= spans_chars(s, old_spans) + seq![strip_cr(cur)]);
            i = i + 1;
            start = i;
        } else {
            assert(cur.push(s[i as int]) =~= s.subrange(start as int, i + 1));
            i = i + 1;
        }
    }
    let ghost cur = s.subrange(start as int, i as int);
    assert(s.skip(i as int).len() == 0);
    if start < i {
        let ghost old_spans = spans@;
        spans.push((start, i));
        assert(spans_chars(s, spans@) =~= spans_chars(s, old_spans) + seq![cur]);
    } else {
        assert(spans_chars(s, spans@) + seq![] =~= spans_chars(s, spans@));
    }
    spans
}

// ---------------------------------------------------------------- ": " split

/// The position of the first occurrence of `a` directly followed by `b` in `s`.
pub open spec fn find_pair(s: Seq<char>, a: char, b: char) -> Option<int>
    decreases s.len(),
{
    if s.len() < 2 {
        None
    } else if s[0] == a && s[1] == b {
        Some(0)
    } else {
        match find_pair(s.drop_first(), a, b) {
            Some(k) => Some(k + 1),
            None => None,
        }
    }
}

/// `s` split at the first ": ", without the separator (what
/// `str::split_once(": ")` gives).
pub open spec fn split_once_colon(s: Seq<char>) -> Option<(Seq<char>, Seq<char>)> {
    match find_pair(s, ':', ' ') {
        Some(k) => Some((s.take(k), s.skip(k + 2))),
        None => None,
    }
}

/// The first ": " inside the span `sp` of `text`, as a position within the span.
pub fn find_colon_space(text: &Vec<char>, sp: Span) -> (r: Option<usize>)
    requires
        sp.0 <= sp.1 <= text@.len(),
    ensures
        r matches Some(k) ==> find_pair(span_chars(text@, sp), ':', ' ') == Some(k as int)
            && k + 2 <= sp.1 - sp.0,
        r is None ==> find_pair(span_chars(text@, sp), ':', ' ') is None,
{
    let ghost s = text@;
    let mut i = sp.0;
    assert(s.subrange(sp.0 as int, sp.1 as int) =~= span_chars(s, sp));
    while i < sp.1
        invariant
            s == text@,
            sp.0 <= i <= sp.1 <= s.len(),
            find_pair(span_chars(s, sp), ':', ' ') == match find_pair(
                s.subrange(i as int, sp.1 as int),
                ':',
                ' ',
            ) {
                Some(k) => Some(k + (i - sp.0)),
                None => None,
            },
        decreases sp.1 - i,
    {
        let ghost rest = s.subrange(i as int, sp.1 as int);
        if i + 1 < sp.1 && text[i] == ':' && text[i + 1] == ' ' {
            return Some(i - sp.0);
        }
        assert(rest.drop_first() =~= s.subrange(i + 1, sp.1 as int));
        i = i + 1;
    }
    None
}

// ---------------------------------------------------------------- ASCII case

/// The code of `c` with an ASCII upper-case letter taken to lower case.
pub open spec fn ascii_lower(c: char) -> u32 {
    let u = c as u32;
    if 0x41 <= u <= 0x5A {
        (u + 0x20) as u32
    } else {
        u
    }
}

/// `a` and `b` match when ASCII letters are compared without case (what
/// `str::eq_ignore_ascii_case` decides).
pub open spec fn eq_ignore_ascii_case(a: Seq<char>, b: Seq<char>) -> bool {
    &&& a.len() == b.len()
    &&& forall|i: int| 0 <= i < a.len() ==> #[trigger] ascii_lower(a[i]) == ascii_lower(b[i])
}

fn char_ascii_lower(c: char) -> (r: u32)
    ensures
        r == ascii_lower(c),
{
    let u = c as u32;
    if 0x41 <= u && u <= 0x5A {
        u + 0x20
    } else {
        u
    }
}

/// Whether the span `sp` of `text` matches `word` without regard to ASCII case.
pub fn span_eq_ignore_ascii_case(text: &Vec<char>, sp: Span, word: &Vec<char>) -> (r: bool)
    requires
        sp.0 <= sp.1 <= text@.len(),
    ensures
        r == eq_ignore_ascii_case(span_chars(text@, sp), word@),
{
    if sp.1 - sp.0 != word.len() {
        return false;
    }
    let mut i: usize = 0;
    while i < word.len()
        invariant
            sp.0 <= sp.1 <= text@.len(),
            sp.1 - sp.0 == word@.len(),
            i <= word@.len(),
            forall|j: int|
                0 <= j < i ==> #[trigger] ascii_lower(span_chars(text@, sp)[j]) == ascii_lower(
                    word@[j],
                ),
        decreases word@.len() - i,
    {
        if char_ascii_lower(text[sp.0 + i]) != char_ascii_lower(word[i]) {
            assert(ascii_lower(span_chars(text@, sp)[i as int]) != ascii_lower(word@[i as int]));
            return false;
        }
        i = i + 1;
    }
    true
}

/// Whether `a` matches `b` without regard to ASCII case.
pub fn str_eq_ignore_ascii_case(a: &str, b: &str) -> (r: bool)
    ensures
        r == eq_ignore_ascii_case(a@, b@),
{
    let av = chars_of(a);
    let bv = chars_of(b);
    let n = av.len();
    assert(span_chars(av@, (0, n)) =~= a@);
    span_eq_ignore_ascii_case(&av, (0, n), &bv)
}

// ---------------------------------------------------------------- numbers

/// Whether `c` is an ASCII decimal digit.
pub open spec fn is_digit(c: char) -> bool {
    0x30 <= (c as u32) <= 0x39
}

/// The value of the digit `c`.
pub open spec fn digit_value(c: char) -> int {
    (c as u32) - 0x30
}

/// The value of the decimal digits `s`, most significant first.
pub open spec fn digits_value(s: Seq<char>) -> int
    decreases s.len(),
{
    if s.len() == 0 {
        0
    } else {
        digits_value(s.drop_last()) * 10 + digit_value(s.last())
    }
}

/// All of `s` are decimal digits.
pub open spec fn all_digits(s: Seq<char>) -> bool {
    forall|i: int| 0 <= i < s.len() ==> #[trigger] is_digit(s[i])
}

/// The number that `str::parse::<usize>` reads from `s`: an optional '+'
/// followed by at least one decimal digit, with a value that fits in a usize.
pub open spec fn parse_usize(s: Seq<char>) -> Option<usize> {
    let d = if s.len() > 0 && s[0] == '+' {
        s.drop_first()
    } else {
        s
    };
    if d.len() > 0 && all_digits(d) && digits_value(d) <= usize::MAX {
        Some(digits_value(d) as usize)
    } else {
        None
    }
}

proof fn lemma_digits_value_prefix(s: Seq<char>, k: int)
    requires
        all_digits(s),
        0 <= k <= s.len(),
    ensures
        0 <= digits_value(s.take(k)) <= digits_value(s),
    decreases s.len(),
{
    if k == s.len() {
        assert(s.take(k) =~= s);
        lemma_digits_value_nonneg(s);
    } else {
        lemma_all_digits_drop_last(s);
        assert(s.drop_last().take(k) =~= s.take(k));
        lemma_digits_value_prefix(s.drop_last(), k);
        lemma_digits_value_nonneg(s.drop_last());
    }
}

proof fn lemma_digits_value_nonneg(s: Seq<char>)
    requires
        all_digits(s),
    ensures
        digits_value(s) >= 0,
    decreases s.len(),
{
    if s.len() > 0 {
        lemma_all_digits_drop_last(s);
        lemma_digits_value_nonneg(s.drop_last());
    }
}

proof fn lemma_all_digits_drop_last(s: Seq<char>)
    requires
        all_digits(s),
        s.len() > 0,
    ensures
        all_digits(s.drop_last()),
        is_digit(s.last()),
        digit_value(s.last()) >= 0,
{
    assert(is_digit(s[s.len() - 1]));
    assert forall|i: int| 0 <= i < s.len() - 1 implies #[trigger] is_digit(s.drop_last()[i]) by {
        assert(is_digit(s[i]));
    }
}

/// Reads a decimal number from the span `sp` of `text`, as `str::parse::<usize>` does.
pub fn parse_usize_span(text: &Vec<char>, sp: Span) -> (r: Option<usize>)
    requires
        sp.0 <= sp.1 <= text@.len(),
    ensures
        r == parse_usize(span_chars(text@, sp)),
{
    let ghost s = span_chars(text@, sp);
    let mut i = sp.0;
    if i < sp.1 && text[i] == '+' {
        i = i + 1;
    }
    let ghost d = text@.subrange(i as int, sp.1 as int);
    assert(d =~= (if s.len() > 0 && s[0] == '+' {
        s.drop_first()
    } else {
        s
    }));
    if i == sp.1 {
        return None;
    }
    let start = i;
    let mut acc: usize = 0;
    assert(d.take(0) =~= Seq::<char>::empty());
    while i < sp.1
        invariant
            sp.0 <= start <= i <= sp.1 <= text@.len(),
            d == text@.subrange(start as int, sp.1 as int),
            d.len() > 0,
            d == (if span_chars(text@, sp).len() > 0 && span_chars(text@, sp)[0] == '+' {
                span_chars(text@, sp).drop_first()
            } else {
                span_chars(text@, sp)
            }),
            acc == digits_value(d.take(i - start)),
            all_digits(d.take(i - start)),
        decreases sp.1 - i,
    {
        let c = text[i];
        let u = c as u32;
        let ghost j = i - start;
        assert(d[j] == c);
        if u < 0x30 || u > 0x39 {
            assert(!is_digit(d[j]));
            return None;
        }
        assert(d.take(j + 1).drop_last() =~= d.take(j));
        assert(d.take(j + 1).last() == c);
        assert(all_digits(d.take(j + 1)));
        match acc.checked_mul(10) {
            Some(m) => match m.checked_add((u - 0x30) as usize) {
                Some(v) => {
                    acc = v;
                },
                None => {
                    proof {
                        assert(digits_value(d.take(j + 1)) == acc * 10 + (u - 0x30));
                        if all_digits(d) {
                            lemma_digits_value_prefix(d, j + 1);
                        }
                    }
                    return None;
                },
            },
            None => {
                proof {
                    if all_digits(d) {
                        lemma_digits_value_prefix(d, j + 1);
                        lemma_digits_value_prefix(d.take(j + 1), j);
                        assert(d.take(j + 1).take(j) =~= d.take(j));
                    }
                }
                return None;
            },
        }
        i = i + 1;
    }
    assert(d.take(i - start) =~= d);
    Some(acc)
}

/// The decimal digits of `n`, most significant first, without leading zeros.
pub open spec fn decimal(n: nat) -> Seq<char>
    decreases n,
{
    if n < 10 {
        seq![digit_char(n)]
    } else {
        decimal(n / 10).push(digit_char(n % 10))
    }
}

proof fn lemma_digit_char(d: nat)
    requires
        d < 10,
    ensures
        is_digit(digit_char(d)),
        digit_value(digit_char(d)) == d,
        digit_char(d) != '+',
{
}

/// The digits written for a number are decimal digits without a leading
/// zero (but for zero itself), and read back as that number; a number that
/// fits in a usize is read back by `parse_usize`.
pub proof fn lemma_decimal_reads_back(n: nat)
    ensures
        decimal(n).len() > 0,
        all_digits(decimal(n)),
        digits_value(decimal(n)) == n,
        decimal(n)[0] == '0' ==> n == 0,
        n <= usize::MAX ==> parse_usize(decimal(n)) == Some(n as usize),
    decreases n,
{
    let s = decimal(n);
    if n < 10 {
        lemma_digit_char(n);
        assert(s.drop_last() =~= Seq::<char>::empty());
        assert(s.last() == digit_char(n));
        assert(digits_value(s.drop_last()) == 0);
        assert(digits_value(s) == digits_value(s.drop_last()) * 10 + digit_value(s.last()));
        if n != 0 {
            assert(digit_value(s[0]) != 0);
        }
    } else {
        let q = n / 10;
        let r = n % 10;
        lemma_decimal_reads_back(q);
        lemma_digit_char(r);
        assert(s.drop_last() =~= decimal(q));
        assert(s.last() == digit_char(r));
        assert(q * 10 + r == n);
        assert(digits_value(s) == digits_value(s.drop_last()) * 10 + digit_value(s.last()));
        assert(s[0] == decimal(q)[0]);
        assert(q != 0);
        assert forall|i: int| 0 <= i < s.len() implies #[trigger] is_digit(s[i]) by {
            if i < s.len() - 1 {
                assert(s[i] == decimal(q)[i]);
            }
        }
    }
    assert(s[0] != '+') by {
        assert(is_digit(s[0]));
    }
    if n <= usize::MAX {
        assert(parse_usize(s) == Some(digits_value(s) as usize));
    }
}

/// The ASCII digit for `d` (below ten).
pub open spec fn digit_char(d: nat) -> char {
    if d == 0 {
        '0'
    } else if d == 1 {
        '1'
    } else if d == 2 {
        '2'
    } else if d == 3 {
        '3'
    } else if d == 4 {
        '4'
    } else if d == 5 {
        '5'
    } else if d == 6 {
        '6'
    } else if d == 7 {
        '7'
    } else if d == 8 {
        '8'
    } else {
        '9'
    }
}

} // verus!
