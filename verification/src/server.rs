//! What the server answers to a request, and whether the connection goes on.
use vstd::prelude::*;
use vstd::utf8::{encode_utf8, is_ascii_chars, is_ascii_chars_encode_utf8};

use crate::headers::{
    entries_from_pairs, has_name, header_lines, pair_chars, HeaderEntry, Headers,
};
use crate::reader::{ReadError, ReadStatus};
use crate::request::{
    asks_to_close, parse_request, refusal_text, Request, RequestFault, RequestParts,
};
use crate::response::{response_text, Response, Status};
use crate::text::{decimal, str_equal};
use crate::RawRequest;

verus! {

/// The headers that a refused request is answered with.
pub open spec fn close_entries() -> Seq<HeaderEntry> {
    seq![("Connection"@, "close"@)]
}

/// The request is "GET `path` HTTP/1.1".
pub open spec fn is_get(parts: RequestParts, path: Seq<char>) -> bool {
    parts.0 == "GET"@ && parts.1 == path && parts.2 == "HTTP/1.1"@
}

/// The status of the answer.
pub open spec fn reply_status(parsed: Result<RequestParts, RequestFault>) -> Status {
    match parsed {
        Ok(p) => if is_get(p, "/test"@) || is_get(p, "/sleep"@) {
            Status::Success
        } else {
            Status::NotFound
        },
        Err(_) => Status::BadRequest,
    }
}

/// The headers of the answer.
pub open spec fn reply_headers(parsed: Result<RequestParts, RequestFault>) -> Seq<HeaderEntry> {
    match parsed {
        Ok(_) => seq![],
        Err(_) => close_entries(),
    }
}

/// The body of the answer to the raw request `raw`: the routed text for a
/// request that parses, the text of the refusal otherwise.
pub open spec fn reply_body(raw: Seq<u8>) -> Seq<char> {
    match parse_request(raw) {
        Ok(p) => if is_get(p, "/test"@) {
            "Hello world!"@
        } else if is_get(p, "/sleep"@) {
            "Slept for 5s"@
        } else {
            ""@
        },
        Err(_) => refusal_text(raw),
    }
}

/// The seconds to wait before answering.
pub open spec fn reply_delay(parsed: Result<RequestParts, RequestFault>) -> u64 {
    match parsed {
        Ok(p) => if is_get(p, "/sleep"@) {
            5
        } else {
            0
        },
        Err(_) => 0,
    }
}

/// Whether the connection is read on after the answer: only after a request
/// that parsed and did not ask for "Connection: close".
pub open spec fn connection_stays_open(parsed: Result<RequestParts, RequestFault>) -> bool {
    match parsed {
        Ok(p) => !asks_to_close(p.3),
        Err(_) => false,
    }
}

/// The text of the answer to the raw request `raw`.
pub open spec fn answer_text(raw: Seq<u8>) -> Seq<char> {
    response_text(
        reply_status(parse_request(raw)),
        reply_headers(parse_request(raw)),
        reply_body(raw),
    )
}

/// A refused request is answered "400 BAD REQUEST" with "Connection: close"
/// and the text of the refusal (its Content-Length counting that text),
/// without delay, and ends the connection.
pub proof fn lemma_refused_request_closes(raw: Seq<u8>)
    requires
        parse_request(raw) is Err,
    ensures
        answer_text(raw) == response_text(Status::BadRequest, close_entries(), refusal_text(raw)),
        reply_delay(parse_request(raw)) == 0,
        !connection_stays_open(parse_request(raw)),
{
}

/// A request that parses is never answered "400 BAD REQUEST", and the
/// connection stays open exactly when it does not ask for
/// "Connection: close".
pub proof fn lemma_parsed_request_answer(parts: RequestParts)
    ensures
        reply_status(Ok(parts)) != Status::BadRequest,
        reply_headers(Ok(parts)) == Seq::<HeaderEntry>::empty(),
        connection_stays_open(Ok(parts)) <==> !asks_to_close(parts.3),
{
}

/// The answers a connection gets, given how each read of a request ended:
/// `Some(raw)` when a whole request `raw` was read, `None` when the
/// connection ended or reading failed. Each request is answered in turn; no
/// answer follows a request that ends the connection, nor the first `None`.
pub open spec fn connection_answers(reads: Seq<Option<Seq<u8>>>) -> Seq<Seq<char>>
    decreases reads.len(),
{
    if reads.len() == 0 {
        seq![]
    } else {
        match reads[0] {
            None => seq![],
            Some(raw) => seq![answer_text(raw)] + if connection_stays_open(parse_request(raw)) {
                connection_answers(reads.drop_first())
            } else {
                seq![]
            },
        }
    }
}

/// Whether a connection is still read on after the reads `reads`: every
/// read gave a whole request, and each of them left the connection open.
pub open spec fn still_open(reads: Seq<Option<Seq<u8>>>) -> bool
    decreases reads.len(),
{
    if reads.len() == 0 {
        true
    } else {
        match reads[0] {
            None => false,
            Some(raw) => connection_stays_open(parse_request(raw)) && still_open(
                reads.drop_first(),
            ),
        }
    }
}

/// One more read adds an answer exactly when the connection was still open
/// and the read gave a whole request; whether it stays open then depends on
/// that request.
proof fn lemma_answers_push(reads: Seq<Option<Seq<u8>>>, x: Option<Seq<u8>>)
    ensures
        connection_answers(reads.push(x)) == connection_answers(reads) + if still_open(reads)
            && x is Some {
            seq![answer_text(x->0)]
        } else {
            Seq::<Seq<char>>::empty()
        },
        still_open(reads.push(x)) == (still_open(reads) && x is Some && connection_stays_open(
            parse_request(x->0),
        )),
    decreases reads.len(),
{
    let all = reads.push(x);
    if reads.len() == 0 {
        assert(all.drop_first() =~= Seq::<Option<Seq<u8>>>::empty());
        assert(connection_answers(all.drop_first()) == Seq::<Seq<char>>::empty());
        assert(still_open(all.drop_first()));
        assert(connection_answers(reads) == Seq::<Seq<char>>::empty());
        assert(still_open(reads));
        assert(all[0] == x);
        if x is Some {
            assert(seq![answer_text(x->0)] + Seq::<Seq<char>>::empty() =~= seq![
                answer_text(x->0),
            ]);
        }
        if x is Some {
            assert(connection_answers(reads) + seq![answer_text(x->0)] =~= seq![
                answer_text(x->0),
            ]);
        } else {
            assert(connection_answers(reads) + Seq::<Seq<char>>::empty() =~= connection_answers(
                all,
            ));
        }
    } else {
        assert(all[0] == reads[0]);
        assert(all.drop_first() =~= reads.drop_first().push(x));
        lemma_answers_push(reads.drop_first(), x);
        match reads[0] {
            None => {
                assert(connection_answers(reads) + Seq::<Seq<char>>::empty() =~= connection_answers(
                    reads,
                ));
            },
            Some(raw) => {
                if connection_stays_open(parse_request(raw)) {
                    let extra = if still_open(reads) && x is Some {
                        seq![answer_text(x->0)]
                    } else {
                        Seq::<Seq<char>>::empty()
                    };
                    assert(seq![answer_text(raw)] + (connection_answers(reads.drop_first())
                        + extra) =~= seq![answer_text(raw)] + connection_answers(
                        reads.drop_first(),
                    ) + extra);
                } else {
                    assert(seq![answer_text(raw)] + Seq::<Seq<char>>::empty()
                        + Seq::<Seq<char>>::empty() =~= seq![answer_text(raw)]
                        + Seq::<Seq<char>>::empty());
                }
            },
        }
    }
}

/// The answers to the requests of `reads`, in order.
pub open spec fn answers_to(reads: Seq<Option<Seq<u8>>>) -> Seq<Seq<char>> {
    reads.map_values(|r: Option<Seq<u8>>| answer_text(r->0))
}

/// A connection whose first requests leave it open and whose request `k`
/// ends it (it is refused, or asks for "Connection: close") gets exactly the
/// answers to its requests up to and including `k`; later requests get none.
pub proof fn lemma_connection_until_close(reads: Seq<Option<Seq<u8>>>, k: int)
    requires
        0 <= k < reads.len(),
        forall|i: int| 0 <= i <= k ==> #[trigger] reads[i] is Some,
        forall|i: int| 0 <= i < k ==> connection_stays_open(parse_request(#[trigger] reads[i]->0)),
        !connection_stays_open(parse_request(reads[k]->0)),
    ensures
        connection_answers(reads) == answers_to(reads.take(k + 1)),
    decreases k,
{
    assert(reads[0] is Some);
    if k == 0 {
        assert(answers_to(reads.take(1)) =~= seq![answer_text(reads[0]->0)]);
        assert(seq![answer_text(reads[0]->0)] + Seq::<Seq<char>>::empty() =~= seq![
            answer_text(reads[0]->0),
        ]);
    } else {
        let rest = reads.drop_first();
        assert forall|i: int| 0 <= i <= k - 1 implies #[trigger] rest[i] is Some by {
            assert(rest[i] == reads[i + 1]);
        }
        assert forall|i: int| 0 <= i < k - 1 implies connection_stays_open(
            parse_request(#[trigger] rest[i]->0),
        ) by {
            assert(rest[i] == reads[i + 1]);
        }
        assert(rest[k - 1] == reads[k]);
        lemma_connection_until_close(rest, k - 1);
        assert(answers_to(reads.take(k + 1)) =~= seq![answer_text(reads[0]->0)] + answers_to(
            rest.take(k),
        ));
    }
}

/// A connection whose first `k` requests leave it open and whose next read
/// ends without a request (the connection ended or reading failed) gets
/// exactly the answers to those `k` requests.
pub proof fn lemma_connection_until_read_ends(reads: Seq<Option<Seq<u8>>>, k: int)
    requires
        0 <= k < reads.len(),
        forall|i: int| 0 <= i < k ==> #[trigger] reads[i] is Some,
        forall|i: int| 0 <= i < k ==> connection_stays_open(parse_request(#[trigger] reads[i]->0)),
        reads[k] is None,
    ensures
        connection_answers(reads) == answers_to(reads.take(k)),
    decreases k,
{
    if k == 0 {
        assert(answers_to(reads.take(0)) =~= Seq::<Seq<char>>::empty());
    } else {
        assert(reads[0] is Some);
        let rest = reads.drop_first();
        assert forall|i: int| 0 <= i < k - 1 implies #[trigger] rest[i] is Some by {
            assert(rest[i] == reads[i + 1]);
        }
        assert forall|i: int| 0 <= i < k - 1 implies connection_stays_open(
            parse_request(#[trigger] rest[i]->0),
        ) by {
            assert(rest[i] == reads[i + 1]);
        }
        assert(rest[k - 1] == reads[k]);
        lemma_connection_until_read_ends(rest, k - 1);
        assert(answers_to(reads.take(k)) =~= seq![answer_text(reads[0]->0)] + answers_to(
            rest.take(k - 1),
        ));
    }
}

proof fn lemma_ascii_length(s: Seq<char>)
    requires
        is_ascii_chars(s),
    ensures
        encode_utf8(s).len() == s.len(),
{
    is_ascii_chars_encode_utf8(s);
}

/// The texts of the three answers to requests that parse.
proof fn lemma_route_texts()
    ensures
        response_text(Status::Success, Seq::<HeaderEntry>::empty(), "Hello world!"@)
            == "HTTP/1.1 200 OK\r\nContent-Length: 12\r\n\r\nHello world!"@,
        response_text(Status::Success, Seq::<HeaderEntry>::empty(), "Slept for 5s"@)
            == "HTTP/1.1 200 OK\r\nContent-Length: 12\r\n\r\nSlept for 5s"@,
        response_text(Status::NotFound, Seq::<HeaderEntry>::empty(), ""@)
            == "HTTP/1.1 404 NOT FOUND\r\nContent-Length: 0\r\n\r\n"@,
{
    reveal_strlit("Hello world!");
    reveal_strlit("Slept for 5s");
    reveal_strlit("");
    reveal_strlit("HTTP/1.1 ");
    reveal_strlit(" ");
    reveal_strlit("OK");
    reveal_strlit("NOT FOUND");
    reveal_strlit("\r\n");
    reveal_strlit("Content-Length: ");
    reveal_strlit("\r\n\r\n");
    reveal_strlit("HTTP/1.1 200 OK\r\nContent-Length: 12\r\n\r\nHello world!");
    reveal_strlit("HTTP/1.1 200 OK\r\nContent-Length: 12\r\n\r\nSlept for 5s");
    reveal_strlit("HTTP/1.1 404 NOT FOUND\r\nContent-Length: 0\r\n\r\n");
    lemma_ascii_length("Hello world!"@);
    lemma_ascii_length("Slept for 5s"@);
    assert(encode_utf8(""@) =~= Seq::<u8>::empty());
    reveal_with_fuel(decimal, 4);
    assert(decimal(200) =~= seq!['2', '0', '0']);
    assert(decimal(404) =~= seq!['4', '0', '4']);
    assert(decimal(12) =~= seq!['1', '2']);
    assert(decimal(0) =~= seq!['0']);
    assert(header_lines(Seq::<HeaderEntry>::empty()) =~= Seq::<char>::empty());
    assert(response_text(Status::Success, Seq::<HeaderEntry>::empty(), "Hello world!"@)
        =~= "HTTP/1.1 200 OK\r\nContent-Length: 12\r\n\r\nHello world!"@);
    assert(response_text(Status::Success, Seq::<HeaderEntry>::empty(), "Slept for 5s"@)
        =~= "HTTP/1.1 200 OK\r\nContent-Length: 12\r\n\r\nSlept for 5s"@);
    assert(response_text(Status::NotFound, Seq::<HeaderEntry>::empty(), ""@)
        =~= "HTTP/1.1 404 NOT FOUND\r\nContent-Length: 0\r\n\r\n"@);
}

/// How a request that parses is answered: "GET /test HTTP/1.1" with "200 OK"
/// and "Hello world!" at once; "GET /sleep HTTP/1.1" with "200 OK" and
/// "Slept for 5s" after five seconds; any other method, path or version
/// with "404 NOT FOUND", an empty body, at once. The connection stays open
/// unless the request asks for "Connection: close".
pub proof fn lemma_routes(raw: Seq<u8>)
    requires
        parse_request(raw) is Ok,
    ensures
        ({
            let p = parse_request(raw)->Ok_0;
            &&& (p.0 == "GET"@ && p.1 == "/test"@ && p.2 == "HTTP/1.1"@) ==> answer_text(raw)
                == "HTTP/1.1 200 OK\r\nContent-Length: 12\r\n\r\nHello world!"@ && reply_delay(
                parse_request(raw),
            ) == 0
            &&& (p.0 == "GET"@ && p.1 == "/sleep"@ && p.2 == "HTTP/1.1"@) ==> answer_text(raw)
                == "HTTP/1.1 200 OK\r\nContent-Length: 12\r\n\r\nSlept for 5s"@ && reply_delay(
                parse_request(raw),
            ) == 5
            &&& !(p.0 == "GET"@ && p.2 == "HTTP/1.1"@ && (p.1 == "/test"@ || p.1 == "/sleep"@))
                ==> answer_text(raw) == "HTTP/1.1 404 NOT FOUND\r\nContent-Length: 0\r\n\r\n"@
                && reply_delay(parse_request(raw)) == 0
            &&& connection_stays_open(parse_request(raw)) == !asks_to_close(p.3)
        }),
{
    lemma_route_texts();
    reveal_strlit("/test");
    reveal_strlit("/sleep");
    assert("/test"@.len() != "/sleep"@.len());
}

/// Answers the raw request: "200 OK" with "Hello world!" for
/// "GET /test HTTP/1.1"; "200 OK" with "Slept for 5s", after a wait of five
/// seconds, for "GET /sleep HTTP/1.1"; "404 NOT FOUND" with an empty body for
/// any other request that parses; "400 BAD REQUEST" with
/// "Connection: close" and the text of the refusal otherwise. Gives back the
/// parsed request, the answer and the seconds to wait before sending it.
pub fn handle<'a>(raw: &'a RawRequest) -> (r: (Option<Request<'a>>, Response, u64))
    ensures
        r.0 is Some <==> parse_request(raw@) is Ok,
        r.0 matches Some(req) ==> parse_request(raw@) == Ok::<RequestParts, RequestFault>(req@),
        r.1@ == answer_text(raw@),
        r.2 == reply_delay(parse_request(raw@)),
{
    let ghost parsed = parse_request(raw@);
    match Request::parse(raw) {
        Ok(req) => {
            let get = str_equal(req.method(), "GET") && str_equal(req.version(), "HTTP/1.1");
            proof {
                reveal_strlit("/test");
                reveal_strlit("/sleep");
                assert("/test"@.len() != "/sleep"@.len());
            }
            if get && str_equal(req.path(), "/test") {
                let resp = Response::ok(Headers::new(), "Hello world!");
                assert(is_get(req@, "/test"@));
                assert(!is_get(req@, "/sleep"@));
                (Some(req), resp, 0)
            } else if get && str_equal(req.path(), "/sleep") {
                let resp = Response::ok(Headers::new(), "Slept for 5s");
                (Some(req), resp, 5)
            } else {
                let resp = Response::not_found(Headers::new(), "");
                (Some(req), resp, 0)
            }
        },
        Err(e) => {
            let body = e.message();
            let pairs = [("Connection", "close")];
            let headers = Headers::from(&pairs);
            proof {
                let ps = pairs@.map_values(|p: (&str, &str)| pair_chars(p));
                assert(ps.len() == 1);
                assert(ps.drop_last() =~= Seq::<HeaderEntry>::empty());
                assert(ps.last() == ("Connection"@, "close"@));
                assert(entries_from_pairs(ps.drop_last()) =~= Seq::<HeaderEntry>::empty());
                assert(!has_name(Seq::<HeaderEntry>::empty(), "Connection"@));
                assert(headers@ =~= close_entries());
            }
            let resp = Response::bad_request(headers, body.as_str());
            (None, resp, 0)
        },
    }
}

/// Whether the connection is read on after answering `request`: only when
/// the request parsed and did not ask for "Connection: close".
pub fn keeps_connection_open(request: &Option<Request>) -> (b: bool)
    ensures
        b == (request matches Some(req) && !asks_to_close(req@.3)),
{
    match request {
        Some(req) => !req.should_close(),
        None => false,
    }
}

/// What to do once reading a request from a connection has ended: when a
/// whole request was read into `raw`, the answer to send, the seconds to wait
/// before sending it and whether to read on afterwards; `None` (stop) when
/// the connection ended or reading failed.
pub fn serve_step(read: Result<ReadStatus, ReadError>, raw: &RawRequest) -> (r: Option<
    (Response, u64, bool),
>)
    ensures
        r is Some <==> read matches Ok(ReadStatus::Complete),
        r matches Some(a) ==> {
            &&& a.0@ == answer_text(raw@)
            &&& a.1 == reply_delay(parse_request(raw@))
            &&& a.2 == connection_stays_open(parse_request(raw@))
        },
{
    match read {
        Ok(ReadStatus::Complete) => {
            let (request, response, delay) = handle(raw);
            let keep = keeps_connection_open(&request);
            Some((response, delay, keep))
        },
        _ => None,
    }
}

/// The decisions over one connection: takes how each read of a request
/// ended, and says what to answer and whether to read on. The answers it has
/// given are, at every point, the answers that the connection's reads call
/// for (`connection_answers`).
pub struct Connection {
    open: bool,
    reads: Ghost<Seq<Option<Seq<u8>>>>,
    answers: Ghost<Seq<Seq<char>>>,
}

impl View for Connection {
    /// Whether the connection is read on, the reads so far, and the texts of
    /// the answers given so far.
    type V = (bool, Seq<Option<Seq<u8>>>, Seq<Seq<char>>);

    closed spec fn view(&self) -> (bool, Seq<Option<Seq<u8>>>, Seq<Seq<char>>) {
        (self.open, self.reads@, self.answers@)
    }
}

/// How a read ended, as the connection records it: the request when one was
/// read whole.
pub open spec fn read_record(read: Result<ReadStatus, ReadError>, raw: Seq<u8>) -> Option<
    Seq<u8>,
> {
    if read matches Ok(ReadStatus::Complete) {
        Some(raw)
    } else {
        None
    }
}

impl Connection {
    #[verifier::type_invariant]
    spec fn follows_reads(self) -> bool {
        &&& self.answers@ == connection_answers(self.reads@)
        &&& self.open == still_open(self.reads@)
    }

    /// A connection before its first read.
    pub fn new() -> (c: Connection)
        ensures
            c@.0,
            c@.1 == Seq::<Option<Seq<u8>>>::empty(),
            c@.2 == Seq::<Seq<char>>::empty(),
    {
        Connection { open: true, reads: Ghost(Seq::empty()), answers: Ghost(Seq::empty()) }
    }

    /// Whether the connection is read on.
    pub fn is_open(&self) -> (b: bool)
        ensures
            b == self@.0,
    {
        self.open
    }

    /// Takes how a read ended (with the request read into `raw`) and gives
    /// the answer to send and the seconds to wait before sending it: only
    /// while the connection is open and a whole request was read. The
    /// connection stays open only after a request that leaves it open.
    pub fn step(&mut self, read: Result<ReadStatus, ReadError>, raw: &RawRequest) -> (r: Option<
        (Response, u64),
    >)
        ensures
            final(self)@.1 == old(self)@.1.push(read_record(read, raw@)),
            final(self)@.2 == connection_answers(final(self)@.1),
            final(self)@.0 == still_open(final(self)@.1),
            final(self)@.0 == (old(self)@.0 && read_record(read, raw@) is Some
                && connection_stays_open(parse_request(raw@))),
            r is Some <==> old(self)@.0 && read_record(read, raw@) is Some,
            r matches Some(a) ==> a.0@ == answer_text(raw@) && a.1 == reply_delay(
                parse_request(raw@),
            ),
            final(self)@.2 == old(self)@.2 + match r {
                Some(a) => seq![a.0@],
                None => Seq::<Seq<char>>::empty(),
            },
    {
        proof {
            use_type_invariant(&*self);
        }
        let ghost rec = read_record(read, raw@);
        let ghost old_reads = self.reads@;
        proof {
            lemma_answers_push(old_reads, rec);
        }
        let (r, open) = if self.open {
            match serve_step(read, raw) {
                Some((response, delay, keep_open)) => (Some((response, delay)), keep_open),
                None => (None, false),
            }
        } else {
            (None, false)
        };
        *self = Connection {
            open,
            reads: Ghost(old_reads.push(rec)),
            answers: Ghost(connection_answers(old_reads.push(rec))),
        };
        r
    }
}

} // verus!
