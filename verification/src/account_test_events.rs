//! The server-sent event endpoint that streams one account test's events:
//! which requests it serves, the test id it reads from the query, and the
//! bytes it sends.
use vstd::prelude::*;
use crate::account_test::{normalize_account_test_id, ostr, spec_normalize_test_id};
use crate::text::{concat, eq_ignore_ascii_case, lower, non_blank, non_blank_str, str_eq,
    to_owned_string, trim};

verus! {

/// The SSE event name of account test events.
pub const EVENT_NAME: &'static str = "account-test-event";

/// Seconds without an event after which a keep-alive comment is sent.
pub const KEEPALIVE_INTERVAL_SECS: u64 = 15;

/// The name/value pairs that `application/x-www-form-urlencoded` parsing
/// gives for a query string.
pub uninterp spec fn form_urlencoded_pairs(query: Seq<char>) -> Seq<(Seq<char>, Seq<char>)>;

pub open spec fn pair_views(v: Seq<(String, String)>) -> Seq<(Seq<char>, Seq<char>)> {
    Seq::new(v.len(), |i: int| (v[i].0@, v[i].1@))
}

/// Decodes a query string into its pairs with
/// `url::form_urlencoded::parse`; the result is named, not described.
#[verifier::external_body]
fn parse_query_pairs(query: &str) -> (r: Vec<(String, String)>)
    ensures
        pair_views(r@) == form_urlencoded_pairs(query@),
{
    url::form_urlencoded::parse(query.as_bytes()).map(
        |(k, v)| (k.into_owned(), v.into_owned()),
    ).collect()
}

/// The values of the pairs named `key`, in order.
pub open spec fn values_of(pairs: Seq<(Seq<char>, Seq<char>)>, key: Seq<char>) -> Seq<Seq<char>>
    decreases pairs.len(),
{
    if pairs.len() == 0 {
        Seq::empty()
    } else if pairs.last().0 == key {
        values_of(pairs.drop_last(), key).push(pairs.last().1)
    } else {
        values_of(pairs.drop_last(), key)
    }
}

/// The test id of decoded query pairs: exactly one `testId`, and an
/// acceptable one.
pub open spec fn spec_test_id_of_pairs(pairs: Seq<(Seq<char>, Seq<char>)>) -> Option<Seq<char>> {
    let vals = values_of(pairs, "testId"@);
    if vals.len() == 1 {
        spec_normalize_test_id(vals[0])
    } else {
        None
    }
}

/// The test id of decoded query pairs.
pub fn test_id_from_query_pairs(pairs: &Vec<(String, String)>) -> (r: Option<String>)
    ensures
        ostr(r) == spec_test_id_of_pairs(pair_views(pairs@)),
{
    let ghost pv = pair_views(pairs@);
    let mut found: Option<&String> = None;
    let mut count: usize = 0;
    let mut i: usize = 0;
    proof {
        assert(pv.subrange(0, 0) =~= Seq::<(Seq<char>, Seq<char>)>::empty());
    }
    while i < pairs.len()
        invariant
            i <= pairs@.len(),
            pv == pair_views(pairs@),
            count <= i,
            count == values_of(pv.subrange(0, i as int), "testId"@).len(),
            count >= 1 ==> (found matches Some(f) && f@ == values_of(
                pv.subrange(0, i as int),
                "testId"@,
            )[0]),
        decreases pairs.len() - i,
    {
        proof {
            let s = pv.subrange(0, i + 1);
            assert(s.drop_last() =~= pv.subrange(0, i as int));
            assert(s.last() == (pairs@[i as int].0@, pairs@[i as int].1@));
        }
        if str_eq(pairs[i].0.as_str(), "testId") {
            if count == 0 {
                found = Some(&pairs[i].1);
            }
            count = count + 1;
        }
        i = i + 1;
    }
    proof {
        assert(pv.subrange(0, pairs@.len() as int) =~= pv);
    }
    if count != 1 {
        return None;
    }
    match found {
        Some(v) => normalize_account_test_id(v.as_str()),
        None => None,
    }
}

/// The test id of a request's query string (`None` without one): the query
/// must hold exactly one `testId`, and an acceptable one.
pub fn account_test_id_from_query(query: Option<&str>) -> (r: Option<String>)
    ensures
        match query {
            None => r is None,
            Some(q) => ostr(r) == spec_test_id_of_pairs(form_urlencoded_pairs(q@)),
        },
{
    match query {
        None => None,
        Some(q) => {
            let pairs = parse_query_pairs(q);
            test_id_from_query_pairs(&pairs)
        },
    }
}

/// The SSE frame of one event whose JSON is `data`.
pub fn account_test_sse_frame(data: &str) -> (r: String)
    ensures
        r@ == "event: account-test-event\ndata: "@ + data@ + "\n\n"@,
{
    let mut s = to_owned_string("event: account-test-event\ndata: ");
    s.append(data);
    s.append("\n\n");
    s
}

/// The comment sent when the stream opens.
pub fn connected_comment() -> (r: String)
    ensures
        r@ == ": connected\n\n"@,
{
    to_owned_string(": connected\n\n")
}

/// The comment sent when no event came for a while.
pub fn keep_alive_comment() -> (r: String)
    ensures
        r@ == ": keep-alive\n\n"@,
{
    to_owned_string(": keep-alive\n\n")
}

/// What waiting for the next event gave.
pub enum NextEvent {
    /// An event, as JSON.
    Event(String),
    /// Nothing within the keep-alive interval.
    Timeout,
    /// The test's events ended.
    Disconnected,
}

/// The text to send next; `None` ends the stream.
pub fn next_chunk(next: &NextEvent) -> (r: Option<String>)
    ensures
        match *next {
            NextEvent::Event(d) => r matches Some(c) && c@ == "event: account-test-event\ndata: "@ + d@
                + "\n\n"@,
            NextEvent::Timeout => r matches Some(c) && c@ == ": keep-alive\n\n"@,
            NextEvent::Disconnected => r is None,
        },
{
    match next {
        NextEvent::Event(d) => Some(account_test_sse_frame(d.as_str())),
        NextEvent::Timeout => Some(keep_alive_comment()),
        NextEvent::Disconnected => None,
    }
}

/// The bytes of the event stream that are yet to be read.
pub struct AccountTestEventStream {
    pending: Vec<u8>,
    pending_offset: usize,
    opened: bool,
}

impl AccountTestEventStream {
    #[verifier::type_invariant]
    spec fn inv(self) -> bool {
        self.pending_offset <= self.pending@.len()
    }

    /// The bytes not read yet.
    pub closed spec fn spec_unread(self) -> Seq<u8> {
        self.pending@.subrange(self.pending_offset as int, self.pending@.len() as int)
    }

    pub closed spec fn spec_opened(self) -> bool {
        self.opened
    }

    pub fn new() -> (r: Self)
        ensures
            r.spec_unread().len() == 0,
            !r.spec_opened(),
    {
        AccountTestEventStream { pending: Vec::new(), pending_offset: 0, opened: false }
    }

    pub fn is_opened(&self) -> (r: bool)
        ensures
            r == self.spec_opened(),
    {
        self.opened
    }

    /// Whether everything has been read.
    pub fn needs_refill(&self) -> (r: bool)
        ensures
            r == (self.spec_unread().len() == 0),
    {
        proof {
            use_type_invariant(self);
        }
        self.pending_offset >= self.pending.len()
    }

    /// Opens the stream with the `connected` comment.
    pub fn open(&mut self)
        ensures
            final(self).spec_opened(),
            final(self).spec_unread() == vstd::utf8::encode_utf8(": connected\n\n"@),
    {
        let s = connected_comment();
        let pending = utf8_bytes(s.as_str());
        *self = AccountTestEventStream { pending, pending_offset: 0, opened: true };
        proof {
            assert(self.pending@.subrange(0, self.pending@.len() as int) =~= self.pending@);
        }
    }

    /// Loads the next chunk; `false` (and nothing loaded) when the stream
    /// ends.
    pub fn load(&mut self, next: &NextEvent) -> (r: bool)
        requires
            old(self).spec_unread().len() == 0,
        ensures
            final(self).spec_opened() == old(self).spec_opened(),
            match next_chunk_spec(*next) {
                Some(c) => r && final(self).spec_unread() == vstd::utf8::encode_utf8(c),
                None => !r && final(self).spec_unread().len() == 0,
            },
    {
        proof {
            use_type_invariant(&*self);
        }
        match next_chunk(next) {
            Some(c) => {
                let pending = utf8_bytes(c.as_str());
                *self = AccountTestEventStream { pending, pending_offset: 0, opened: self.opened };
                proof {
                    assert(self.pending@.subrange(0, self.pending@.len() as int) =~= self.pending@);
                }
                true
            },
            None => false,
        }
    }

    /// Hands out up to `max` unread bytes, in order.
    pub fn take(&mut self, max: usize) -> (r: Vec<u8>)
        ensures
            final(self).spec_opened() == old(self).spec_opened(),
            r@.len() == if old(self).spec_unread().len() < max {
                old(self).spec_unread().len() as int
            } else {
                max as int
            },
            old(self).spec_unread() == r@ + final(self).spec_unread(),
    {
        proof {
            use_type_invariant(&*self);
        }
        let remaining = self.pending.len() - self.pending_offset;
        let count = if remaining < max { remaining } else { max };
        let pl = self.pending.len();
        let mut out: Vec<u8> = Vec::new();
        let mut k: usize = 0;
        while k < count
            invariant
                k <= count,
                pl == self.pending@.len(),
                self.pending_offset + count <= self.pending@.len(),
                out@ == self.pending@.subrange(self.pending_offset as int, self.pending_offset + k),
            decreases count - k,
        {
            out.push(self.pending[self.pending_offset + k]);
            proof {
                assert(self.pending@.subrange(self.pending_offset as int, self.pending_offset + k + 1)
                    =~= self.pending@.subrange(self.pending_offset as int, self.pending_offset + k).push(
                    self.pending@[self.pending_offset + k],
                ));
            }
            k = k + 1;
        }
        let ghost before = self.pending@;
        let ghost off = self.pending_offset;
        let opened = self.opened;
        let new_offset = self.pending_offset + count;
        let mut tmp = AccountTestEventStream::new();
        std::mem::swap(&mut tmp, self);
        let AccountTestEventStream { pending, pending_offset: _, opened: _ } = tmp;
        *self = AccountTestEventStream { pending, pending_offset: new_offset, opened };
        proof {
            assert(before.subrange(off as int, before.len() as int) =~= out@ + before.subrange(
                off + count,
                before.len() as int,
            ));
        }
        out
    }
}

pub open spec fn next_chunk_spec(next: NextEvent) -> Option<Seq<char>> {
    match next {
        NextEvent::Event(d) => Some("event: account-test-event\ndata: "@ + d@ + "\n\n"@),
        NextEvent::Timeout => Some(": keep-alive\n\n"@),
        NextEvent::Disconnected => None,
    }
}

/// The UTF-8 bytes of a string (`str::as_bytes`).
fn utf8_bytes(s: &str) -> (r: Vec<u8>)
    ensures
        r@ == vstd::utf8::encode_utf8(s@),
{
    let b = s.as_bytes();
    let mut out: Vec<u8> = Vec::new();
    let mut i: usize = 0;
    while i < b.len()
        invariant
            i <= b@.len(),
            b@ == vstd::utf8::encode_utf8(s@),
            out@ == b@.subrange(0, i as int),
        decreases b.len() - i,
    {
        out.push(b[i]);
        proof {
            assert(b@.subrange(0, i + 1) =~= b@.subrange(0, i as int).push(b@[i as int]));
        }
        i = i + 1;
    }
    proof {
        assert(b@.subrange(0, b@.len() as int) =~= b@);
    }
    out
}

/// How the endpoint answers a request.
pub enum EventsRequestDecision {
    /// A JSON `{}` with this status.
    Reject(u16),
    /// The event stream of this test.
    Stream(String),
}

/// The plain-HTTP endpoint: only `GET`; then a valid RPC token; then one
/// acceptable test id.
pub fn account_test_events_decision(method: &str, token_valid: bool, test_id: Option<String>) -> (r:
    EventsRequestDecision)
    ensures
        method@ != "GET"@ ==> r == EventsRequestDecision::Reject(405),
        method@ == "GET"@ && !token_valid ==> r == EventsRequestDecision::Reject(401),
        method@ == "GET"@ && token_valid ==> match test_id {
            None => r == EventsRequestDecision::Reject(400),
            Some(t) => r matches EventsRequestDecision::Stream(s) && s@ == t@,
        },
{
    if !str_eq(method, "GET") {
        return EventsRequestDecision::Reject(405);
    }
    account_test_events_http_decision(token_valid, test_id)
}

/// The endpoint of the web server: a valid RPC token, then one acceptable
/// test id.
pub fn account_test_events_http_decision(token_valid: bool, test_id: Option<String>) -> (r:
    EventsRequestDecision)
    ensures
        !token_valid ==> r == EventsRequestDecision::Reject(401),
        token_valid ==> match test_id {
            None => r == EventsRequestDecision::Reject(400),
            Some(t) => r matches EventsRequestDecision::Stream(s) && s@ == t@,
        },
{
    if !token_valid {
        return EventsRequestDecision::Reject(401);
    }
    match test_id {
        None => EventsRequestDecision::Reject(400),
        Some(t) => EventsRequestDecision::Stream(t),
    }
}

/// The value of the first header with the name (ignoring ASCII case),
/// trimmed; `None` when there is none or it is blank.
pub open spec fn spec_header_value(headers: Seq<(Seq<char>, Seq<char>)>, name: Seq<char>) -> Option<Seq<char>>
    decreases headers.len(),
{
    if headers.len() == 0 {
        None
    } else if lower(headers[0].0) == lower(name) {
        non_blank(headers[0].1)
    } else {
        spec_header_value(headers.drop_first(), name)
    }
}

/// The value of a request header.
pub fn request_header_value(headers: &Vec<(String, String)>, name: &str) -> (r: Option<String>)
    ensures
        ostr(r) == spec_header_value(pair_views(headers@), name@),
{
    let ghost hv = pair_views(headers@);
    let mut i: usize = 0;
    proof {
        assert(hv.subrange(0, hv.len() as int) =~= hv);
    }
    while i < headers.len()
        invariant
            i <= headers@.len(),
            hv == pair_views(headers@),
            spec_header_value(hv, name@) == spec_header_value(hv.subrange(i as int, hv.len() as int), name@),
        decreases headers.len() - i,
    {
        let ghost rest = hv.subrange(i as int, hv.len() as int);
        proof {
            assert(rest[0] == hv[i as int]);
            assert(rest.drop_first() =~= hv.subrange(i + 1, hv.len() as int));
        }
        if eq_ignore_ascii_case(headers[i].0.as_str(), name) {
            return non_blank_str(headers[i].1.as_str());
        }
        i = i + 1;
    }
    None
}

} // verus!
