//! The life of one request: decode, look up the cache, then either answer at
//! once or have the caller forward the request upstream and hand the outcome
//! back. Sockets and waiting stay with the caller; every decision is here.
use vstd::prelude::*;

use crate::cache::{Cache, CacheEntry, EntryView};
use crate::dns::parse::{decode, u16_at, DecodeError};
use crate::dns::{
    be16, header_bytes, message_bytes, message_bytes_with_id, message_fits, parse_message, query_fits,
    Header, Message, MessageType, MessageView, Query, QueryView, Record, RecordView,
};

verus! {

/// Response code of a reply to a request that could not be read.
pub const FORMAT_ERROR: u8 = 1;

/// Response code of a reply when the upstream resolver gave no usable answer.
pub const SERVER_FAILURE: u8 = 2;

/// Why forwarding a request produced no usable reply.
#[derive(Clone, Copy, Debug, PartialEq, Eq, Structural)]
pub enum ForwardError {
    /// No local socket could be had.
    Bind,
    /// The request could not be sent.
    Send,
    /// No reply came in time.
    Timeout,
    /// A reply came but is not a message.
    BadResponse(DecodeError),
}

/// What to do next with a request.
pub enum Step {
    /// Send these bytes back to the client.
    Reply(Vec<u8>),
    /// Forward the client's request upstream, then pass the outcome to
    /// `finish_forward` with this question and header.
    Forward { query: Query, header: Header },
    /// Send nothing: not even a transaction id could be read.
    Drop,
}

pub enum StepView {
    Reply(Seq<u8>),
    Forward { query: QueryView, header: Header },
    Drop,
}

impl View for Step {
    type V = StepView;

    open spec fn view(&self) -> StepView {
        match self {
            Step::Reply(b) => StepView::Reply(b@),
            Step::Forward { query, header } => StepView::Forward { query: query@, header: *header },
            Step::Drop => StepView::Drop,
        }
    }
}

/// Every cached answer can be encoded again.
pub open spec fn entries_fit(entries: Map<QueryView, EntryView>) -> bool {
    forall|q: QueryView| #[trigger] entries.contains_key(q) ==> message_fits(entries[q].response)
}

/// The header of a reply that carries only an error.
pub open spec fn error_header(id: u16, op_code: u8, recursion_desired: bool, rcode: u8, queries: u16) -> Header {
    Header {
        id,
        message_type: MessageType::Response,
        op_code,
        authoritative: false,
        truncated: false,
        recursion_desired,
        recursion_available: true,
        reserved: 0,
        response_code: rcode,
        query_count: queries,
        answer_count: 0,
        name_server_count: 0,
        additional_count: 0,
    }
}

/// The error header for bytes that are no message but hold an id: what can be
/// read of the operation code and recursion flag is copied.
pub open spec fn unreadable_header(b: Seq<u8>) -> Header {
    error_header(
        u16_at(b, 0),
        if b.len() >= 3 { ((b[2] / 8) % 16) as u8 } else { 0 },
        b.len() >= 3 && b[2] % 2 == 1,
        FORMAT_ERROR,
        0,
    )
}

/// What to do with the request `request` arriving at time `now` (seconds),
/// the cache holding `entries`.
pub open spec fn respond(entries: Map<QueryView, EntryView>, request: Seq<u8>, now: u64) -> StepView {
    match decode(request) {
        Err(_) => if request.len() < 2 {
            StepView::Drop
        } else {
            StepView::Reply(header_bytes(unreadable_header(request)))
        },
        Ok(m) => if m.queries.len() == 0 {
            StepView::Reply(
                header_bytes(
                    error_header(m.header.id, m.header.op_code, m.header.recursion_desired, FORMAT_ERROR, 0),
                ),
            )
        } else if entries.contains_key(m.queries[0]) && now < entries[m.queries[0]].expires_at {
            StepView::Reply(message_bytes_with_id(entries[m.queries[0]].response, m.header.id))
        } else {
            StepView::Forward { query: m.queries[0], header: m.header }
        },
    }
}

/// The smallest time to live among the records; zero when there are none.
pub open spec fn min_ttl(rs: Seq<RecordView>) -> u32
    decreases rs.len(),
{
    if rs.len() == 0 {
        0
    } else if rs.len() == 1 {
        rs[0].ttl
    } else if min_ttl(rs.drop_last()) <= rs.last().ttl {
        min_ttl(rs.drop_last())
    } else {
        rs.last().ttl
    }
}

/// `now + ttl`, or the largest time if that does not fit.
pub open spec fn expiry(now: u64, ttl: u32) -> u64 {
    if now + ttl > u64::MAX {
        u64::MAX
    } else {
        (now + ttl) as u64
    }
}

/// The entry cached for an upstream answer `m` received at `now`: it is
/// stale once the smallest time to live among its answers has passed.
pub open spec fn stored_entry(m: MessageView, now: u64) -> EntryView {
    EntryView { response: m, expires_at: expiry(now, min_ttl(m.answers)) }
}

/// The reply when forwarding failed: a server failure that repeats the
/// question.
pub open spec fn failure_message(q: QueryView, request: Header) -> MessageView {
    MessageView {
        header: error_header(request.id, request.op_code, request.recursion_desired, SERVER_FAILURE, 1),
        queries: seq![q],
        answers: Seq::empty(),
        name_servers: Seq::empty(),
        additionals: Seq::empty(),
    }
}

/// The bytes sent to the client once forwarding is over.
pub open spec fn forward_reply(
    outcome: Result<MessageView, ForwardError>,
    q: QueryView,
    request: Header,
) -> Seq<u8> {
    match outcome {
        Ok(m) => message_bytes_with_id(m, request.id),
        Err(_) => message_bytes(failure_message(q, request)),
    }
}

pub open spec fn outcome_view(outcome: Result<Message, ForwardError>) -> Result<MessageView, ForwardError> {
    match outcome {
        Ok(m) => Ok(m@),
        Err(e) => Err(e),
    }
}

fn error_reply(id: u16, op_code: u8, recursion_desired: bool, rcode: u8) -> (r: Vec<u8>)
    requires
        op_code < 16,
        rcode < 16,
    ensures
        r@ == header_bytes(error_header(id, op_code, recursion_desired, rcode, 0)),
{
    let h = Header {
        id,
        message_type: MessageType::Response,
        op_code,
        authoritative: false,
        truncated: false,
        recursion_desired,
        recursion_available: true,
        reserved: 0,
        response_code: rcode,
        query_count: 0,
        answer_count: 0,
        name_server_count: 0,
        additional_count: 0,
    };
    h.into_bytes()
}

/// Decides what to do with one datagram from a client, received at `now`
/// (seconds). A fresh cache hit is answered with the cached message under
/// the request's own transaction id.
pub fn handle_request<C: Cache>(cache: &mut C, request: &[u8], now: u64) -> (r: Step)
    requires
        old(cache).inv(),
        entries_fit(old(cache).entries()),
    ensures
        final(cache).inv(),
        final(cache).entries() == old(cache).entries(),
        r@ == respond(old(cache).entries(), request@, now),
{
    match parse_message(request) {
        Err(_) => {
            if request.len() < 2 {
                Step::Drop
            } else {
                let id = (request[0] as u16) * 256 + (request[1] as u16);
                let (op_code, rd) = if request.len() >= 3 {
                    ((request[2] / 8) % 16, request[2] % 2 == 1)
                } else {
                    (0, false)
                };
                Step::Reply(error_reply(id, op_code, rd, FORMAT_ERROR))
            }
        },
        Ok(m) => {
            proof {
                crate::dns::parse::lemma_decoded_valid(request@);
            }
            let header = m.header;
            if m.queries.len() == 0 {
                return Step::Reply(
                    error_reply(header.id, header.op_code, header.recursion_desired, FORMAT_ERROR),
                );
            }
            let mut queries = m.queries;
            let query = queries.swap_remove(0);
            match cache.get(&query) {
                Some(entry) => {
                    if now < entry.expires_at {
                        return Step::Reply(entry.response.to_bytes_with_id(header.id));
                    }
                },
                None => {},
            }
            Step::Forward { query, header }
        },
    }
}

fn smallest_ttl(rs: &Vec<Record>) -> (r: u32)
    ensures
        r == min_ttl(crate::dns::records_view(rs@)),
{
    let ghost v = crate::dns::records_view(rs@);
    if rs.len() == 0 {
        return 0;
    }
    let mut m = rs[0].ttl;
    let mut i: usize = 1;
    assert(v.subrange(0, 1).drop_last() =~= Seq::<RecordView>::empty());
    while i < rs.len()
        invariant
            1 <= i <= rs.len(),
            v == crate::dns::records_view(rs@),
            m == min_ttl(v.subrange(0, i as int)),
        decreases rs.len() - i,
    {
        let t = rs[i].ttl;
        assert(v.subrange(0, i + 1).drop_last() =~= v.subrange(0, i as int));
        if t < m {
            m = t;
        }
        i = i + 1;
    }
    assert(v.subrange(0, rs.len() as int) =~= v);
    m
}

/// Completes a request that was forwarded, at time `now`: an answer is cached
/// under the question and sent with the client's transaction id; a failure
/// leaves the cache alone and becomes a server-failure reply.
pub fn finish_forward<C: Cache>(
    cache: &mut C,
    query: Query,
    request: Header,
    outcome: Result<Message, ForwardError>,
    now: u64,
) -> (r: Vec<u8>)
    requires
        old(cache).inv(),
        entries_fit(old(cache).entries()),
        query_fits(query@),
        request.op_code < 16,
        outcome matches Ok(m) ==> message_fits(m@),
    ensures
        final(cache).inv(),
        entries_fit(final(cache).entries()),
        r@ == forward_reply(outcome_view(outcome), query@, request),
        match outcome {
            Ok(m) => {
                &&& final(cache).entries().contains_key(query@)
                &&& final(cache).entries()[query@] == stored_entry(m@, now)
                &&& forall|q: QueryView| #[trigger]
                    final(cache).entries().contains_key(q) && q != query@ ==> old(
                        cache,
                    ).entries().contains_key(q) && final(cache).entries()[q] == old(cache).entries()[q]
            },
            Err(_) => final(cache).entries() == old(cache).entries(),
        },
{
    match outcome {
        Ok(m) => {
            let bytes = m.to_bytes_with_id(request.id);
            let ttl = smallest_ttl(&m.answers);
            let expires_at = if now > u64::MAX - (ttl as u64) {
                u64::MAX
            } else {
                now + ttl as u64
            };
            let ghost mv = m@;
            cache.insert(query, CacheEntry { response: m, expires_at });
            assert(entries_fit(cache.entries())) by {
                assert forall|q: QueryView| #[trigger] cache.entries().contains_key(q) implies message_fits(
                    cache.entries()[q].response,
                ) by {
                    if q != query@ {
                        assert(old(cache).entries().contains_key(q));
                    }
                }
            }
            bytes
        },
        Err(_) => {
            let header = Header {
                id: request.id,
                message_type: MessageType::Response,
                op_code: request.op_code,
                authoritative: false,
                truncated: false,
                recursion_desired: request.recursion_desired,
                recursion_available: true,
                reserved: 0,
                response_code: SERVER_FAILURE,
                query_count: 1,
                answer_count: 0,
                name_server_count: 0,
                additional_count: 0,
            };
            let ghost qv = query@;
            let reply = Message {
                header,
                queries: vec![query],
                answers: Vec::new(),
                name_servers: Vec::new(),
                additionals: Vec::new(),
            };
            assert(reply@.queries =~= seq![qv]);
            assert(reply@.answers =~= Seq::<RecordView>::empty());
            assert(reply@.name_servers =~= Seq::<RecordView>::empty());
            assert(reply@.additionals =~= Seq::<RecordView>::empty());
            assert(reply@ == failure_message(qv, request));
            reply.to_bytes()
        },
    }
}

/// Reads the upstream resolver's reply.
pub fn read_reply(reply: &[u8]) -> (r: Result<Message, ForwardError>)
    ensures
        match r {
            Ok(m) => decode(reply@) == Ok::<MessageView, DecodeError>(m@) && message_fits(m@),
            Err(e) => decode(reply@) is Err && e == ForwardError::BadResponse(decode(reply@)->Err_0),
        },
{
    match parse_message(reply) {
        Ok(m) => {
            proof {
                crate::dns::parse::lemma_decoded_valid(reply@);
            }
            Ok(m)
        },
        Err(e) => Err(ForwardError::BadResponse(e)),
    }
}

/// After an upstream answer `m` to question `q` has been cached at `t0`, a
/// later request for `q` that comes before the entry expires is answered
/// from the cache with the very same message, only under the new request's
/// transaction id.
pub proof fn lemma_cached_answer_repeats(
    entries: Map<QueryView, EntryView>,
    q: QueryView,
    m: MessageView,
    t0: u64,
    request: Seq<u8>,
    t1: u64,
)
    requires
        entries.contains_key(q),
        entries[q] == stored_entry(m, t0),
        decode(request) is Ok,
        decode(request)->Ok_0.queries.len() > 0,
        decode(request)->Ok_0.queries[0] == q,
        t1 < expiry(t0, min_ttl(m.answers)),
    ensures
        respond(entries, request, t1) == StepView::Reply(
            message_bytes_with_id(m, decode(request)->Ok_0.header.id),
        ),
{
}

/// Once the time to live of a cached answer has passed, a request for its
/// question is forwarded upstream again.
pub proof fn lemma_expired_entry_is_forwarded(
    entries: Map<QueryView, EntryView>,
    q: QueryView,
    m: MessageView,
    t0: u64,
    request: Seq<u8>,
    t1: u64,
)
    requires
        entries.contains_key(q),
        entries[q] == stored_entry(m, t0),
        decode(request) is Ok,
        decode(request)->Ok_0.queries.len() > 0,
        decode(request)->Ok_0.queries[0] == q,
        t1 >= t0 + min_ttl(m.answers),
    ensures
        respond(entries, request, t1) == (StepView::Forward {
            query: q,
            header: decode(request)->Ok_0.header,
        }),
{
}

proof fn lemma_id_bytes(b: Seq<u8>)
    requires
        b.len() >= 2,
    ensures
        be16(u16_at(b, 0)) == b.subrange(0, 2),
{
    assert(be16(u16_at(b, 0)) =~= b.subrange(0, 2));
}

proof fn lemma_header_id_bytes(h: Header)
    ensures
        header_bytes(h).len() == 12,
        header_bytes(h).subrange(0, 2) == be16(h.id),
{
    assert(header_bytes(h).subrange(0, 2) =~= be16(h.id));
}

proof fn lemma_message_id_bytes(m: MessageView, id: u16)
    ensures
        message_bytes_with_id(m, id).len() >= 12,
        message_bytes_with_id(m, id).subrange(0, 2) == be16(id),
{
    let m2 = MessageView { header: Header { id, ..m.header }, ..m };
    let h = crate::dns::counted_header(m2);
    lemma_header_id_bytes(h);
    let b = message_bytes(m2);
    let rest = crate::dns::queries_bytes(m2.queries) + crate::dns::records_bytes(m2.answers)
        + crate::dns::records_bytes(m2.name_servers) + crate::dns::records_bytes(m2.additionals);
    assert(b =~= header_bytes(h) + rest);
    assert(b.subrange(0, 2) =~= header_bytes(h).subrange(0, 2));
}

/// Whatever the request and the cache, a reply sent straight away begins with
/// the request's own transaction id, so no client ever sees another's.
pub proof fn lemma_reply_keeps_request_id(entries: Map<QueryView, EntryView>, request: Seq<u8>, now: u64)
    ensures
        respond(entries, request, now) matches StepView::Reply(b) ==> b.len() >= 2 && b.subrange(0, 2)
            == request.subrange(0, 2),
{
    if request.len() >= 2 {
        lemma_id_bytes(request);
        match decode(request) {
            Err(_) => {
                lemma_header_id_bytes(unreadable_header(request));
            },
            Ok(m) => {
                assert(m.header.id == u16_at(request, 0));
                lemma_header_id_bytes(
                    error_header(m.header.id, m.header.op_code, m.header.recursion_desired, FORMAT_ERROR, 0),
                );
                if m.queries.len() > 0 && entries.contains_key(m.queries[0]) {
                    lemma_message_id_bytes(entries[m.queries[0]].response, m.header.id);
                }
            },
        }
    }
}

/// A request that is forwarded gets, whatever the outcome, a reply that
/// begins with its own transaction id.
pub proof fn lemma_forwarded_reply_keeps_request_id(
    entries: Map<QueryView, EntryView>,
    request: Seq<u8>,
    now: u64,
    outcome: Result<MessageView, ForwardError>,
)
    requires
        respond(entries, request, now) is Forward,
    ensures
        ({
            let (q, h) = match respond(entries, request, now) {
                StepView::Forward { query, header } => (query, header),
                _ => arbitrary(),
            };
            let b = forward_reply(outcome, q, h);
            b.len() >= 2 && b.subrange(0, 2) == request.subrange(0, 2)
        }),
{
    let m = decode(request)->Ok_0;
    assert(request.len() >= 12);
    lemma_id_bytes(request);
    match outcome {
        Ok(x) => lemma_message_id_bytes(x, m.header.id),
        Err(_) => {
            let f = failure_message(m.queries[0], m.header);
            lemma_message_id_bytes(f, f.header.id);
            assert(MessageView { header: Header { id: f.header.id, ..f.header }, ..f } == f);
        },
    }
}

} // verus!
