//! Decoding of wire-format bytes into messages. Every read is bounds-checked:
//! truncated or hostile input yields an error, never a panic.
use vstd::prelude::*;

use crate::dns::{be16, be32, counted_header, header_bytes, header_fits, labels_bytes, message_bytes, message_valid, name_bytes, queries_bytes, query_bytes, record_bytes, records_bytes, records_fit, Header, Message, MessageType, MessageView, Name, Query, QueryView, Record, RecordView, labels_view, queries_view, records_view};

verus! {

/// Why a byte buffer is not a message.
#[derive(Clone, Copy, Debug, PartialEq, Eq, Structural)]
pub enum DecodeError {
    /// Fewer than the twelve bytes of a header.
    HeaderTooShort,
    /// A section does not hold what the header announces: a field or a label
    /// runs past the end, a label type is reserved, a name is longer than 255
    /// bytes, or a compression pointer does not point backwards.
    Malformed,
}

/// The big-endian 16-bit field at `p`.
pub open spec fn u16_at(b: Seq<u8>, p: int) -> u16 {
    (b[p] as int * 256 + b[p + 1] as int) as u16
}

/// The big-endian 32-bit field at `p`.
pub open spec fn u32_at(b: Seq<u8>, p: int) -> u32 {
    (b[p] as int * 16777216 + b[p + 1] as int * 65536 + b[p + 2] as int * 256 + b[
        p + 3
    ] as int) as u32
}

/// The header that the first twelve bytes hold.
pub open spec fn header_at(b: Seq<u8>) -> Header {
    Header {
        id: u16_at(b, 0),
        message_type: if b[2] >= 128 {
            MessageType::Response
        } else {
            MessageType::Query
        },
        op_code: ((b[2] / 8) % 16) as u8,
        authoritative: (b[2] / 4) % 2 == 1,
        truncated: (b[2] / 2) % 2 == 1,
        recursion_desired: b[2] % 2 == 1,
        recursion_available: b[3] >= 128,
        reserved: ((b[3] / 16) % 8) as u8,
        response_code: (b[3] % 16) as u8,
        query_count: u16_at(b, 4),
        answer_count: u16_at(b, 6),
        name_server_count: u16_at(b, 8),
        additional_count: u16_at(b, 10),
    }
}

/// The name at `pos`, `acc` bytes of labels already read, and the position
/// just after it in the stream: after its terminating zero, or after its
/// first compression pointer. A pointer must point before itself.
pub open spec fn name_at(b: Seq<u8>, pos: int, acc: int) -> Option<(Seq<Seq<u8>>, int)>
    decreases 255 - acc, pos,
{
    if pos < 0 || pos >= b.len() || acc < 0 || acc > 254 {
        None
    } else {
        let l = b[pos] as int;
        if l == 0 {
            Some((Seq::empty(), pos + 1))
        } else if l >= 192 {
            if pos + 1 >= b.len() {
                None
            } else {
                let target = (l - 192) * 256 + b[pos + 1] as int;
                if target < pos {
                    match name_at(b, target, acc) {
                        Some((ls, _)) => Some((ls, pos + 2)),
                        None => None,
                    }
                } else {
                    None
                }
            }
        } else if l >= 64 {
            None
        } else if pos + 1 + l > b.len() || acc + l + 1 > 254 {
            None
        } else {
            match name_at(b, pos + 1 + l, acc + l + 1) {
                Some((ls, e)) => Some((seq![b.subrange(pos + 1, pos + 1 + l)] + ls, e)),
                None => None,
            }
        }
    }
}

pub open spec fn query_at(b: Seq<u8>, pos: int) -> Option<(QueryView, int)> {
    match name_at(b, pos, 0) {
        Some((n, p)) => if p + 4 <= b.len() {
            Some((QueryView { name: n, record_type: u16_at(b, p), dns_class: u16_at(b, p + 2) }, p + 4))
        } else {
            None
        },
        None => None,
    }
}

pub open spec fn record_at(b: Seq<u8>, pos: int) -> Option<(RecordView, int)> {
    match name_at(b, pos, 0) {
        Some((n, p)) => if p + 10 <= b.len() && p + 10 + u16_at(b, p + 8) <= b.len() {
            let len = u16_at(b, p + 8) as int;
            Some(
                (
                    RecordView {
                        name: n,
                        record_type: u16_at(b, p),
                        dns_class: u16_at(b, p + 2),
                        ttl: u32_at(b, p + 4),
                        rdata: b.subrange(p + 10, p + 10 + len),
                    },
                    p + 10 + len,
                ),
            )
        } else {
            None
        },
        None => None,
    }
}

/// `n` questions, one after another, from `pos`.
pub open spec fn queries_at(b: Seq<u8>, pos: int, n: nat) -> Option<(Seq<QueryView>, int)>
    decreases n,
{
    if n == 0 {
        Some((Seq::empty(), pos))
    } else {
        match queries_at(b, pos, (n - 1) as nat) {
            Some((qs, p)) => match query_at(b, p) {
                Some((q, e)) => Some((qs.push(q), e)),
                None => None,
            },
            None => None,
        }
    }
}

/// `n` records, one after another, from `pos`.
pub open spec fn records_at(b: Seq<u8>, pos: int, n: nat) -> Option<(Seq<RecordView>, int)>
    decreases n,
{
    if n == 0 {
        Some((Seq::empty(), pos))
    } else {
        match records_at(b, pos, (n - 1) as nat) {
            Some((rs, p)) => match record_at(b, p) {
                Some((r, e)) => Some((rs.push(r), e)),
                None => None,
            },
            None => None,
        }
    }
}

/// The message that `b` holds and the position after its last record, or why
/// there is none. Bytes after the last record are ignored.
pub open spec fn decode_at(b: Seq<u8>) -> Result<(MessageView, int), DecodeError> {
    if b.len() < 12 {
        Err(DecodeError::HeaderTooShort)
    } else {
        let h = header_at(b);
        match queries_at(b, 12, h.query_count as nat) {
            Some((qs, end1)) => match records_at(b, end1, h.answer_count as nat) {
                Some((an, end2)) => match records_at(b, end2, h.name_server_count as nat) {
                    Some((ns, end3)) => match records_at(b, end3, h.additional_count as nat) {
                        Some((ad, end4)) => Ok(
                            (
                                MessageView {
                                    header: h,
                                    queries: qs,
                                    answers: an,
                                    name_servers: ns,
                                    additionals: ad,
                                },
                                end4,
                            ),
                        ),
                        None => Err(DecodeError::Malformed),
                    },
                    None => Err(DecodeError::Malformed),
                },
                None => Err(DecodeError::Malformed),
            },
            None => Err(DecodeError::Malformed),
        }
    }
}

/// The message that `b` holds, or why there is none.
pub open spec fn decode(b: Seq<u8>) -> Result<MessageView, DecodeError> {
    match decode_at(b) {
        Ok((m, _)) => Ok(m),
        Err(e) => Err(e),
    }
}

/// How a name read so far combines with what the rest of the stream holds.
pub open spec fn join_name(
    read: Seq<Seq<u8>>,
    end: Option<int>,
    rest: Option<(Seq<Seq<u8>>, int)>,
) -> Option<(Seq<Seq<u8>>, int)> {
    match rest {
        Some((ls, e)) => Some((
            read + ls,
            match end {
                Some(x) => x,
                None => e,
            },
        )),
        None => None,
    }
}

pub open spec fn opt_int(e: Option<usize>) -> Option<int> {
    match e {
        Some(x) => Some(x as int),
        None => None,
    }
}

fn take_u16(b: &[u8], p: usize) -> (r: u16)
    requires
        p + 2 <= b@.len(),
    ensures
        r == u16_at(b@, p as int),
{
    (b[p] as u16) * 256 + (b[p + 1] as u16)
}

fn read_u32(b: &[u8], p: usize) -> (r: u32)
    requires
        p + 4 <= b@.len(),
    ensures
        r == u32_at(b@, p as int),
{
    (b[p] as u32) * 16777216 + (b[p + 1] as u32) * 65536 + (b[p + 2] as u32) * 256 + (b[p
        + 3] as u32)
}

fn copy_range(b: &[u8], from: usize, to: usize) -> (r: Vec<u8>)
    requires
        from <= to <= b@.len(),
    ensures
        r@ == b@.subrange(from as int, to as int),
{
    let mut r: Vec<u8> = Vec::new();
    let mut i = from;
    while i < to
        invariant
            from <= i <= to <= b@.len(),
            r@ == b@.subrange(from as int, i as int),
        decreases to - i,
    {
        r.push(b[i]);
        i = i + 1;
        assert(r@ =~= b@.subrange(from as int, i as int));
    }
    r
}

fn name_from_bytes(b: &[u8], start: usize) -> (r: Option<(Name, usize)>)
    ensures
        match r {
            Some((n, e)) => name_at(b@, start as int, 0) == Some((n@, e as int)),
            None => name_at(b@, start as int, 0) is None,
        },
{
    let mut pos = start;
    let mut acc: usize = 0;
    let mut labels: Vec<Vec<u8>> = Vec::new();
    let mut end: Option<usize> = None;
    assert(labels_view(labels@) =~= Seq::<Seq<u8>>::empty());
    loop
        invariant
            acc <= 254,
            name_at(b@, start as int, 0) == join_name(
                labels_view(labels@),
                opt_int(end),
                name_at(b@, pos as int, acc as int),
            ),
            end matches Some(e) ==> e <= b@.len(),
        decreases 255 - acc, pos,
    {
        if pos >= b.len() {
            return None;
        }
        let l = b[pos];
        if l == 0 {
            let e = match end {
                Some(x) => x,
                None => pos + 1,
            };
            assert(labels_view(labels@) + Seq::<Seq<u8>>::empty() =~= labels_view(labels@));
            return Some((Name { labels }, e));
        } else if l >= 192 {
            if pos + 1 >= b.len() {
                return None;
            }
            let target = ((l - 192) as usize) * 256 + (b[pos + 1] as usize);
            if target >= pos {
                return None;
            }
            if end.is_none() {
                end = Some(pos + 2);
            }
            pos = target;
        } else if l >= 64 {
            return None;
        } else {
            let len = l as usize;
            if len > b.len() - pos - 1 || acc + len + 1 > 254 {
                return None;
            }
            let label = copy_range(b, pos + 1, pos + 1 + len);
            let ghost before = labels_view(labels@);
            labels.push(label);
            assert(labels_view(labels@) =~= before.push(label@));
            proof {
                let rest = name_at(b@, (pos + 1 + len) as int, (acc + len + 1) as int);
                match rest {
                    Some((ls, e)) => {
                        assert(before + (seq![label@] + ls) =~= before.push(label@) + ls);
                    },
                    None => {},
                }
            }
            acc = acc + len + 1;
            pos = pos + 1 + len;
        }
    }
}

fn query_from_bytes(b: &[u8], pos: usize) -> (r: Option<(Query, usize)>)
    ensures
        match r {
            Some((q, e)) => query_at(b@, pos as int) == Some((q@, e as int)),
            None => query_at(b@, pos as int) is None,
        },
{
    match name_from_bytes(b, pos) {
        Some((name, p)) => {
            if p > b.len() || b.len() - p < 4 {
                return None;
            }
            let record_type = take_u16(b, p);
            let dns_class = take_u16(b, p + 2);
            Some((Query { name, record_type, dns_class }, p + 4))
        },
        None => None,
    }
}

fn record_from_bytes(b: &[u8], pos: usize) -> (r: Option<(Record, usize)>)
    ensures
        match r {
            Some((x, e)) => record_at(b@, pos as int) == Some((x@, e as int)),
            None => record_at(b@, pos as int) is None,
        },
{
    match name_from_bytes(b, pos) {
        Some((name, p)) => {
            if p > b.len() || b.len() - p < 10 {
                return None;
            }
            let record_type = take_u16(b, p);
            let dns_class = take_u16(b, p + 2);
            let ttl = read_u32(b, p + 4);
            let len = take_u16(b, p + 8) as usize;
            if b.len() - (p + 10) < len {
                return None;
            }
            let rdata = copy_range(b, p + 10, p + 10 + len);
            Some((Record { name, record_type, dns_class, ttl, rdata }, p + 10 + len))
        },
        None => None,
    }
}

proof fn lemma_queries_fail(b: Seq<u8>, pos: int, n: nat, m: nat)
    requires
        queries_at(b, pos, n) is None,
        n <= m,
    ensures
        queries_at(b, pos, m) is None,
    decreases m - n,
{
    if n < m {
        lemma_queries_fail(b, pos, n, (m - 1) as nat);
    }
}

proof fn lemma_records_fail(b: Seq<u8>, pos: int, n: nat, m: nat)
    requires
        records_at(b, pos, n) is None,
        n <= m,
    ensures
        records_at(b, pos, m) is None,
    decreases m - n,
{
    if n < m {
        lemma_records_fail(b, pos, n, (m - 1) as nat);
    }
}

fn queries_from_bytes(b: &[u8], pos: usize, n: u16) -> (r: Option<(Vec<Query>, usize)>)
    ensures
        match r {
            Some((qs, e)) => queries_at(b@, pos as int, n as nat) == Some((queries_view(qs@), e as int)),
            None => queries_at(b@, pos as int, n as nat) is None,
        },
{
    let mut qs: Vec<Query> = Vec::new();
    let mut p = pos;
    let mut i: u16 = 0;
    assert(queries_view(qs@) =~= Seq::<QueryView>::empty());
    while i < n
        invariant
            i <= n,
            queries_at(b@, pos as int, i as nat) == Some((queries_view(qs@), p as int)),
        decreases n - i,
    {
        match query_from_bytes(b, p) {
            Some((q, e)) => {
                let ghost before = queries_view(qs@);
                qs.push(q);
                assert(queries_view(qs@) =~= before.push(q@));
                p = e;
                i = i + 1;
            },
            None => {
                proof {
                    lemma_queries_fail(b@, pos as int, (i + 1) as nat, n as nat);
                }
                return None;
            },
        }
    }
    Some((qs, p))
}

fn records_from_bytes(b: &[u8], pos: usize, n: u16) -> (r: Option<(Vec<Record>, usize)>)
    ensures
        match r {
            Some((rs, e)) => records_at(b@, pos as int, n as nat) == Some((records_view(rs@), e as int)),
            None => records_at(b@, pos as int, n as nat) is None,
        },
{
    let mut rs: Vec<Record> = Vec::new();
    let mut p = pos;
    let mut i: u16 = 0;
    assert(records_view(rs@) =~= Seq::<RecordView>::empty());
    while i < n
        invariant
            i <= n,
            records_at(b@, pos as int, i as nat) == Some((records_view(rs@), p as int)),
        decreases n - i,
    {
        match record_from_bytes(b, p) {
            Some((x, e)) => {
                let ghost before = records_view(rs@);
                rs.push(x);
                assert(records_view(rs@) =~= before.push(x@));
                p = e;
                i = i + 1;
            },
            None => {
                proof {
                    lemma_records_fail(b@, pos as int, (i + 1) as nat, n as nat);
                }
                return None;
            },
        }
    }
    Some((rs, p))
}

fn header_from_bytes(b: &[u8]) -> (r: Header)
    requires
        b@.len() >= 12,
    ensures
        r == header_at(b@),
{
    let hi = b[2];
    let lo = b[3];
    Header {
        id: take_u16(b, 0),
        message_type: if hi >= 128 {
            MessageType::Response
        } else {
            MessageType::Query
        },
        op_code: (hi / 8) % 16,
        authoritative: (hi / 4) % 2 == 1,
        truncated: (hi / 2) % 2 == 1,
        recursion_desired: hi % 2 == 1,
        recursion_available: lo >= 128,
        reserved: (lo / 16) % 8,
        response_code: lo % 16,
        query_count: take_u16(b, 4),
        answer_count: take_u16(b, 6),
        name_server_count: take_u16(b, 8),
        additional_count: take_u16(b, 10),
    }
}

/// Decodes a message, and gives the position just after its last record.
pub fn message_from_bytes(input: &[u8]) -> (r: Result<(usize, Message), DecodeError>)
    ensures
        match r {
            Ok((end, m)) => decode_at(input@) == Ok::<(MessageView, int), DecodeError>((m@, end as int)),
            Err(e) => decode_at(input@) == Err::<(MessageView, int), DecodeError>(e),
        },
{
    if input.len() < 12 {
        return Err(DecodeError::HeaderTooShort);
    }
    let header = header_from_bytes(input);
    let (queries, end1) = match queries_from_bytes(input, 12, header.query_count) {
        Some(x) => x,
        None => { return Err(DecodeError::Malformed); },
    };
    let (answers, end2) = match records_from_bytes(input, end1, header.answer_count) {
        Some(x) => x,
        None => { return Err(DecodeError::Malformed); },
    };
    let (name_servers, end3) = match records_from_bytes(input, end2, header.name_server_count) {
        Some(x) => x,
        None => { return Err(DecodeError::Malformed); },
    };
    let (additionals, end4) = match records_from_bytes(input, end3, header.additional_count) {
        Some(x) => x,
        None => { return Err(DecodeError::Malformed); },
    };
    Ok((end4, Message { header, queries, answers, name_servers, additionals }))
}

proof fn lemma_be16(b: Seq<u8>, p: int, x: u16)
    requires
        0 <= p,
        p + 2 <= b.len(),
        b.subrange(p, p + 2) == be16(x),
    ensures
        u16_at(b, p) == x,
{
    assert(b[p] == b.subrange(p, p + 2)[0]);
    assert(b[p + 1] == b.subrange(p, p + 2)[1]);
}

proof fn lemma_be32(b: Seq<u8>, p: int, x: u32)
    requires
        0 <= p,
        p + 4 <= b.len(),
        b.subrange(p, p + 4) == be32(x),
    ensures
        u32_at(b, p) == x,
{
    assert(b[p] == b.subrange(p, p + 4)[0]);
    assert(b[p + 1] == b.subrange(p, p + 4)[1]);
    assert(b[p + 2] == b.subrange(p, p + 4)[2]);
    assert(b[p + 3] == b.subrange(p, p + 4)[3]);
}

proof fn lemma_split(b: Seq<u8>, pos: int, x: Seq<u8>, y: Seq<u8>)
    requires
        0 <= pos,
        pos + x.len() + y.len() <= b.len(),
        b.subrange(pos, pos + x.len() + y.len()) == x + y,
    ensures
        b.subrange(pos, pos + x.len()) == x,
        b.subrange(pos + x.len(), pos + x.len() + y.len()) == y,
{
    let w = b.subrange(pos, pos + x.len() + y.len());
    assert(b.subrange(pos, pos + x.len()) =~= w.subrange(0, x.len() as int));
    assert(w.subrange(0, x.len() as int) =~= x);
    assert(b.subrange(pos + x.len(), pos + x.len() + y.len()) =~= w.subrange(
        x.len() as int,
        w.len() as int,
    ));
    assert(w.subrange(x.len() as int, w.len() as int) =~= y);
}

/// An uncompressed name reads back as itself.
proof fn lemma_name_round_trip(b: Seq<u8>, pos: int, acc: int, ls: Seq<Seq<u8>>)
    requires
        0 <= pos,
        0 <= acc,
        forall|i: int| 0 <= i < ls.len() ==> 1 <= #[trigger] ls[i].len() <= 63,
        acc + labels_bytes(ls).len() <= 254,
        pos + name_bytes(ls).len() <= b.len(),
        b.subrange(pos, pos + name_bytes(ls).len()) == name_bytes(ls),
    ensures
        name_at(b, pos, acc) == Some((ls, pos + name_bytes(ls).len())),
    decreases ls.len(),
{
    let nb = name_bytes(ls);
    assert(b[pos] == b.subrange(pos, pos + nb.len())[0]);
    if ls.len() == 0 {
        assert(nb =~= seq![0u8]);
    } else {
        let l = ls[0].len() as int;
        let tail = ls.drop_first();
        assert(nb =~= (seq![l as u8] + ls[0]) + name_bytes(tail));
        lemma_split(b, pos, seq![l as u8] + ls[0], name_bytes(tail));
        lemma_split(b, pos, seq![l as u8], ls[0]);
        assert forall|i: int| 0 <= i < tail.len() implies 1 <= #[trigger] tail[i].len() <= 63 by {
            assert(tail[i] == ls[i + 1]);
        }
        lemma_name_round_trip(b, pos + 1 + l, acc + l + 1, tail);
        assert(seq![ls[0]] + tail =~= ls);
    }
}

proof fn lemma_query_round_trip(b: Seq<u8>, pos: int, q: QueryView)
    requires
        0 <= pos,
        crate::dns::query_fits(q),
        pos + query_bytes(q).len() <= b.len(),
        b.subrange(pos, pos + query_bytes(q).len()) == query_bytes(q),
    ensures
        query_at(b, pos) == Some((q, pos + query_bytes(q).len())),
{
    let nb = name_bytes(q.name);
    let n = nb.len() as int;
    lemma_split(b, pos, nb + be16(q.record_type), be16(q.dns_class));
    lemma_split(b, pos, nb, be16(q.record_type));
    lemma_name_round_trip(b, pos, 0, q.name);
    lemma_be16(b, pos + n, q.record_type);
    lemma_be16(b, pos + n + 2, q.dns_class);
}

proof fn lemma_record_round_trip(b: Seq<u8>, pos: int, r: RecordView)
    requires
        0 <= pos,
        crate::dns::record_fits(r),
        pos + record_bytes(r).len() <= b.len(),
        b.subrange(pos, pos + record_bytes(r).len()) == record_bytes(r),
    ensures
        record_at(b, pos) == Some((r, pos + record_bytes(r).len())),
{
    let nb = name_bytes(r.name);
    let n = nb.len() as int;
    let s1 = nb + be16(r.record_type);
    let s2 = s1 + be16(r.dns_class);
    let s3 = s2 + be32(r.ttl);
    let s4 = s3 + be16(r.rdata.len() as u16);
    lemma_split(b, pos, s4, r.rdata);
    lemma_split(b, pos, s3, be16(r.rdata.len() as u16));
    lemma_split(b, pos, s2, be32(r.ttl));
    lemma_split(b, pos, s1, be16(r.dns_class));
    lemma_split(b, pos, nb, be16(r.record_type));
    lemma_name_round_trip(b, pos, 0, r.name);
    lemma_be16(b, pos + n, r.record_type);
    lemma_be16(b, pos + n + 2, r.dns_class);
    lemma_be32(b, pos + n + 4, r.ttl);
    lemma_be16(b, pos + n + 8, r.rdata.len() as u16);
}

proof fn lemma_queries_round_trip(b: Seq<u8>, pos: int, qs: Seq<QueryView>)
    requires
        0 <= pos,
        forall|i: int| 0 <= i < qs.len() ==> crate::dns::query_fits(#[trigger] qs[i]),
        pos + queries_bytes(qs).len() <= b.len(),
        b.subrange(pos, pos + queries_bytes(qs).len()) == queries_bytes(qs),
    ensures
        queries_at(b, pos, qs.len()) == Some((qs, pos + queries_bytes(qs).len())),
    decreases qs.len(),
{
    if qs.len() > 0 {
        let init = qs.drop_last();
        let a = queries_bytes(init).len() as int;
        lemma_split(b, pos, queries_bytes(init), query_bytes(qs.last()));
        assert forall|i: int| 0 <= i < init.len() implies crate::dns::query_fits(#[trigger] init[i]) by {
            assert(init[i] == qs[i]);
        }
        lemma_queries_round_trip(b, pos, init);
        assert(crate::dns::query_fits(qs[qs.len() - 1]));
        lemma_query_round_trip(b, pos + a, qs.last());
        assert(init.push(qs.last()) =~= qs);
    }
}

proof fn lemma_records_round_trip(b: Seq<u8>, pos: int, rs: Seq<RecordView>)
    requires
        0 <= pos,
        records_fit(rs),
        pos + records_bytes(rs).len() <= b.len(),
        b.subrange(pos, pos + records_bytes(rs).len()) == records_bytes(rs),
    ensures
        records_at(b, pos, rs.len()) == Some((rs, pos + records_bytes(rs).len())),
    decreases rs.len(),
{
    if rs.len() > 0 {
        let init = rs.drop_last();
        let a = records_bytes(init).len() as int;
        lemma_split(b, pos, records_bytes(init), record_bytes(rs.last()));
        assert forall|i: int| 0 <= i < init.len() implies crate::dns::record_fits(#[trigger] init[i]) by {
            assert(init[i] == rs[i]);
        }
        lemma_records_round_trip(b, pos, init);
        assert(crate::dns::record_fits(rs[rs.len() - 1]));
        lemma_record_round_trip(b, pos + a, rs.last());
        assert(init.push(rs.last()) =~= rs);
    }
}

proof fn lemma_flags(h: Header)
    requires
        header_fits(h),
    ensures
        (crate::dns::flags_hi(h) >= 128) == (h.message_type == MessageType::Response),
        (crate::dns::flags_hi(h) / 8) % 16 == h.op_code,
        ((crate::dns::flags_hi(h) / 4) % 2 == 1) == h.authoritative,
        ((crate::dns::flags_hi(h) / 2) % 2 == 1) == h.truncated,
        (crate::dns::flags_hi(h) % 2 == 1) == h.recursion_desired,
        (crate::dns::flags_lo(h) >= 128) == h.recursion_available,
        (crate::dns::flags_lo(h) / 16) % 8 == h.reserved,
        crate::dns::flags_lo(h) % 16 == h.response_code,
{
}

proof fn lemma_header_round_trip(h: Header, b: Seq<u8>)
    requires
        header_fits(h),
        b.len() >= 12,
        b.subrange(0, 12) == header_bytes(h),
    ensures
        header_at(b) == h,
{
    let w = b.subrange(0, 12);
    let hb = header_bytes(h);
    assert(b[2] == w[2]);
    assert(b[3] == w[3]);
    assert(hb[2] == crate::dns::flags_hi(h));
    assert(hb[3] == crate::dns::flags_lo(h));
    assert(b.subrange(0, 2) =~= hb.subrange(0, 2));
    assert(b.subrange(4, 6) =~= hb.subrange(4, 6));
    assert(b.subrange(6, 8) =~= hb.subrange(6, 8));
    assert(b.subrange(8, 10) =~= hb.subrange(8, 10));
    assert(b.subrange(10, 12) =~= hb.subrange(10, 12));
    assert(hb.subrange(0, 2) =~= be16(h.id));
    assert(hb.subrange(4, 6) =~= be16(h.query_count));
    assert(hb.subrange(6, 8) =~= be16(h.answer_count));
    assert(hb.subrange(8, 10) =~= be16(h.name_server_count));
    assert(hb.subrange(10, 12) =~= be16(h.additional_count));
    lemma_flags(h);
    lemma_be16(b, 0, h.id);
    lemma_be16(b, 4, h.query_count);
    lemma_be16(b, 6, h.answer_count);
    lemma_be16(b, 8, h.name_server_count);
    lemma_be16(b, 10, h.additional_count);
}

proof fn lemma_message_layout(m: MessageView)
    ensures
        ({
            let b = message_bytes(m);
            let end1 = 12 + queries_bytes(m.queries).len() as int;
            let end2 = end1 + records_bytes(m.answers).len() as int;
            let end3 = end2 + records_bytes(m.name_servers).len() as int;
            &&& b.len() == end3 + records_bytes(m.additionals).len()
            &&& b.subrange(0, 12) == header_bytes(counted_header(m))
            &&& b.subrange(12, end1) == queries_bytes(m.queries)
            &&& b.subrange(end1, end2) == records_bytes(m.answers)
            &&& b.subrange(end2, end3) == records_bytes(m.name_servers)
            &&& b.subrange(end3, b.len() as int) == records_bytes(m.additionals)
        }),
{
    let b = message_bytes(m);
    let h = counted_header(m);
    let s1 = header_bytes(h) + queries_bytes(m.queries);
    let s2 = s1 + records_bytes(m.answers);
    let s3 = s2 + records_bytes(m.name_servers);
    assert(header_bytes(h).len() == 12);
    assert(b == s3 + records_bytes(m.additionals));
    assert(b.subrange(0, b.len() as int) =~= b);
    lemma_split(b, 0, s3, records_bytes(m.additionals));
    lemma_split(b, 0, s2, records_bytes(m.name_servers));
    lemma_split(b, 0, s1, records_bytes(m.answers));
    lemma_split(b, 0, header_bytes(h), queries_bytes(m.queries));
}

/// Decoding inverts encoding: every structurally valid message reads back as
/// itself from its own bytes.
pub proof fn lemma_decode_encode(m: MessageView)
    requires
        message_valid(m),
    ensures
        decode(message_bytes(m)) == Ok::<MessageView, DecodeError>(m),
{
    let b = message_bytes(m);
    let h = counted_header(m);
    assert(h == m.header);
    let end1 = 12 + queries_bytes(m.queries).len() as int;
    let end2 = end1 + records_bytes(m.answers).len() as int;
    let end3 = end2 + records_bytes(m.name_servers).len() as int;
    let end4 = end3 + records_bytes(m.additionals).len() as int;
    lemma_message_layout(m);
    lemma_header_round_trip(h, b);
    lemma_queries_round_trip(b, 12, m.queries);
    lemma_records_round_trip(b, end1, m.answers);
    lemma_records_round_trip(b, end2, m.name_servers);
    lemma_records_round_trip(b, end3, m.additionals);
    assert(decode_at(b) == Ok::<(MessageView, int), DecodeError>((m, end4)));
}

/// A buffer shorter than a header is always refused.
pub proof fn lemma_short_input_refused(b: Seq<u8>)
    requires
        b.len() < 12,
    ensures
        decode(b) == Err::<MessageView, DecodeError>(DecodeError::HeaderTooShort),
{
}

proof fn lemma_name_at_fits(b: Seq<u8>, pos: int, acc: int)
    requires
        name_at(b, pos, acc) is Some,
    ensures
        ({
            let (ls, e) = name_at(b, pos, acc).unwrap();
            &&& forall|i: int| 0 <= i < ls.len() ==> 1 <= #[trigger] ls[i].len() <= 63
            &&& acc + labels_bytes(ls).len() <= 254
            &&& pos < e <= b.len()
        }),
    decreases 255 - acc, pos,
{
    let l = b[pos] as int;
    if l == 0 {
    } else if l >= 192 {
        let target = (l - 192) * 256 + b[pos + 1] as int;
        lemma_name_at_fits(b, target, acc);
    } else {
        lemma_name_at_fits(b, pos + 1 + l, acc + l + 1);
        let (rest, _) = name_at(b, pos + 1 + l, acc + l + 1).unwrap();
        let ls = seq![b.subrange(pos + 1, pos + 1 + l)] + rest;
        assert(ls.drop_first() =~= rest);
        assert forall|i: int| 0 <= i < ls.len() implies 1 <= #[trigger] ls[i].len() <= 63 by {
            if i > 0 {
                assert(ls[i] == rest[i - 1]);
            }
        }
    }
}

proof fn lemma_queries_at_fit(b: Seq<u8>, pos: int, n: nat)
    requires
        queries_at(b, pos, n) is Some,
    ensures
        queries_at(b, pos, n).unwrap().0.len() == n,
        forall|i: int|
            0 <= i < n ==> crate::dns::query_fits(#[trigger] queries_at(b, pos, n).unwrap().0[i]),
    decreases n,
{
    if n > 0 {
        lemma_queries_at_fit(b, pos, (n - 1) as nat);
        let (qs, p) = queries_at(b, pos, (n - 1) as nat).unwrap();
        lemma_name_at_fits(b, p, 0);
        let all = queries_at(b, pos, n).unwrap().0;
        assert forall|i: int| 0 <= i < n implies crate::dns::query_fits(#[trigger] all[i]) by {
            if i < n - 1 {
                assert(all[i] == qs[i]);
            }
        }
    }
}

proof fn lemma_records_at_fit(b: Seq<u8>, pos: int, n: nat)
    requires
        records_at(b, pos, n) is Some,
        n <= 65535,
    ensures
        records_at(b, pos, n).unwrap().0.len() == n,
        records_fit(records_at(b, pos, n).unwrap().0),
    decreases n,
{
    if n > 0 {
        lemma_records_at_fit(b, pos, (n - 1) as nat);
        let (rs, p) = records_at(b, pos, (n - 1) as nat).unwrap();
        lemma_name_at_fits(b, p, 0);
        let all = records_at(b, pos, n).unwrap().0;
        assert forall|i: int| 0 <= i < n implies crate::dns::record_fits(#[trigger] all[i]) by {
            if i < n - 1 {
                assert(all[i] == rs[i]);
            }
        }
    }
}

/// Whatever the decoder accepts is a structurally valid message, so it can
/// be encoded again.
pub proof fn lemma_decoded_valid(b: Seq<u8>)
    requires
        decode(b) is Ok,
    ensures
        message_valid(decode(b)->Ok_0),
{
    let h = header_at(b);
    lemma_queries_at_fit(b, 12, h.query_count as nat);
    let (qs, end1) = queries_at(b, 12, h.query_count as nat).unwrap();
    lemma_records_at_fit(b, end1, h.answer_count as nat);
    let (an, end2) = records_at(b, end1, h.answer_count as nat).unwrap();
    lemma_records_at_fit(b, end2, h.name_server_count as nat);
    let (ns, end3) = records_at(b, end2, h.name_server_count as nat).unwrap();
    lemma_records_at_fit(b, end3, h.additional_count as nat);
}

} // verus!
