//! DNS messages, their mathematical model and their wire encoding.
pub mod parse;

use vstd::prelude::*;

verus! {

/// Whether a message asks or answers.
#[derive(Clone, Copy, Debug, PartialEq, Eq, Structural)]
pub enum MessageType {
    /// A client request.
    Query,
    /// A reply from a server or an upstream resolver.
    Response,
}

impl Default for MessageType {
    fn default() -> (r: MessageType)
        ensures
            r == MessageType::Query,
    {
        MessageType::Query
    }
}

/// The fixed twelve-byte header of a message.
#[derive(Clone, Copy, Debug, PartialEq, Eq, Structural)]
pub struct Header {
    /// Transaction id chosen by the asking client.
    pub id: u16,
    pub message_type: MessageType,
    /// Four-bit operation code, right aligned.
    pub op_code: u8,
    pub authoritative: bool,
    pub truncated: bool,
    pub recursion_desired: bool,
    pub recursion_available: bool,
    /// The three bits between `recursion_available` and the response code.
    pub reserved: u8,
    /// Four-bit response code, right aligned.
    pub response_code: u8,
    pub query_count: u16,
    pub answer_count: u16,
    pub name_server_count: u16,
    pub additional_count: u16,
}

/// A domain name as its labels, in order, the root label left implicit.
/// Names compare byte for byte, in the codec and as cache keys alike.
#[derive(Clone, Debug, PartialEq, Eq, Hash)]
pub struct Name {
    pub labels: Vec<Vec<u8>>,
}

/// A question: what a message asks for, and the key of the cache.
#[derive(Clone, Debug, PartialEq, Eq, Hash)]
pub struct Query {
    pub name: Name,
    pub record_type: u16,
    pub dns_class: u16,
}

/// A resource record; `rdata` is kept as opaque bytes.
#[derive(Clone, Debug, PartialEq, Eq)]
pub struct Record {
    pub name: Name,
    pub record_type: u16,
    pub dns_class: u16,
    /// Time to live, in seconds.
    pub ttl: u32,
    pub rdata: Vec<u8>,
}

/// A whole message.
#[derive(Clone, Debug, PartialEq, Eq)]
pub struct Message {
    pub header: Header,
    pub queries: Vec<Query>,
    pub answers: Vec<Record>,
    pub name_servers: Vec<Record>,
    pub additionals: Vec<Record>,
}

pub struct QueryView {
    pub name: Seq<Seq<u8>>,
    pub record_type: u16,
    pub dns_class: u16,
}

pub struct RecordView {
    pub name: Seq<Seq<u8>>,
    pub record_type: u16,
    pub dns_class: u16,
    pub ttl: u32,
    pub rdata: Seq<u8>,
}

pub struct MessageView {
    pub header: Header,
    pub queries: Seq<QueryView>,
    pub answers: Seq<RecordView>,
    pub name_servers: Seq<RecordView>,
    pub additionals: Seq<RecordView>,
}

pub open spec fn labels_view(s: Seq<Vec<u8>>) -> Seq<Seq<u8>> {
    s.map_values(|l: Vec<u8>| l@)
}

impl View for Name {
    type V = Seq<Seq<u8>>;

    open spec fn view(&self) -> Seq<Seq<u8>> {
        labels_view(self.labels@)
    }
}

impl View for Query {
    type V = QueryView;

    open spec fn view(&self) -> QueryView {
        QueryView { name: self.name@, record_type: self.record_type, dns_class: self.dns_class }
    }
}

impl View for Record {
    type V = RecordView;

    open spec fn view(&self) -> RecordView {
        RecordView {
            name: self.name@,
            record_type: self.record_type,
            dns_class: self.dns_class,
            ttl: self.ttl,
            rdata: self.rdata@,
        }
    }
}

pub open spec fn queries_view(s: Seq<Query>) -> Seq<QueryView> {
    s.map_values(|q: Query| q@)
}

pub open spec fn records_view(s: Seq<Record>) -> Seq<RecordView> {
    s.map_values(|r: Record| r@)
}

impl View for Message {
    type V = MessageView;

    open spec fn view(&self) -> MessageView {
        MessageView {
            header: self.header,
            queries: queries_view(self.queries@),
            answers: records_view(self.answers@),
            name_servers: records_view(self.name_servers@),
            additionals: records_view(self.additionals@),
        }
    }
}

// ---------------------------------------------------------------------------
// The wire encoding, as mathematics.

/// Big-endian bytes of a 16-bit field.
pub open spec fn be16(x: u16) -> Seq<u8> {
    seq![(x / 256) as u8, (x % 256) as u8]
}

/// Big-endian bytes of a 32-bit field.
pub open spec fn be32(x: u32) -> Seq<u8> {
    seq![(x / 16777216) as u8, ((x / 65536) % 256) as u8, ((x / 256) % 256) as u8, (x % 256) as u8]
}

pub open spec fn bit(b: bool) -> int {
    if b { 1 } else { 0 }
}

/// Third header byte: QR, opcode, AA, TC, RD.
pub open spec fn flags_hi(h: Header) -> u8 {
    (bit(h.message_type == MessageType::Response) * 128 + (h.op_code as int) * 8
        + bit(h.authoritative) * 4 + bit(h.truncated) * 2 + bit(h.recursion_desired)) as u8
}

/// Fourth header byte: RA, the reserved bits, RCODE.
pub open spec fn flags_lo(h: Header) -> u8 {
    (bit(h.recursion_available) * 128 + (h.reserved as int) * 16 + (h.response_code as int)) as u8
}

/// Field widths of a header that the wire format can carry.
pub open spec fn header_fits(h: Header) -> bool {
    h.op_code < 16 && h.reserved < 8 && h.response_code < 16
}

/// The twelve bytes of a header, counts as stored.
pub open spec fn header_bytes(h: Header) -> Seq<u8> {
    be16(h.id) + seq![flags_hi(h), flags_lo(h)] + be16(h.query_count) + be16(h.answer_count)
        + be16(h.name_server_count) + be16(h.additional_count)
}

/// The labels of a name, each behind its length byte, without the root.
pub open spec fn labels_bytes(ls: Seq<Seq<u8>>) -> Seq<u8>
    decreases ls.len(),
{
    if ls.len() == 0 {
        Seq::empty()
    } else {
        seq![ls[0].len() as u8] + ls[0] + labels_bytes(ls.drop_first())
    }
}

/// An uncompressed name on the wire.
pub open spec fn name_bytes(ls: Seq<Seq<u8>>) -> Seq<u8> {
    labels_bytes(ls) + seq![0u8]
}

/// A name that the wire format can carry: labels of 1 to 63 bytes, at most
/// 255 bytes in all.
pub open spec fn name_fits(ls: Seq<Seq<u8>>) -> bool {
    &&& forall|i: int| 0 <= i < ls.len() ==> 1 <= #[trigger] ls[i].len() <= 63
    &&& labels_bytes(ls).len() <= 254
}

pub open spec fn query_bytes(q: QueryView) -> Seq<u8> {
    name_bytes(q.name) + be16(q.record_type) + be16(q.dns_class)
}

pub open spec fn record_bytes(r: RecordView) -> Seq<u8> {
    name_bytes(r.name) + be16(r.record_type) + be16(r.dns_class) + be32(r.ttl) + be16(
        r.rdata.len() as u16,
    ) + r.rdata
}

pub open spec fn queries_bytes(qs: Seq<QueryView>) -> Seq<u8>
    decreases qs.len(),
{
    if qs.len() == 0 {
        Seq::empty()
    } else {
        queries_bytes(qs.drop_last()) + query_bytes(qs.last())
    }
}

pub open spec fn records_bytes(rs: Seq<RecordView>) -> Seq<u8>
    decreases rs.len(),
{
    if rs.len() == 0 {
        Seq::empty()
    } else {
        records_bytes(rs.drop_last()) + record_bytes(rs.last())
    }
}

pub open spec fn query_fits(q: QueryView) -> bool {
    name_fits(q.name)
}

pub open spec fn record_fits(r: RecordView) -> bool {
    name_fits(r.name) && r.rdata.len() <= 65535
}

pub open spec fn records_fit(rs: Seq<RecordView>) -> bool {
    rs.len() <= 65535 && forall|i: int| 0 <= i < rs.len() ==> record_fits(#[trigger] rs[i])
}

/// A message that the wire format can carry.
pub open spec fn message_fits(m: MessageView) -> bool {
    &&& header_fits(m.header)
    &&& m.queries.len() <= 65535
    &&& forall|i: int| 0 <= i < m.queries.len() ==> query_fits(#[trigger] m.queries[i])
    &&& records_fit(m.answers)
    &&& records_fit(m.name_servers)
    &&& records_fit(m.additionals)
}

/// A structurally valid message: it fits the wire format and its header
/// counts are the lengths of its sections.
pub open spec fn message_valid(m: MessageView) -> bool {
    &&& message_fits(m)
    &&& m.header.query_count == m.queries.len()
    &&& m.header.answer_count == m.answers.len()
    &&& m.header.name_server_count == m.name_servers.len()
    &&& m.header.additional_count == m.additionals.len()
}

/// The header with its counts taken from the sections.
pub open spec fn counted_header(m: MessageView) -> Header {
    Header {
        query_count: m.queries.len() as u16,
        answer_count: m.answers.len() as u16,
        name_server_count: m.name_servers.len() as u16,
        additional_count: m.additionals.len() as u16,
        ..m.header
    }
}

/// The encoding of a message: counts come from the sections, names are
/// written uncompressed.
pub open spec fn message_bytes(m: MessageView) -> Seq<u8> {
    header_bytes(counted_header(m)) + queries_bytes(m.queries) + records_bytes(m.answers)
        + records_bytes(m.name_servers) + records_bytes(m.additionals)
}

// ---------------------------------------------------------------------------
// The encoder.

fn push_u16(out: &mut Vec<u8>, x: u16)
    ensures
        final(out)@ == old(out)@ + be16(x),
{
    out.push((x / 256) as u8);
    out.push((x % 256) as u8);
}

fn push_u32(out: &mut Vec<u8>, x: u32)
    ensures
        final(out)@ == old(out)@ + be32(x),
{
    out.push((x / 16777216) as u8);
    out.push(((x / 65536) % 256) as u8);
    out.push(((x / 256) % 256) as u8);
    out.push((x % 256) as u8);
}

fn push_bytes(out: &mut Vec<u8>, b: &Vec<u8>)
    ensures
        final(out)@ == old(out)@ + b@,
{
    let mut i: usize = 0;
    while i < b.len()
        invariant
            i <= b.len(),
            out@ == old(out)@ + b@.subrange(0, i as int),
        decreases b.len() - i,
    {
        out.push(b[i]);
        i = i + 1;
        assert(b@.subrange(0, i as int) =~= b@.subrange(0, i - 1) + seq![b@[i - 1]]);
    }
    assert(b@.subrange(0, b.len() as int) =~= b@);
}

pub proof fn lemma_labels_bytes_split(ls: Seq<Seq<u8>>, i: int)
    requires
        0 <= i < ls.len(),
    ensures
        labels_bytes(ls.subrange(i, ls.len() as int)) == seq![ls[i].len() as u8] + ls[i]
            + labels_bytes(ls.subrange(i + 1, ls.len() as int)),
{
    let s = ls.subrange(i, ls.len() as int);
    assert(s.drop_first() =~= ls.subrange(i + 1, ls.len() as int));
}

fn push_name(out: &mut Vec<u8>, name: &Name)
    requires
        name_fits(name@),
    ensures
        final(out)@ == old(out)@ + name_bytes(name@),
{
    let ghost ls = name@;
    let n = name.labels.len();
    let mut i: usize = 0;
    assert(ls.subrange(0, n as int) =~= ls);
    while i < n
        invariant
            i <= n,
            n == name.labels.len(),
            ls == name@,
            name_fits(ls),
            old(out)@ + labels_bytes(ls) == out@ + labels_bytes(ls.subrange(i as int, n as int)),
        decreases n - i,
    {
        let label = &name.labels[i];
        assert(label@ == ls[i as int]);
        assert(1 <= ls[i as int].len() <= 63);
        proof {
            lemma_labels_bytes_split(ls, i as int);
        }
        let ghost before = out@;
        out.push(label.len() as u8);
        push_bytes(out, label);
        assert(out@ == before + (seq![ls[i as int].len() as u8] + ls[i as int]));
        i = i + 1;
        assert(before + (seq![ls[i - 1].len() as u8] + ls[i - 1] + labels_bytes(
            ls.subrange(i as int, n as int),
        )) =~= out@ + labels_bytes(ls.subrange(i as int, n as int)));
    }
    assert(ls.subrange(n as int, n as int) =~= Seq::<Seq<u8>>::empty());
    out.push(0u8);
}

fn push_header(out: &mut Vec<u8>, h: &Header)
    requires
        header_fits(*h),
    ensures
        final(out)@ == old(out)@ + header_bytes(*h),
{
    push_u16(out, h.id);
    let qr: u8 = if h.message_type == MessageType::Response { 128 } else { 0 };
    let aa: u8 = if h.authoritative { 4 } else { 0 };
    let tc: u8 = if h.truncated { 2 } else { 0 };
    let rd: u8 = if h.recursion_desired { 1 } else { 0 };
    let ra: u8 = if h.recursion_available { 128 } else { 0 };
    out.push(qr + h.op_code * 8 + aa + tc + rd);
    out.push(ra + h.reserved * 16 + h.response_code);
    push_u16(out, h.query_count);
    push_u16(out, h.answer_count);
    push_u16(out, h.name_server_count);
    push_u16(out, h.additional_count);
    assert(out@ =~= old(out)@ + header_bytes(*h));
}

fn push_query(out: &mut Vec<u8>, q: &Query)
    requires
        query_fits(q@),
    ensures
        final(out)@ == old(out)@ + query_bytes(q@),
{
    push_name(out, &q.name);
    push_u16(out, q.record_type);
    push_u16(out, q.dns_class);
    assert(out@ =~= old(out)@ + query_bytes(q@));
}

fn push_record(out: &mut Vec<u8>, r: &Record)
    requires
        record_fits(r@),
    ensures
        final(out)@ == old(out)@ + record_bytes(r@),
{
    push_name(out, &r.name);
    push_u16(out, r.record_type);
    push_u16(out, r.dns_class);
    push_u32(out, r.ttl);
    push_u16(out, r.rdata.len() as u16);
    push_bytes(out, &r.rdata);
    assert(out@ =~= old(out)@ + record_bytes(r@));
}

fn push_queries(out: &mut Vec<u8>, qs: &Vec<Query>)
    requires
        forall|i: int| 0 <= i < qs.len() ==> query_fits(#[trigger] queries_view(qs@)[i]),
    ensures
        final(out)@ == old(out)@ + queries_bytes(queries_view(qs@)),
{
    let ghost v = queries_view(qs@);
    let mut i: usize = 0;
    assert(v.subrange(0, 0) =~= Seq::<QueryView>::empty());
    while i < qs.len()
        invariant
            i <= qs.len(),
            v == queries_view(qs@),
            forall|j: int| 0 <= j < qs.len() ==> query_fits(#[trigger] v[j]),
            out@ == old(out)@ + queries_bytes(v.subrange(0, i as int)),
        decreases qs.len() - i,
    {
        assert(query_fits(v[i as int]));
        push_query(out, &qs[i]);
        i = i + 1;
        assert(v.subrange(0, i as int).drop_last() =~= v.subrange(0, i - 1));
    }
    assert(v.subrange(0, qs.len() as int) =~= v);
}

fn push_records(out: &mut Vec<u8>, rs: &Vec<Record>)
    requires
        records_fit(records_view(rs@)),
    ensures
        final(out)@ == old(out)@ + records_bytes(records_view(rs@)),
{
    let ghost v = records_view(rs@);
    let mut i: usize = 0;
    assert(v.subrange(0, 0) =~= Seq::<RecordView>::empty());
    while i < rs.len()
        invariant
            i <= rs.len(),
            v == records_view(rs@),
            records_fit(v),
            out@ == old(out)@ + records_bytes(v.subrange(0, i as int)),
        decreases rs.len() - i,
    {
        assert(record_fits(v[i as int]));
        push_record(out, &rs[i]);
        i = i + 1;
        assert(v.subrange(0, i as int).drop_last() =~= v.subrange(0, i - 1));
    }
    assert(v.subrange(0, rs.len() as int) =~= v);
}

/// The encoding of a message with its transaction id replaced by `id`.
pub open spec fn message_bytes_with_id(m: MessageView, id: u16) -> Seq<u8> {
    message_bytes(MessageView { header: Header { id, ..m.header }, ..m })
}

impl Message {
    /// Encodes the message, consuming it.
    pub fn into_bytes(self) -> (r: Vec<u8>)
        requires
            message_fits(self@),
        ensures
            r@ == message_bytes(self@),
    {
        self.to_bytes()
    }

    /// Encodes the message: counts are taken from the sections, names are
    /// written uncompressed.
    pub fn to_bytes(&self) -> (r: Vec<u8>)
        requires
            message_fits(self@),
        ensures
            r@ == message_bytes(self@),
    {
        let r = self.to_bytes_with_id(self.header.id);
        assert(self@ == (MessageView { header: Header { id: self.header.id, ..self@.header }, ..self@ }));
        r
    }

    /// Encodes the message as `to_bytes` does, with `id` as its transaction id.
    pub fn to_bytes_with_id(&self, id: u16) -> (r: Vec<u8>)
        requires
            message_fits(self@),
        ensures
            r@ == message_bytes_with_id(self@, id),
    {
        let ghost m = MessageView { header: Header { id, ..self@.header }, ..self@ };
        let header = Header {
            id,
            query_count: self.queries.len() as u16,
            answer_count: self.answers.len() as u16,
            name_server_count: self.name_servers.len() as u16,
            additional_count: self.additionals.len() as u16,
            ..self.header
        };
        assert(header == counted_header(m));
        let mut res: Vec<u8> = Vec::new();
        push_header(&mut res, &header);
        push_queries(&mut res, &self.queries);
        push_records(&mut res, &self.answers);
        push_records(&mut res, &self.name_servers);
        push_records(&mut res, &self.additionals);
        res
    }
}

impl Header {
    /// The twelve header bytes, with the counts as stored.
    pub fn into_bytes(self) -> (r: Vec<u8>)
        requires
            header_fits(self),
        ensures
            r@ == header_bytes(self),
    {
        let mut res: Vec<u8> = Vec::new();
        push_header(&mut res, &self);
        res
    }
}

/// Decodes a message; bytes after its last record are ignored.
pub fn parse_message(input: &[u8]) -> (r: Result<Message, parse::DecodeError>)
    ensures
        match r {
            Ok(m) => parse::decode(input@) == Ok::<MessageView, parse::DecodeError>(m@),
            Err(e) => parse::decode(input@) == Err::<MessageView, parse::DecodeError>(e),
        },
{
    match parse::message_from_bytes(input) {
        Ok((_, m)) => Ok(m),
        Err(e) => Err(e),
    }
}

fn bytes_eq(a: &Vec<u8>, b: &Vec<u8>) -> (r: bool)
    ensures
        r == (a@ == b@),
{
    if a.len() != b.len() {
        return false;
    }
    let mut i: usize = 0;
    while i < a.len()
        invariant
            i <= a.len() == b.len(),
            a@.subrange(0, i as int) == b@.subrange(0, i as int),
        decreases a.len() - i,
    {
        if a[i] != b[i] {
            assert(a@[i as int] != b@[i as int]);
            return false;
        }
        i = i + 1;
        assert(a@.subrange(0, i as int) =~= a@.subrange(0, i - 1).push(a@[i - 1]));
        assert(b@.subrange(0, i as int) =~= b@.subrange(0, i - 1).push(b@[i - 1]));
    }
    assert(a@ =~= a@.subrange(0, i as int));
    assert(b@ =~= b@.subrange(0, i as int));
    true
}

impl Name {
    /// Byte-exact comparison of two names.
    pub fn same_as(&self, other: &Name) -> (r: bool)
        ensures
            r == (self@ == other@),
    {
        let n = self.labels.len();
        if n != other.labels.len() {
            assert(self@.len() != other@.len());
            return false;
        }
        let mut i: usize = 0;
        while i < n
            invariant
                i <= n == self.labels.len() == other.labels.len(),
                forall|j: int| 0 <= j < i ==> #[trigger] self@[j] == other@[j],
            decreases n - i,
        {
            if !bytes_eq(&self.labels[i], &other.labels[i]) {
                assert(self@[i as int] != other@[i as int]);
                return false;
            }
            i = i + 1;
        }
        assert(self@ =~= other@);
        true
    }
}

impl Query {
    /// Whether two questions are the same cache key: equal names, types and
    /// classes.
    pub fn same_as(&self, other: &Query) -> (r: bool)
        ensures
            r == (self@ == other@),
    {
        self.name.same_as(&other.name) && self.record_type == other.record_type && self.dns_class
            == other.dns_class
    }
}

} // verus!
