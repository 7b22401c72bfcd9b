use rusty_dns::dns::parse::{message_from_bytes, DecodeError};
use rusty_dns::dns::{parse_message, Header, Message, MessageType, Name, Query, Record};

fn name(parts: &[&str]) -> Name {
    Name { labels: parts.iter().map(|p| p.as_bytes().to_vec()).collect() }
}

fn header(id: u16, counts: [u16; 4]) -> Header {
    Header {
        id,
        message_type: MessageType::Response,
        op_code: 0,
        authoritative: false,
        truncated: false,
        recursion_desired: true,
        recursion_available: true,
        reserved: 0,
        response_code: 0,
        query_count: counts[0],
        answer_count: counts[1],
        name_server_count: counts[2],
        additional_count: counts[3],
    }
}

fn sample() -> Message {
    Message {
        header: header(0xbeef, [1, 1, 0, 1]),
        queries: vec![Query { name: name(&["example", "test"]), record_type: 1, dns_class: 1 }],
        answers: vec![Record {
            name: name(&["example", "test"]),
            record_type: 1,
            dns_class: 1,
            ttl: 300,
            rdata: vec![192, 0, 2, 1],
        }],
        name_servers: vec![],
        additionals: vec![Record { name: name(&[]), record_type: 41, dns_class: 4096, ttl: 0, rdata: vec![] }],
    }
}

#[test]
fn round_trip_of_a_full_message() {
    let m = sample();
    let bytes = m.to_bytes();
    assert_eq!(parse_message(&bytes), Ok(m));
}

#[test]
fn round_trip_keeps_every_header_flag() {
    let mut h = header(7, [0, 0, 0, 0]);
    h.message_type = MessageType::Query;
    h.op_code = 15;
    h.authoritative = true;
    h.truncated = true;
    h.recursion_desired = false;
    h.recursion_available = false;
    h.reserved = 5;
    h.response_code = 9;
    let m = Message { header: h, queries: vec![], answers: vec![], name_servers: vec![], additionals: vec![] };
    assert_eq!(parse_message(&m.to_bytes()), Ok(m));
}

#[test]
fn header_bytes_are_big_endian() {
    let mut h = header(0x1234, [1, 2, 3, 4]);
    h.op_code = 2;
    h.response_code = 3;
    assert_eq!(h.into_bytes(), vec![0x12, 0x34, 0x91, 0x83, 0, 1, 0, 2, 0, 3, 0, 4]);
}

#[test]
fn encoding_takes_counts_from_sections() {
    let mut m = sample();
    m.header.query_count = 9;
    m.header.answer_count = 0;
    let bytes = m.clone().into_bytes();
    assert_eq!(&bytes[4..12], &[0, 1, 0, 1, 0, 0, 0, 1]);
    let q = &bytes[12..12 + 18];
    assert_eq!(q, &[7, b'e', b'x', b'a', b'm', b'p', b'l', b'e', 4, b't', b'e', b's', b't', 0, 0, 1, 0, 1]);
}

#[test]
fn with_id_changes_only_the_id() {
    let m = sample();
    let a = m.to_bytes();
    let b = m.to_bytes_with_id(0x0102);
    assert_eq!(&b[0..2], &[1, 2]);
    assert_eq!(&a[2..], &b[2..]);
}

#[test]
fn decodes_compressed_names() {
    let mut b = vec![0xab, 0xcd, 0x81, 0x80, 0, 1, 0, 1, 0, 0, 0, 0];
    b.extend_from_slice(&[7, b'e', b'x', b'a', b'm', b'p', b'l', b'e', 4, b't', b'e', b's', b't', 0, 0, 1, 0, 1]);
    b.extend_from_slice(&[0xc0, 12, 0, 1, 0, 1, 0, 0, 0, 60, 0, 4, 192, 0, 2, 1]);
    let m = parse_message(&b).unwrap();
    assert_eq!(m.header.id, 0xabcd);
    assert_eq!(m.header.message_type, MessageType::Response);
    assert_eq!(m.answers.len(), 1);
    assert_eq!(m.answers[0].name, name(&["example", "test"]));
    assert_eq!(m.answers[0].ttl, 60);
    assert_eq!(m.answers[0].rdata, vec![192, 0, 2, 1]);
    assert_eq!(message_from_bytes(&b).unwrap().0, b.len());
}

#[test]
fn trailing_bytes_are_ignored() {
    let m = sample();
    let mut bytes = m.to_bytes();
    let end = bytes.len();
    bytes.resize(512, 0);
    let (used, got) = message_from_bytes(&bytes).unwrap();
    assert_eq!(used, end);
    assert_eq!(got, m);
}

#[test]
fn every_truncated_header_is_refused() {
    let full = sample().to_bytes();
    for n in 0..12 {
        assert_eq!(parse_message(&full[..n]), Err(DecodeError::HeaderTooShort));
    }
}

#[test]
fn every_truncated_body_is_refused() {
    let full = sample().to_bytes();
    for n in 12..full.len() {
        assert_eq!(parse_message(&full[..n]), Err(DecodeError::Malformed));
    }
}

#[test]
fn forward_pointer_is_refused() {
    let mut b = vec![0, 1, 0, 0, 0, 1, 0, 0, 0, 0, 0, 0];
    b.extend_from_slice(&[0xc0, 12, 0, 1, 0, 1]);
    assert_eq!(parse_message(&b), Err(DecodeError::Malformed));
}

#[test]
fn reserved_label_type_is_refused() {
    let mut b = vec![0, 1, 0, 0, 0, 1, 0, 0, 0, 0, 0, 0];
    b.extend_from_slice(&[0x40, 0, 0, 1, 0, 1]);
    assert_eq!(parse_message(&b), Err(DecodeError::Malformed));
}

#[test]
fn label_past_the_end_is_refused() {
    let mut b = vec![0, 1, 0, 0, 0, 1, 0, 0, 0, 0, 0, 0];
    b.extend_from_slice(&[63, b'a', b'b']);
    assert_eq!(parse_message(&b), Err(DecodeError::Malformed));
}

#[test]
fn overlong_name_is_refused() {
    let mut b = vec![0, 1, 0, 0, 0, 1, 0, 0, 0, 0, 0, 0];
    for _ in 0..5 {
        b.push(63);
        b.extend_from_slice(&[b'a'; 63]);
    }
    b.extend_from_slice(&[0, 0, 1, 0, 1]);
    assert_eq!(parse_message(&b), Err(DecodeError::Malformed));
}

#[test]
fn missing_record_is_refused() {
    let mut b = sample().to_bytes();
    b[7] = 2;
    assert_eq!(parse_message(&b), Err(DecodeError::Malformed));
}

#[test]
fn names_compare_byte_for_byte() {
    let a = Query { name: name(&["Example", "test"]), record_type: 1, dns_class: 1 };
    let b = Query { name: name(&["example", "test"]), record_type: 1, dns_class: 1 };
    assert!(!a.same_as(&b));
    assert!(b.same_as(&b.clone()));
    let c = Query { name: name(&["example", "test"]), record_type: 28, dns_class: 1 };
    assert!(!b.same_as(&c));
}
