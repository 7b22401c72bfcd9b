use rusty_dns::cache::lru::LruStore;
use rusty_dns::cache::{Cache, MapStore};
use rusty_dns::dns::parse::DecodeError;
use rusty_dns::dns::{parse_message, Header, Message, MessageType, Name, Query, Record};
use rusty_dns::proxy::{finish_forward, handle_request, read_reply, ForwardError, Step, FORMAT_ERROR, SERVER_FAILURE};

fn question() -> Query {
    Query {
        name: Name { labels: vec![b"example".to_vec(), b"test".to_vec()] },
        record_type: 1,
        dns_class: 1,
    }
}

fn header(id: u16, response: bool, qd: u16, an: u16) -> Header {
    Header {
        id,
        message_type: if response { MessageType::Response } else { MessageType::Query },
        op_code: 0,
        authoritative: false,
        truncated: false,
        recursion_desired: true,
        recursion_available: response,
        reserved: 0,
        response_code: 0,
        query_count: qd,
        answer_count: an,
        name_server_count: 0,
        additional_count: 0,
    }
}

fn request(id: u16) -> Vec<u8> {
    Message { header: header(id, false, 1, 0), queries: vec![question()], answers: vec![], name_servers: vec![], additionals: vec![] }
        .to_bytes()
}

fn upstream_answer(id: u16, ttl: u32) -> Vec<u8> {
    Message {
        header: header(id, true, 1, 1),
        queries: vec![question()],
        answers: vec![Record { name: question().name, record_type: 1, dns_class: 1, ttl, rdata: vec![192, 0, 2, 1] }],
        name_servers: vec![],
        additionals: vec![],
    }
    .to_bytes()
}

/// Runs one request through the proxy; `upstream` is asked only on a miss and
/// counts how often it was.
fn serve<C: Cache>(cache: &mut C, req: &[u8], now: u64, upstream_hits: &mut u32, ttl: u32) -> Option<Vec<u8>> {
    match handle_request(cache, req, now) {
        Step::Reply(b) => Some(b),
        Step::Drop => None,
        Step::Forward { query, header } => {
            *upstream_hits += 1;
            let reply = upstream_answer(0x7777, ttl);
            Some(finish_forward(cache, query, header, read_reply(&reply), now))
        }
    }
}

#[test]
fn miss_asks_to_forward() {
    let mut c = MapStore::new();
    match handle_request(&mut c, &request(5), 0) {
        Step::Forward { query, header } => {
            assert_eq!(query, question());
            assert_eq!(header.id, 5);
        }
        _ => panic!("expected a forward"),
    }
}

#[test]
fn forwarded_answer_is_cached_and_rewritten() {
    let mut c = LruStore::new(8);
    let mut hits = 0;
    let first = serve(&mut c, &request(0x1111), 100, &mut hits, 60).unwrap();
    let second = serve(&mut c, &request(0x2222), 130, &mut hits, 60).unwrap();
    assert_eq!(hits, 1);
    assert_eq!(&first[0..2], &[0x11, 0x11]);
    assert_eq!(&second[0..2], &[0x22, 0x22]);
    assert_eq!(&first[2..], &second[2..]);
    let a = parse_message(&first).unwrap();
    let b = parse_message(&second).unwrap();
    assert_eq!(a.answers, b.answers);
    assert_eq!(a.answers[0].rdata, vec![192, 0, 2, 1]);
}

#[test]
fn expired_entry_is_forwarded_again() {
    let mut c = MapStore::new();
    let mut hits = 0;
    serve(&mut c, &request(1), 100, &mut hits, 10);
    serve(&mut c, &request(2), 109, &mut hits, 10);
    assert_eq!(hits, 1);
    serve(&mut c, &request(3), 110, &mut hits, 10);
    assert_eq!(hits, 2);
}

#[test]
fn one_second_ttl_scenario() {
    let mut c = LruStore::new(1024);
    let mut hits = 0;
    let r1 = serve(&mut c, &request(10), 1000, &mut hits, 1).unwrap();
    let r2 = serve(&mut c, &request(11), 1000, &mut hits, 1).unwrap();
    assert_eq!(hits, 1);
    assert_eq!(parse_message(&r2).unwrap().answers[0].rdata, vec![192, 0, 2, 1]);
    assert_eq!(parse_message(&r1).unwrap().header.id, 10);
    assert_eq!(parse_message(&r2).unwrap().header.id, 11);
    serve(&mut c, &request(12), 1002, &mut hits, 1);
    assert_eq!(hits, 2);
}

#[test]
fn answers_without_records_are_not_served_from_cache() {
    let mut c = MapStore::new();
    let mut hits = 0;
    serve(&mut c, &request(1), 5, &mut hits, 0);
    serve(&mut c, &request(2), 5, &mut hits, 0);
    assert_eq!(hits, 2);
}

#[test]
fn expiry_saturates() {
    let mut c = MapStore::new();
    let mut hits = 0;
    serve(&mut c, &request(1), u64::MAX - 1, &mut hits, 100);
    serve(&mut c, &request(2), u64::MAX - 1, &mut hits, 100);
    assert_eq!(hits, 1);
}

#[test]
fn concurrent_ids_stay_apart() {
    let mut c = MapStore::new();
    let a = handle_request(&mut c, &request(0xaaaa), 0);
    let b = handle_request(&mut c, &request(0xbbbb), 0);
    let (qa, ha, qb, hb) = match (a, b) {
        (Step::Forward { query: qa, header: ha }, Step::Forward { query: qb, header: hb }) => (qa, ha, qb, hb),
        _ => panic!("expected two forwards"),
    };
    let ra = finish_forward(&mut c, qa, ha, read_reply(&upstream_answer(1, 60)), 0);
    let rb = finish_forward(&mut c, qb, hb, read_reply(&upstream_answer(2, 60)), 0);
    assert_eq!(&ra[0..2], &[0xaa, 0xaa]);
    assert_eq!(&rb[0..2], &[0xbb, 0xbb]);
}

#[test]
fn unreadable_request_gets_format_error() {
    let mut c = MapStore::new();
    match handle_request(&mut c, &[0x12, 0x34, 0x01], 0) {
        Step::Reply(b) => {
            assert_eq!(b.len(), 12);
            let h = parse_message(&b).unwrap().header;
            assert_eq!(h.id, 0x1234);
            assert_eq!(h.message_type, MessageType::Response);
            assert!(h.recursion_desired);
            assert_eq!(h.response_code, FORMAT_ERROR);
        }
        _ => panic!("expected a reply"),
    }
}

#[test]
fn request_without_id_is_dropped() {
    let mut c = MapStore::new();
    assert!(matches!(handle_request(&mut c, &[0x12], 0), Step::Drop));
    assert!(matches!(handle_request(&mut c, &[], 0), Step::Drop));
}

#[test]
fn request_without_question_gets_format_error() {
    let mut c = MapStore::new();
    let req = Message { header: header(9, false, 0, 0), queries: vec![], answers: vec![], name_servers: vec![], additionals: vec![] }
        .to_bytes();
    match handle_request(&mut c, &req, 0) {
        Step::Reply(b) => {
            let h = parse_message(&b).unwrap().header;
            assert_eq!(h.id, 9);
            assert_eq!(h.response_code, FORMAT_ERROR);
        }
        _ => panic!("expected a reply"),
    }
}

#[test]
fn failed_forward_gets_server_failure_and_caches_nothing() {
    let mut c = MapStore::new();
    let step = handle_request(&mut c, &request(0x4242), 0);
    let (query, header) = match step {
        Step::Forward { query, header } => (query, header),
        _ => panic!("expected a forward"),
    };
    let reply = finish_forward(&mut c, query, header, Err(ForwardError::Timeout), 0);
    let m = parse_message(&reply).unwrap();
    assert_eq!(m.header.id, 0x4242);
    assert_eq!(m.header.response_code, SERVER_FAILURE);
    assert_eq!(m.queries, vec![question()]);
    assert!(!c.contains_key(&question()));
}

#[test]
fn bad_upstream_reply_is_reported() {
    assert_eq!(read_reply(&[1, 2, 3]), Err(ForwardError::BadResponse(DecodeError::HeaderTooShort)));
    let mut b = upstream_answer(1, 5);
    b.truncate(b.len() - 1);
    assert_eq!(read_reply(&b), Err(ForwardError::BadResponse(DecodeError::Malformed)));
}
