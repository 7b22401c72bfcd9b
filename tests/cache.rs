use rusty_dns::cache::lru::LruStore;
use rusty_dns::cache::{Cache, CacheEntry, MapStore};
use rusty_dns::dns::{Header, Message, MessageType, Name, Query};

fn q(label: &str) -> Query {
    Query { name: Name { labels: vec![label.as_bytes().to_vec()] }, record_type: 1, dns_class: 1 }
}

fn entry(id: u16) -> CacheEntry {
    let header = Header {
        id,
        message_type: MessageType::Response,
        op_code: 0,
        authoritative: false,
        truncated: false,
        recursion_desired: true,
        recursion_available: true,
        reserved: 0,
        response_code: 0,
        query_count: 0,
        answer_count: 0,
        name_server_count: 0,
        additional_count: 0,
    };
    CacheEntry {
        response: Message { header, queries: vec![], answers: vec![], name_servers: vec![], additionals: vec![] },
        expires_at: 10,
    }
}

#[test]
fn map_store_insert_get_remove() {
    let mut c = MapStore::new();
    assert_eq!(c.insert(q("a"), entry(1)), None);
    assert_eq!(c.insert(q("b"), entry(2)), None);
    assert_eq!(c.insert(q("a"), entry(3)), Some(entry(1)));
    assert_eq!(c.get(&q("a")), Some(&entry(3)));
    assert!(c.contains_key(&q("b")));
    assert_eq!(c.remove(&q("b")), Some(entry(2)));
    assert!(!c.contains_key(&q("b")));
    assert_eq!(c.remove(&q("b")), None);
    assert_eq!(c.get(&q("z")), None);
}

#[test]
fn map_store_never_evicts() {
    let mut c = MapStore::new();
    for i in 0..200u16 {
        c.insert(q(&format!("n{}", i)), entry(i));
    }
    for i in 0..200u16 {
        assert_eq!(c.get(&q(&format!("n{}", i))), Some(&entry(i)));
    }
}

#[test]
fn lru_overflow_evicts_exactly_the_first() {
    let mut c = LruStore::new(3);
    for (i, k) in ["a", "b", "c"].iter().enumerate() {
        c.insert(q(k), entry(i as u16));
    }
    c.insert(q("d"), entry(9));
    assert!(!c.contains_key(&q("a")));
    assert!(c.contains_key(&q("b")));
    assert!(c.contains_key(&q("c")));
    assert!(c.contains_key(&q("d")));
}

#[test]
fn lru_get_refreshes_recency() {
    let mut c = LruStore::new(2);
    c.insert(q("a"), entry(1));
    c.insert(q("b"), entry(2));
    assert_eq!(c.get(&q("a")), Some(&entry(1)));
    c.insert(q("c"), entry(3));
    assert!(c.contains_key(&q("a")));
    assert!(!c.contains_key(&q("b")));
    assert!(c.contains_key(&q("c")));
}

#[test]
fn lru_contains_does_not_refresh() {
    let mut c = LruStore::new(2);
    c.insert(q("a"), entry(1));
    c.insert(q("b"), entry(2));
    assert!(c.contains_key(&q("a")));
    c.insert(q("c"), entry(3));
    assert!(!c.contains_key(&q("a")));
    assert!(c.contains_key(&q("b")));
}

#[test]
fn lru_reinsert_replaces_and_refreshes() {
    let mut c = LruStore::new(2);
    c.insert(q("a"), entry(1));
    c.insert(q("b"), entry(2));
    assert_eq!(c.insert(q("a"), entry(5)), Some(entry(1)));
    c.insert(q("c"), entry(3));
    assert_eq!(c.get(&q("a")), Some(&entry(5)));
    assert_eq!(c.get(&q("b")), None);
}

#[test]
fn lru_remove_frees_room() {
    let mut c = LruStore::new(2);
    c.insert(q("a"), entry(1));
    c.insert(q("b"), entry(2));
    assert_eq!(c.remove(&q("a")), Some(entry(1)));
    assert_eq!(c.remove(&q("a")), None);
    c.insert(q("c"), entry(3));
    assert!(c.contains_key(&q("b")));
    assert!(c.contains_key(&q("c")));
}

#[test]
fn lru_capacity_one() {
    let mut c = LruStore::new(1);
    c.insert(q("a"), entry(1));
    c.insert(q("b"), entry(2));
    assert_eq!(c.get(&q("a")), None);
    assert_eq!(c.get(&q("b")), Some(&entry(2)));
}
