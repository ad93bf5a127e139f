use arca::error::Error;
use arca::store::{content_hash, MemoryStore, Store};

#[test]
fn put_get_round_trip() {
    let mut store = MemoryStore::new();
    let data = b"hello world";
    let hash = store.put(0, data).unwrap();
    let retrieved = store.get(&hash).unwrap();
    assert_eq!(retrieved, data);
}

#[test]
fn content_addressing_is_deterministic() {
    let mut store = MemoryStore::new();
    let h1 = store.put(0, b"same bytes").unwrap();
    let h2 = store.put(0, b"same bytes").unwrap();
    assert_eq!(h1, h2);
    assert_eq!(store.len(), 1);
}

#[test]
fn different_content_different_hash() {
    let mut store = MemoryStore::new();
    let h1 = store.put(0, b"alpha").unwrap();
    let h2 = store.put(0, b"beta").unwrap();
    assert_ne!(h1, h2);
    assert_eq!(store.len(), 2);
}

#[test]
fn not_found() {
    let store = MemoryStore::new();
    let hash = content_hash(b"missing");
    assert!(!store.contains(&hash));
    assert!(store.get(&hash).is_err());
}

#[test]
fn idempotent_put() {
    let mut store = MemoryStore::new();
    let h1 = store.put(0, b"data").unwrap();
    let h2 = store.put(1, b"data").unwrap();
    assert_eq!(h1, h2);
    // First write wins — kind stays 0
    let (kind, retrieved) = store.get_typed(&h1).unwrap();
    assert_eq!(retrieved, b"data");
    assert_eq!(kind, 0);
    assert_eq!(store.len(), 1);
}

#[test]
fn hash_matches_blake3() {
    let data = b"verify hash";
    let expected = *blake3::hash(data).as_bytes();
    let actual = content_hash(data);
    assert_eq!(expected, actual);
}

#[test]
fn get_typed_returns_kind() {
    let mut store = MemoryStore::new();
    let hash = store.put(7, b"typed data").unwrap();
    let (kind, data) = store.get_typed(&hash).unwrap();
    assert_eq!(kind, 7);
    assert_eq!(data, b"typed data");
}

#[test]
fn scan_filters_by_kind() {
    let mut store = MemoryStore::new();
    store.put(1, b"thought alpha").unwrap();
    store.put(1, b"thought beta").unwrap();
    store.put(2, b"rule gamma").unwrap();
    store.put(0, b"string delta").unwrap();

    let thoughts = store.scan(1);
    assert_eq!(thoughts.len(), 2);

    let rules = store.scan(2);
    assert_eq!(rules.len(), 1);

    let strings = store.scan(0);
    assert_eq!(strings.len(), 1);

    let empty = store.scan(99);
    assert!(empty.is_empty());
}

#[test]
fn content_hash_is_not_its_input() {
    // blake3 of the empty input, a published test vector.
    let h = content_hash(b"");
    let hex = arca::StoreEntryHash(h).to_hex();
    assert_eq!(hex, "af1349b9f5f9a1a6a0404dea36dcc9499bcb25c9adc112b7cc9a93cae41f3262");
    let long = vec![7u8; 100];
    assert_eq!(content_hash(&long).len(), 32);
}

#[test]
fn new_and_default_stores_are_empty() {
    let store = MemoryStore::new();
    assert!(store.is_empty());
    assert_eq!(store.len(), 0);
    let other = MemoryStore::default();
    assert!(other.is_empty());
}

#[test]
fn missing_hash_reports_not_found() {
    let mut store = MemoryStore::new();
    store.put(3, b"present").unwrap();
    let hash = content_hash(b"absent");
    match store.get(&hash) {
        Err(Error::NotFound(h)) => assert_eq!(h, hash),
        other => panic!("expected NotFound, got {:?}", other),
    }
    match store.get_typed(&hash) {
        Err(Error::NotFound(h)) => assert_eq!(h, hash),
        other => panic!("expected NotFound, got {:?}", other),
    }
}

#[test]
fn stored_bytes_hash_to_their_address() {
    let mut store = MemoryStore::new();
    let hash = store.put(4, b"integrity").unwrap();
    let data = store.get(&hash).unwrap();
    assert_eq!(content_hash(data), hash);
    assert!(store.contains(&hash));
}

#[test]
fn scan_returns_each_object_once_with_its_bytes() {
    let mut store = MemoryStore::new();
    let a = store.put(5, b"one").unwrap();
    let b = store.put(5, b"two").unwrap();
    store.put(5, b"one").unwrap();
    store.put(6, b"three").unwrap();
    let mut found = store.scan(5);
    found.sort();
    let mut expected: Vec<([u8; 32], &[u8])> = vec![(a, &b"one"[..]), (b, &b"two"[..])];
    expected.sort();
    assert_eq!(found, expected);
}

#[test]
fn put_keeps_existing_objects() {
    let mut store = MemoryStore::new();
    let first = store.put(1, b"first").unwrap();
    store.put(2, b"second").unwrap();
    store.put(3, b"first").unwrap();
    let (kind, data) = store.get_typed(&first).unwrap();
    assert_eq!(kind, 1);
    assert_eq!(data, b"first");
    assert_eq!(store.len(), 2);
}

#[test]
fn scans_of_all_kinds_cover_the_store() {
    let mut store = MemoryStore::new();
    store.put(0, b"a").unwrap();
    store.put(9, b"b").unwrap();
    store.put(255, b"c").unwrap();
    store.put(9, b"d").unwrap();
    store.put(4, b"a").unwrap();
    let total: usize = (0u8..=255).map(|k| store.scan(k).len()).sum();
    assert_eq!(total, store.len());
    assert_eq!(total, 4);
}
