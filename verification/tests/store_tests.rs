use minikv::codec::{Record, RecordKind};
use minikv::store::{MiniKVStore, StoreError};

fn b(s: &str) -> Vec<u8> {
    s.as_bytes().to_vec()
}

fn frame(kind: RecordKind, sequence: u64, key: &str, value: &str) -> Vec<u8> {
    let rec = Record { kind, sequence, key: b(key), value: b(value) };
    minikv::codec::encode(&rec)
}

#[test]
fn scenario_open_set_get_delete_count() {
    let mut s = MiniKVStore::open(Vec::new()).expect("empty log opens");
    assert_eq!(s.set(b("a"), b("1")), None);
    assert_eq!(s.set(b("a"), b("2")), Some(b("1")));
    assert_eq!(s.get(&b("a")), Some(b("2")));
    assert_eq!(s.delete(&b("a")), Some(b("2")));
    assert_eq!(s.get(&b("a")), None);
    assert_eq!(s.count(), 0);
}

#[test]
fn last_write_wins() {
    let mut s = MiniKVStore::new();
    s.set(b("k"), b("v1"));
    s.set(b("k"), b("v2"));
    assert_eq!(s.get(&b("k")), Some(b("v2")));
    assert_eq!(s.count(), 1);
}

#[test]
fn delete_then_get_absent() {
    let mut s = MiniKVStore::new();
    s.set(b("k"), b("v"));
    s.delete(&b("k"));
    assert_eq!(s.get(&b("k")), None);
    // deleting a key that was never present also leaves it absent
    let mut t = MiniKVStore::new();
    assert_eq!(t.delete(&b("ghost-key")), None);
    assert_eq!(t.get(&b("ghost-key")), None);
    assert_eq!(t.count(), 0);
}

#[test]
fn empty_store_basics() {
    let s = MiniKVStore::new();
    assert_eq!(s.get(&b("missing")), None);
    assert_eq!(s.count(), 0);
    assert_eq!(s.close(), Vec::<u8>::new());
}

#[test]
fn empty_value_round_trips() {
    let mut s = MiniKVStore::new();
    assert_eq!(s.set(b("k"), Vec::new()), None);
    assert_eq!(s.get(&b("k")), Some(Vec::new()));
    assert_eq!(s.count(), 1);
}

#[test]
fn largest_key_accepted() {
    let key = vec![7u8; 65535];
    let mut s = MiniKVStore::new();
    assert_eq!(s.set(key.clone(), b("big")), None);
    assert_eq!(s.get(&key), Some(b("big")));
}

#[test]
fn recovery_restores_state() {
    let mut s = MiniKVStore::new();
    s.set(b("a"), b("1"));
    s.set(b("b"), b("2"));
    s.set(b("a"), b("3"));
    s.delete(&b("b"));
    let count_before = s.count();
    let bytes = s.close();
    let t = MiniKVStore::open(bytes).expect("well-formed log reopens");
    assert_eq!(t.get(&b("a")), Some(b("3")));
    assert_eq!(t.get(&b("b")), None);
    assert_eq!(t.count(), count_before);
}

#[test]
fn reopening_twice_is_stable() {
    let mut s = MiniKVStore::new();
    s.set(b("x"), b("y"));
    let bytes = s.close();
    let t = MiniKVStore::open(bytes).unwrap();
    let bytes2 = t.close();
    let u = MiniKVStore::open(bytes2).unwrap();
    assert_eq!(u.get(&b("x")), Some(b("y")));
    assert_eq!(u.count(), 1);
}

#[test]
fn truncated_tail_is_ignored() {
    let mut s = MiniKVStore::new();
    s.set(b("a"), b("1"));
    s.set(b("b"), b("2"));
    let mut bytes = s.close();
    // simulate a crash mid-append: only half of a third frame made it out
    let partial = frame(RecordKind::Put, 3, "c", "3");
    bytes.extend_from_slice(&partial[..partial.len() / 2]);
    let t = MiniKVStore::open(bytes).expect("torn tail is not corruption");
    assert_eq!(t.get(&b("a")), Some(b("1")));
    assert_eq!(t.get(&b("b")), Some(b("2")));
    assert_eq!(t.get(&b("c")), None);
    assert_eq!(t.count(), 2);
}

#[test]
fn appending_after_crash_recovery() {
    let mut s = MiniKVStore::new();
    s.set(b("a"), b("1"));
    let mut bytes = s.close();
    let partial = frame(RecordKind::Put, 2, "b", "2");
    bytes.extend_from_slice(&partial[..10]);
    let mut t = MiniKVStore::open(bytes).unwrap();
    assert_eq!(t.set(b("c"), b("3")), None);
    let u = MiniKVStore::open(t.close()).unwrap();
    assert_eq!(u.get(&b("a")), Some(b("1")));
    assert_eq!(u.get(&b("b")), None);
    assert_eq!(u.get(&b("c")), Some(b("3")));
}

#[test]
fn flipped_payload_byte_is_corruption() {
    let mut s = MiniKVStore::new();
    s.set(b("a"), b("1"));
    s.set(b("b"), b("2"));
    let mut bytes = s.close();
    // offset 15 is the first key byte of the first frame:
    // 4 (length) + 1 (kind) + 8 (sequence) + 2 (key length)
    bytes[15] ^= 0xFF;
    match MiniKVStore::open(bytes) {
        Err(e) => assert_eq!(e, StoreError::Corruption),
        Ok(_) => panic!("corrupted log must not open"),
    }
}

#[test]
fn flipped_value_byte_is_corruption() {
    let mut s = MiniKVStore::new();
    s.set(b("key"), b("value"));
    s.set(b("other"), b("data"));
    let mut bytes = s.close();
    // flip one bit of the first frame's value region:
    // 4 + 1 + 8 + 2 + 3 (key "key") + 4 (value length) = 22
    bytes[22] ^= 0x01;
    assert!(matches!(MiniKVStore::open(bytes), Err(StoreError::Corruption)));
}

#[test]
fn non_consecutive_sequences_are_corruption() {
    let mut bytes = frame(RecordKind::Put, 1, "a", "1");
    bytes.extend_from_slice(&frame(RecordKind::Put, 1, "b", "2"));
    assert!(matches!(MiniKVStore::open(bytes), Err(StoreError::Corruption)));
}

#[test]
fn sequence_not_starting_at_one_is_corruption() {
    let bytes = frame(RecordKind::Put, 2, "a", "1");
    assert!(matches!(MiniKVStore::open(bytes), Err(StoreError::Corruption)));
}

#[test]
fn snapshot_equals_close_and_reopens() {
    let mut s = MiniKVStore::new();
    s.set(b("a"), b("1"));
    s.delete(&b("a"));
    s.set(b("b"), b("2"));
    let snap = s.snapshot();
    assert_eq!(snap, s.close());
    let t = MiniKVStore::open(snap).unwrap();
    assert_eq!(t.get(&b("a")), None);
    assert_eq!(t.get(&b("b")), Some(b("2")));
    assert_eq!(t.count(), 1);
}

#[test]
fn many_keys_counted() {
    let mut s = MiniKVStore::new();
    for i in 0..50u32 {
        s.set(format!("key-{i}").into_bytes(), format!("val-{i}").into_bytes());
    }
    for i in 0..10u32 {
        s.delete(&format!("key-{i}").into_bytes());
    }
    assert_eq!(s.count(), 40);
    let t = MiniKVStore::open(s.close()).unwrap();
    assert_eq!(t.count(), 40);
    assert_eq!(t.get(&b("key-5")), None);
    assert_eq!(t.get(&b("key-49")), Some(b("val-49")));
}
