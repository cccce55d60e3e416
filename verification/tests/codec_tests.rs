use minikv::codec::{checksum_range, decode, encode, Decoded, Record, RecordKind};
use minikv::index::MemIndex;
use minikv::log::{AppendLog, Replayed};

fn b(s: &str) -> Vec<u8> {
    s.as_bytes().to_vec()
}

#[test]
fn put_record_round_trips() {
    let rec = Record { kind: RecordKind::Put, sequence: 7, key: b("alpha"), value: b("beta") };
    let bytes = encode(&rec);
    match decode(&bytes, 0) {
        Decoded::Frame { rec: out, next } => {
            assert_eq!(out.kind, RecordKind::Put);
            assert_eq!(out.sequence, 7);
            assert_eq!(out.key, b("alpha"));
            assert_eq!(out.value, b("beta"));
            assert_eq!(next, bytes.len());
        }
        _ => panic!("a freshly encoded frame must decode"),
    }
}

#[test]
fn tombstone_record_round_trips() {
    let rec = Record { kind: RecordKind::Delete, sequence: 1, key: b("gone"), value: Vec::new() };
    let bytes = encode(&rec);
    match decode(&bytes, 0) {
        Decoded::Frame { rec: out, next } => {
            assert_eq!(out.kind, RecordKind::Delete);
            assert_eq!(out.sequence, 1);
            assert_eq!(out.key, b("gone"));
            assert_eq!(out.value, Vec::<u8>::new());
            assert_eq!(next, bytes.len());
        }
        _ => panic!("a tombstone frame must decode"),
    }
}

#[test]
fn frame_layout_is_exact() {
    // [4-byte length][1 kind][8 sequence][2 key length][key]
    // [4 value length][value][4 checksum], all little-endian
    let rec = Record { kind: RecordKind::Put, sequence: 2, key: b("a"), value: b("z") };
    let bytes = encode(&rec);
    assert_eq!(bytes.len(), 4 + 1 + 8 + 2 + 1 + 4 + 1 + 4);
    assert_eq!(&bytes[0..4], &[17, 0, 0, 0]); // body length 15 + 1 + 1
    assert_eq!(bytes[4], 0); // kind byte for a put
    assert_eq!(&bytes[5..13], &[2, 0, 0, 0, 0, 0, 0, 0]);
    assert_eq!(&bytes[13..15], &[1, 0]);
    assert_eq!(bytes[15], b'a');
    assert_eq!(&bytes[16..20], &[1, 0, 0, 0]);
    assert_eq!(bytes[20], b'z');
}

#[test]
fn short_input_is_incomplete() {
    let bytes = vec![1u8, 2, 3];
    assert!(matches!(decode(&bytes, 0), Decoded::Incomplete));
    assert!(matches!(decode(&Vec::new(), 0), Decoded::Incomplete));
}

#[test]
fn undersized_body_length_is_corrupt() {
    // 30 zero bytes: enough for a minimal frame, but the declared body
    // length 0 is below the 16-byte minimum
    let bytes = vec![0u8; 30];
    assert!(matches!(decode(&bytes, 0), Decoded::Corrupt));
}

#[test]
fn checksum_weights_bytes_by_position() {
    let bytes = vec![1u8, 2, 3, 4, 5];
    let expected = 1 + 2 * 256 + 3 * 65536 + 4 * 16777216 + 5;
    assert_eq!(checksum_range(&bytes, 0, 5), expected);
    assert_eq!(checksum_range(&bytes, 0, 0), 0);
    assert_eq!(checksum_range(&bytes, 1, 2), 2);
}

#[test]
fn append_log_offsets_and_replay() {
    let mut log = AppendLog::new();
    let r1 = Record { kind: RecordKind::Put, sequence: 1, key: b("a"), value: b("1") };
    let r2 = Record { kind: RecordKind::Delete, sequence: 2, key: b("a"), value: Vec::new() };
    let o1 = log.append_record(&r1);
    let o2 = log.append_record(&r2);
    assert_eq!(o1, 0);
    assert_eq!(o2, encode(&r1).len());
    match log.replay() {
        Replayed::Complete { records, offsets, end } => {
            assert_eq!(records.len(), 2);
            assert_eq!(offsets, vec![o1, o2]);
            assert_eq!(end, log.len());
            assert_eq!(records[0].key, b("a"));
            assert_eq!(records[1].kind, RecordKind::Delete);
        }
        Replayed::Corrupt => panic!("a well-formed log replays"),
    }
}

#[test]
fn read_at_beyond_log_is_not_found() {
    let log = AppendLog::new();
    assert!(log.read_at(1).is_none());
    match log.read_at(0) {
        Some(Decoded::Incomplete) => {}
        _ => panic!("reading an empty log at its end is an incomplete frame"),
    }
}

#[test]
fn index_tracks_latest_entry() {
    let mut idx = MemIndex::new();
    assert_eq!(idx.len(), 0);
    idx.upsert(b("k"), 0, RecordKind::Put);
    idx.upsert(b("l"), 30, RecordKind::Put);
    assert_eq!(idx.len(), 2);
    assert_eq!(idx.lookup(&b("k")), Some((0, RecordKind::Put)));
    idx.upsert(b("k"), 60, RecordKind::Delete);
    assert_eq!(idx.lookup(&b("k")), Some((60, RecordKind::Delete)));
    assert_eq!(idx.len(), 1);
    assert_eq!(idx.lookup(&b("missing")), None);
}
