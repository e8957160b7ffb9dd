use integritycheck::snapshot::{Snapshot, FileRecord};
use integritycheck::history::{HistoryStore, HistoryRecord};
use integritycheck::codec::{encode, decode};
use integritycheck::errors::Error;

fn sample_snapshot(tag: u8) -> Snapshot {
    let mut s = Snapshot::new();
    s.update(
        b"a.txt".to_vec(),
        FileRecord {
            size_bytes: 10 + tag as u64,
            modified_timestamp: Some(1000 + tag as i64),
            checksum_sha256: Some(vec![tag; 32]),
        },
    );
    s.update(
        b"sub/b.bin".to_vec(),
        FileRecord { size_bytes: 0, modified_timestamp: None, checksum_sha256: None },
    );
    s
}

#[test]
fn latest_follows_three_persists() {
    let mut h = HistoryStore::new();
    assert_eq!(h.latest(), None);
    let id1 = h.persist(sample_snapshot(1), 100);
    assert_eq!(h.latest(), Some(id1));
    let id2 = h.persist(sample_snapshot(2), 200);
    assert_eq!(h.latest(), Some(id2));
    let id3 = h.persist(sample_snapshot(3), 300);
    assert_eq!(h.latest(), Some(id3));
    assert!(id1 < id2 && id2 < id3);

    // every earlier snapshot still loads, with its entry set intact
    for (id, tag, now) in [(id1, 1u8, 100i64), (id2, 2, 200), (id3, 3, 300)] {
        let loaded = h.load(id).unwrap();
        let expected = sample_snapshot(tag);
        assert_eq!(loaded.len(), expected.len());
        for p in expected.list() {
            assert_eq!(loaded.get(&p), expected.get(&p));
        }
        assert_eq!(loaded.timestamp, Some(now));
    }
}

#[test]
fn persist_load_round_trip_preserves_every_field() {
    let mut h = HistoryStore::new();
    let snap = sample_snapshot(7);
    let id = h.persist(snap.clone(), 555);
    let loaded = h.load(id).unwrap();
    assert_eq!(loaded.len(), 2);
    let rec = loaded.get(&b"a.txt".to_vec()).unwrap();
    assert_eq!(rec.size_bytes, 17);
    assert_eq!(rec.modified_timestamp, Some(1007));
    assert_eq!(rec.checksum_sha256, Some(vec![7u8; 32]));
    let rec2 = loaded.get(&b"sub/b.bin".to_vec()).unwrap();
    assert_eq!(rec2.size_bytes, 0);
    assert_eq!(rec2.modified_timestamp, None);
    assert_eq!(rec2.checksum_sha256, None);
    // the unset timestamp was assigned at persist time
    assert_eq!(loaded.timestamp, Some(555));
}

#[test]
fn persist_keeps_a_set_timestamp() {
    let mut h = HistoryStore::new();
    let mut snap = Snapshot::new();
    snap.timestamp = Some(42);
    let id = h.persist(snap, 999);
    assert_eq!(h.load(id).unwrap().timestamp, Some(42));
}

#[test]
fn loading_a_missing_identifier_is_not_found() {
    let mut h = HistoryStore::new();
    match h.load(12345) {
        Err(Error::NotFoundError { id }) => assert_eq!(id, 12345),
        other => panic!("expected NotFoundError, got {:?}", other),
    }
    let id = h.persist(sample_snapshot(1), 100);
    match h.load(id + 1) {
        Err(Error::NotFoundError { id: missing }) => assert_eq!(missing, id + 1),
        other => panic!("expected NotFoundError, got {:?}", other),
    }
}

#[test]
fn corrupt_payload_is_reported_as_corruption() {
    let records = vec![HistoryRecord { id: 1, timestamp: 100, payload: vec![9, 9, 9] }];
    let h = HistoryStore::from_records(records).unwrap();
    match h.load(1) {
        Err(Error::CorruptionError { id }) => assert_eq!(id, 1),
        other => panic!("expected CorruptionError, got {:?}", other),
    }
}

#[test]
fn from_records_refuses_unordered_identifiers() {
    let records = vec![
        HistoryRecord { id: 5, timestamp: 1, payload: Vec::new() },
        HistoryRecord { id: 5, timestamp: 2, payload: Vec::new() },
    ];
    assert!(HistoryStore::from_records(records).is_none());
}

#[test]
fn codec_round_trip_direct() {
    let snap = sample_snapshot(3);
    let bytes = encode(&snap);
    let back = decode(&bytes).unwrap();
    assert_eq!(back, snap);
}

#[test]
fn codec_rejects_truncated_and_trailing_bytes() {
    let snap = sample_snapshot(3);
    let bytes = encode(&snap);
    let truncated = bytes[..bytes.len() - 1].to_vec();
    assert!(decode(&truncated).is_none());
    let mut extended = bytes.clone();
    extended.push(0);
    assert!(decode(&extended).is_none());
    assert!(decode(&vec![2u8]).is_none());
}

#[test]
fn codec_rejects_unordered_entries() {
    // two entries out of order: count=2, then b.txt before a.txt
    let mut a = Snapshot::new();
    a.update(
        b"a".to_vec(),
        FileRecord { size_bytes: 1, modified_timestamp: None, checksum_sha256: None },
    );
    let mut b = Snapshot::new();
    b.update(
        b"b".to_vec(),
        FileRecord { size_bytes: 1, modified_timestamp: None, checksum_sha256: None },
    );
    let ea = encode(&a);
    let eb = encode(&b);
    // splice: header of a two-entry snapshot, entries b then a
    let mut two = Snapshot::new();
    two.update(
        b"a".to_vec(),
        FileRecord { size_bytes: 1, modified_timestamp: None, checksum_sha256: None },
    );
    two.update(
        b"b".to_vec(),
        FileRecord { size_bytes: 1, modified_timestamp: None, checksum_sha256: None },
    );
    let etwo = encode(&two);
    let header_len = 1 + 8;  // no timestamp tag + count
    let entry_a = ea[header_len..].to_vec();
    let entry_b = eb[header_len..].to_vec();
    let mut spliced = etwo[..header_len].to_vec();
    spliced.extend_from_slice(&entry_b);
    spliced.extend_from_slice(&entry_a);
    assert!(decode(&spliced).is_none());
    // the well-ordered layout parses
    assert!(decode(&etwo).is_some());
}
