use integritycheck::snapshot::{Snapshot, FileRecord};

fn record(size: u64) -> FileRecord {
    FileRecord { size_bytes: size, modified_timestamp: None, checksum_sha256: None }
}

#[test]
fn new_snapshot_is_empty() {
    let s = Snapshot::new();
    assert_eq!(s.len(), 0);
    assert_eq!(s.timestamp, None);
    assert!(s.get(&b"anything".to_vec()).is_none());
}

#[test]
fn update_inserts_and_replaces() {
    let mut s = Snapshot::new();
    s.update(b"b.txt".to_vec(), record(1));
    s.update(b"a.txt".to_vec(), record(2));
    assert_eq!(s.len(), 2);
    assert_eq!(s.get(&b"a.txt".to_vec()).unwrap().size_bytes, 2);
    // same key: the record is replaced, not duplicated
    s.update(b"a.txt".to_vec(), record(9));
    assert_eq!(s.len(), 2);
    assert_eq!(s.get(&b"a.txt".to_vec()).unwrap().size_bytes, 9);
    assert_eq!(s.get(&b"b.txt".to_vec()).unwrap().size_bytes, 1);
}

#[test]
fn list_is_lexicographic_regardless_of_insertion_order() {
    let mut s = Snapshot::new();
    s.update(b"c".to_vec(), record(1));
    s.update(b"a/b".to_vec(), record(2));
    s.update(b"a".to_vec(), record(3));
    s.update(b"ab".to_vec(), record(4));
    let paths = s.list();
    assert_eq!(
        paths,
        vec![b"a".to_vec(), b"a/b".to_vec(), b"ab".to_vec(), b"c".to_vec()]
    );
}
