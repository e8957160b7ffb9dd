use integritycheck::snapshot::{Snapshot, FileRecord};
use integritycheck::index_diff::{diff, DiffKind};

fn record(size: u64, mtime: Option<i64>, digest: Option<u8>) -> FileRecord {
    FileRecord {
        size_bytes: size,
        modified_timestamp: mtime,
        checksum_sha256: digest.map(|b| vec![b; 32]),
    }
}

fn snapshot_of(entries: &[(&str, FileRecord)]) -> Snapshot {
    let mut s = Snapshot::new();
    for (path, rec) in entries {
        s.update(path.as_bytes().to_vec(), rec.clone());
    }
    s
}

#[test]
fn diff_of_a_snapshot_with_itself_is_empty() {
    let s = snapshot_of(&[
        ("a.txt", record(10, Some(5), Some(1))),
        ("b.txt", record(3, None, None)),
        ("c/d.txt", record(0, Some(9), Some(2))),
    ]);
    assert_eq!(diff(&s, &s).len(), 0);
}

#[test]
fn diff_of_two_empty_snapshots_is_empty() {
    let a = Snapshot::new();
    let b = Snapshot::new();
    assert_eq!(diff(&a, &b).len(), 0);
}

#[test]
fn modified_then_added_ordered_by_path() {
    // baseline: a.txt size=10 digest=D1
    let baseline = snapshot_of(&[("a.txt", record(10, Some(1), Some(1)))]);
    // current: a.txt size=12 digest=D2, b.txt size=5 digest=D3
    let current = snapshot_of(&[
        ("b.txt", record(5, Some(3), Some(3))),
        ("a.txt", record(12, Some(2), Some(2))),
    ]);
    let d = diff(&baseline, &current);
    assert_eq!(d.len(), 2);
    assert_eq!(d[0].path, b"a.txt".to_vec());
    assert!(matches!(d[0].kind, DiffKind::Modified));
    assert_eq!(d[0].baseline.as_ref().unwrap().size_bytes, 10);
    assert_eq!(d[0].current.as_ref().unwrap().size_bytes, 12);
    assert_eq!(d[1].path, b"b.txt".to_vec());
    assert!(matches!(d[1].kind, DiffKind::Added));
    assert!(d[1].baseline.is_none());
    assert_eq!(d[1].current.as_ref().unwrap().size_bytes, 5);
}

#[test]
fn added_and_removed_mirror_each_other() {
    let a = snapshot_of(&[
        ("only-in-a.txt", record(1, None, None)),
        ("shared.txt", record(2, Some(7), Some(4))),
    ]);
    let b = snapshot_of(&[
        ("only-in-b.txt", record(3, None, None)),
        ("shared.txt", record(2, Some(7), Some(5))),
    ]);
    let d_ab = diff(&a, &b);
    let d_ba = diff(&b, &a);
    assert_eq!(d_ab.len(), 3);
    assert_eq!(d_ba.len(), 3);
    for e in &d_ab {
        let mirrored = d_ba.iter().find(|x| x.path == e.path).unwrap();
        match e.kind {
            DiffKind::Added => assert!(matches!(mirrored.kind, DiffKind::Removed)),
            DiffKind::Removed => assert!(matches!(mirrored.kind, DiffKind::Added)),
            DiffKind::Modified => assert!(matches!(mirrored.kind, DiffKind::Modified)),
        }
    }
}

#[test]
fn matching_digests_suppress_metadata_differences() {
    // content is authoritative: same digest, different size and mtime
    let a = snapshot_of(&[("a.txt", record(10, Some(1), Some(9)))]);
    let b = snapshot_of(&[("a.txt", record(11, Some(2), Some(9)))]);
    assert_eq!(diff(&a, &b).len(), 0);
}

#[test]
fn digest_mismatch_reports_modified() {
    let a = snapshot_of(&[("a.txt", record(10, Some(1), Some(1)))]);
    let b = snapshot_of(&[("a.txt", record(10, Some(1), Some(2)))]);
    let d = diff(&a, &b);
    assert_eq!(d.len(), 1);
    assert!(matches!(d[0].kind, DiffKind::Modified));
}

#[test]
fn metadata_fallback_without_digests() {
    let a = snapshot_of(&[
        ("same.txt", record(4, Some(5), None)),
        ("resized.txt", record(10, Some(5), None)),
        ("touched.txt", record(6, Some(5), None)),
    ]);
    let b = snapshot_of(&[
        ("same.txt", record(4, Some(5), None)),
        ("resized.txt", record(11, Some(5), None)),
        ("touched.txt", record(6, Some(8), None)),
    ]);
    let d = diff(&a, &b);
    assert_eq!(d.len(), 2);
    assert_eq!(d[0].path, b"resized.txt".to_vec());
    assert!(matches!(d[0].kind, DiffKind::Modified));
    assert_eq!(d[1].path, b"touched.txt".to_vec());
    assert!(matches!(d[1].kind, DiffKind::Modified));
}

#[test]
fn one_sided_digest_falls_back_to_metadata() {
    // one side lacks a digest: equal metadata counts as unchanged
    let a = snapshot_of(&[("a.txt", record(4, Some(5), Some(1)))]);
    let b = snapshot_of(&[("a.txt", record(4, Some(5), None))]);
    assert_eq!(diff(&a, &b).len(), 0);
}

#[test]
fn removed_entries_carry_the_baseline_record() {
    let a = snapshot_of(&[("gone.txt", record(8, Some(3), None))]);
    let b = Snapshot::new();
    let d = diff(&a, &b);
    assert_eq!(d.len(), 1);
    assert!(matches!(d[0].kind, DiffKind::Removed));
    assert_eq!(d[0].baseline.as_ref().unwrap().size_bytes, 8);
    assert!(d[0].current.is_none());
}
