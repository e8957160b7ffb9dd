use integritycheck::index_scan::{scan_metadata, scan_checksums, WalkEntry, EntryKind, ScanOptions,
    FileContent};
use integritycheck::errors::Error;
use crypto::digest::Digest;

fn file_entry(path: &str, size: u64, mtime: Option<i64>) -> WalkEntry {
    WalkEntry {
        path: path.as_bytes().to_vec(),
        kind: EntryKind::File,
        size_bytes: size,
        modified_timestamp: mtime,
    }
}

fn dir_entry(path: &str) -> WalkEntry {
    WalkEntry {
        path: path.as_bytes().to_vec(),
        kind: EntryKind::Other,
        size_bytes: 0,
        modified_timestamp: None,
    }
}

fn reference_sha256(data: &[u8]) -> Vec<u8> {
    let mut hasher = crypto::sha2::Sha256::new();
    hasher.input(data);
    let mut out = [0u8; 32];
    hasher.result(&mut out);
    out.to_vec()
}

#[test]
fn empty_directory_scan_yields_empty_snapshot() {
    let entries: Vec<WalkEntry> = Vec::new();
    let snap = scan_metadata(&entries, &ScanOptions::all()).unwrap();
    assert_eq!(snap.len(), 0);
    assert_eq!(snap.timestamp, None);
}

#[test]
fn scan_records_regular_files_only() {
    let entries = vec![
        dir_entry("sub"),
        file_entry("sub/a.txt", 10, Some(1000)),
        file_entry("b.txt", 5, None),
    ];
    let snap = scan_metadata(&entries, &ScanOptions::all()).unwrap();
    assert_eq!(snap.len(), 2);
    let rec = snap.get(&b"sub/a.txt".to_vec()).unwrap();
    assert_eq!(rec.size_bytes, 10);
    assert_eq!(rec.modified_timestamp, Some(1000));
    assert_eq!(rec.checksum_sha256, None);
    assert!(snap.get(&b"sub".to_vec()).is_none());
}

#[test]
fn excluded_subtree_never_appears() {
    let entries = vec![
        file_entry("a.txt", 1, None),
        file_entry(".ic/history/0001", 99, None),
        file_entry(".ic/manifest", 7, None),
        file_entry(".ically/not-excluded.txt", 3, None),
    ];
    let opts = ScanOptions { exclude_paths: vec![b".ic".to_vec()], exclusive_paths: None };
    let snap = scan_metadata(&entries, &opts).unwrap();
    assert_eq!(snap.len(), 2);
    assert!(snap.get(&b"a.txt".to_vec()).is_some());
    // the exclusion cuts a subtree, not a name prefix
    assert!(snap.get(&b".ically/not-excluded.txt".to_vec()).is_some());
    for p in snap.list() {
        assert!(!(p.len() >= 3 && &p[..3] == b".ic" && (p.len() == 3 || p[3] == b'/')));
    }
}

#[test]
fn exclusive_paths_restrict_the_walk() {
    let entries = vec![
        file_entry("keep/a.txt", 1, None),
        file_entry("skip/b.txt", 2, None),
    ];
    let opts = ScanOptions {
        exclude_paths: Vec::new(),
        exclusive_paths: Some(vec![b"keep".to_vec()]),
    };
    let snap = scan_metadata(&entries, &opts).unwrap();
    assert_eq!(snap.len(), 1);
    assert!(snap.get(&b"keep/a.txt".to_vec()).is_some());
}

#[test]
fn unreadable_entry_fails_the_whole_scan() {
    let entries = vec![
        file_entry("a.txt", 1, None),
        WalkEntry {
            path: b"broken".to_vec(),
            kind: EntryKind::Unreadable,
            size_bytes: 0,
            modified_timestamp: None,
        },
    ];
    match scan_metadata(&entries, &ScanOptions::all()) {
        Err(Error::ScanError { path }) => assert_eq!(path, b"broken".to_vec()),
        other => panic!("expected ScanError, got {:?}", other),
    }
}

#[test]
fn unreadable_entry_under_excluded_subtree_is_ignored() {
    let entries = vec![
        file_entry("a.txt", 1, None),
        WalkEntry {
            path: b".ic/broken".to_vec(),
            kind: EntryKind::Unreadable,
            size_bytes: 0,
            modified_timestamp: None,
        },
    ];
    let opts = ScanOptions { exclude_paths: vec![b".ic".to_vec()], exclusive_paths: None };
    let snap = scan_metadata(&entries, &opts).unwrap();
    assert_eq!(snap.len(), 1);
}

#[test]
fn checksum_pass_matches_direct_hash_and_is_idempotent() {
    let content = b"known file content".to_vec();
    let entries = vec![file_entry("a.txt", content.len() as u64, Some(42))];
    let snap = scan_metadata(&entries, &ScanOptions::all()).unwrap();

    let contents = vec![FileContent { path: b"a.txt".to_vec(), data: Some(content.clone()) }];
    let hashed = scan_checksums(&snap, &contents, &ScanOptions::all()).unwrap();
    let rec = hashed.get(&b"a.txt".to_vec()).unwrap();
    let digest = rec.checksum_sha256.clone().unwrap();
    assert_eq!(digest.len(), 32);
    assert_eq!(digest, reference_sha256(&content));
    // metadata is untouched by the checksum pass
    assert_eq!(rec.size_bytes, content.len() as u64);
    assert_eq!(rec.modified_timestamp, Some(42));

    // re-running both passes with no change yields the identical digest
    let snap2 = scan_metadata(&entries, &ScanOptions::all()).unwrap();
    let hashed2 = scan_checksums(&snap2, &contents, &ScanOptions::all()).unwrap();
    let rec2 = hashed2.get(&b"a.txt".to_vec()).unwrap();
    assert_eq!(rec2.checksum_sha256.clone().unwrap(), digest);
}

#[test]
fn checksum_pass_fails_on_unreadable_content() {
    let entries = vec![file_entry("a.txt", 3, None)];
    let snap = scan_metadata(&entries, &ScanOptions::all()).unwrap();
    let contents = vec![FileContent { path: b"a.txt".to_vec(), data: None }];
    match scan_checksums(&snap, &contents, &ScanOptions::all()) {
        Err(Error::IoError { path }) => assert_eq!(path, b"a.txt".to_vec()),
        other => panic!("expected IoError, got {:?}", other),
    }
}

#[test]
fn checksum_pass_fails_on_missing_content() {
    let entries = vec![file_entry("a.txt", 3, None)];
    let snap = scan_metadata(&entries, &ScanOptions::all()).unwrap();
    let contents: Vec<FileContent> = Vec::new();
    assert!(matches!(
        scan_checksums(&snap, &contents, &ScanOptions::all()),
        Err(Error::IoError { .. })
    ));
}
