//! The snapshot data model: one `FileRecord` per regular file, keyed by its
//! relative path. Entries are kept in strict lexicographic path order, which
//! makes the keys unique and the diff and codec deterministic.

use vstd::prelude::*;
use crate::paths::{lex_lt, lemma_lex_total, lemma_lex_trans, lemma_lex_irrefl, path_cmp, PathOrder,
    clone_bytes};

verus! {

/// One file's observed state.
#[derive(Debug, Clone, PartialEq, Eq)]
pub struct FileRecord {
    /// Exact byte length at scan time.
    pub size_bytes: u64,
    /// Seconds since the epoch; `None` if the filesystem cannot report it.
    pub modified_timestamp: Option<i64>,
    /// 32-byte content digest, present only after a checksum pass.
    pub checksum_sha256: Option<Vec<u8>>,
}

/// Mathematical model of a `FileRecord`.
pub ghost struct RecordV {
    pub size_bytes: u64,
    pub modified_timestamp: Option<i64>,
    pub checksum_sha256: Option<Seq<u8>>,
}

impl View for FileRecord {
    type V = RecordV;

    open spec fn view(&self) -> RecordV {
        RecordV {
            size_bytes: self.size_bytes,
            modified_timestamp: self.modified_timestamp,
            checksum_sha256: match self.checksum_sha256 {
                Some(v) => Some(v@),
                None => None,
            },
        }
    }
}

/// A digest, when present, is exactly 32 bytes.
pub open spec fn record_wf(r: RecordV) -> bool {
    match r.checksum_sha256 {
        Some(d) => d.len() == 32,
        None => true,
    }
}

impl FileRecord {
    /// Copies a record, field by field.
    pub fn duplicate(&self) -> (r: FileRecord)
        ensures
            r@ == self@,
    {
        FileRecord {
            size_bytes: self.size_bytes,
            modified_timestamp: self.modified_timestamp,
            checksum_sha256: match &self.checksum_sha256 {
                Some(d) => Some(clone_bytes(d)),
                None => None,
            },
        }
    }
}

/// One snapshot entry: a relative path and the record observed there.
#[derive(Debug, Clone, PartialEq, Eq)]
pub struct SnapEntry {
    pub path: Vec<u8>,
    pub record: FileRecord,
}

/// Mathematical model of a `SnapEntry`.
pub ghost struct EntryV {
    pub path: Seq<u8>,
    pub record: RecordV,
}

impl View for SnapEntry {
    type V = EntryV;

    open spec fn view(&self) -> EntryV {
        EntryV { path: self.path@, record: self.record@ }
    }
}

/// Entries stand in strictly increasing path order, so keys are unique.
pub open spec fn entries_sorted(s: Seq<EntryV>) -> bool {
    forall|i: int, j: int|
        0 <= i < j < s.len() ==> lex_lt(#[trigger] s[i].path, #[trigger] s[j].path)
}

/// Sorted entries with well-formed records.
pub open spec fn entries_wf(s: Seq<EntryV>) -> bool {
    &&& entries_sorted(s)
    &&& forall|i: int| 0 <= i < s.len() ==> record_wf(#[trigger] s[i].record)
}

/// Whether some entry records path `p`.
pub open spec fn has_path(s: Seq<EntryV>, p: Seq<u8>) -> bool {
    exists|i: int| 0 <= i < s.len() && (#[trigger] s[i].path) == p
}

/// The index of the entry recording `p` (unique when sorted).
pub open spec fn index_of(s: Seq<EntryV>, p: Seq<u8>) -> int {
    choose|i: int| 0 <= i < s.len() && (#[trigger] s[i].path) == p
}

/// The record stored under path `p`.
pub open spec fn record_of(s: Seq<EntryV>, p: Seq<u8>) -> RecordV {
    s[index_of(s, p)].record
}

/// In a sorted entry sequence, an entry's record is the record of its path.
pub proof fn lemma_sorted_record_at(s: Seq<EntryV>, i: int)
    requires
        entries_sorted(s),
        0 <= i < s.len(),
    ensures
        has_path(s, s[i].path),
        index_of(s, s[i].path) == i,
        record_of(s, s[i].path) == s[i].record,
{
    assert(0 <= i < s.len() && s[i].path == s[i].path);
    let j = index_of(s, s[i].path);
    if j < i {
        assert(lex_lt(s[j].path, s[i].path));
        lemma_lex_irrefl(s[i].path);
    } else if j > i {
        assert(lex_lt(s[i].path, s[j].path));
        lemma_lex_irrefl(s[i].path);
    }
}

/// Point-in-time collection of file records, immutable once finalized.
#[derive(Debug, Clone, PartialEq, Eq)]
pub struct Snapshot {
    pub entries: Vec<SnapEntry>,
    /// Assigned when the snapshot is finalized for persistence.
    pub timestamp: Option<i64>,
}

/// Mathematical model of a `Snapshot`.
pub ghost struct SnapshotV {
    pub entries: Seq<EntryV>,
    pub timestamp: Option<i64>,
}

impl View for Snapshot {
    type V = SnapshotV;

    open spec fn view(&self) -> SnapshotV {
        SnapshotV {
            entries: self.entries@.map_values(|e: SnapEntry| e@),
            timestamp: self.timestamp,
        }
    }
}

impl Snapshot {
    /// Entry order is strict and every record is well formed.
    pub open spec fn wf(self) -> bool {
        entries_wf(self@.entries)
    }

    /// Creates an empty snapshot with no timestamp.
    pub fn new() -> (s: Snapshot)
        ensures
            s.wf(),
            s@.entries.len() == 0,
            s@.timestamp is None,
    {
        Snapshot { entries: Vec::new(), timestamp: None }
    }

    /// Number of recorded files.
    pub fn len(&self) -> (n: usize)
        ensures
            n == self@.entries.len(),
    {
        self.entries.len()
    }

    /// Looks up the record stored under `path`.
    pub fn get(&self, path: &Vec<u8>) -> (r: Option<&FileRecord>)
        requires
            self.wf(),
        ensures
            match r {
                Some(rec) => has_path(self@.entries, path@) && rec@ == record_of(
                    self@.entries,
                    path@,
                ),
                None => !has_path(self@.entries, path@),
            },
    {
        let n = self.entries.len();
        let mut i: usize = 0;
        while i < n
            invariant
                0 <= i <= n,
                n == self.entries.len(),
                self.wf(),
                forall|j: int| 0 <= j < i ==> (#[trigger] self@.entries[j].path) != path@,
            decreases n - i,
        {
            if matches!(path_cmp(&self.entries[i].path, path), PathOrder::Equal) {
                proof {
                    lemma_sorted_record_at(self@.entries, i as int);
                }
                return Some(&self.entries[i].record);
            }
            i = i + 1;
        }
        proof {
            if has_path(self@.entries, path@) {
                let k = index_of(self@.entries, path@);
            }
        }
        None
    }

    /// Inserts or replaces the record under `path`, keeping the order.
    #[verifier::rlimit(60)]
    pub fn update(&mut self, path: Vec<u8>, record: FileRecord)
        requires
            old(self).wf(),
            record_wf(record@),
        ensures
            final(self).wf(),
            final(self)@.timestamp == old(self)@.timestamp,
            has_path(final(self)@.entries, path@),
            record_of(final(self)@.entries, path@) == record@,
            forall|p: Seq<u8>|
                p != path@ ==> #[trigger] has_path(final(self)@.entries, p) == has_path(
                    old(self)@.entries,
                    p,
                ),
            forall|p: Seq<u8>|
                p != path@ && has_path(old(self)@.entries, p) ==> #[trigger] record_of(
                    final(self)@.entries,
                    p,
                ) == record_of(old(self)@.entries, p),
            final(self)@.entries.len() == if has_path(old(self)@.entries, path@) {
                old(self)@.entries.len()
            } else {
                old(self)@.entries.len() + 1
            },
    {
        let ghost p = path@;
        let ghost s0 = self@.entries;
        let ghost v0 = self.entries@;
        let n = self.entries.len();
        let mut i: usize = 0;
        while i < n
            invariant
                0 <= i <= n,
                p == path@,
                self.entries@ == v0,
                self.timestamp == old(self).timestamp,
                n == v0.len(),
                self@.entries == s0,
                entries_wf(s0),
                forall|j: int| 0 <= j < i ==> lex_lt(#[trigger] s0[j].path, p),
            ensures
                0 <= i <= n,
                p == path@,
                self.entries@ == v0,
                self.timestamp == old(self).timestamp,
                self@.entries == s0,
                forall|j: int| 0 <= j < i ==> lex_lt(#[trigger] s0[j].path, p),
                i < n ==> !lex_lt(s0[i as int].path, p),
            decreases n - i,
        {
            proof {
                assert(s0[i as int] == v0[i as int]@);
            }
            let c = path_cmp(&self.entries[i].path, &path);
            if matches!(c, PathOrder::Less) {
                i = i + 1;
            } else {
                break;
            }
        }
        let entry = SnapEntry { path, record };
        let ghost ev = entry@;
        if i < n && matches!(path_cmp(&self.entries[i].path, &entry.path), PathOrder::Equal) {
            // Replace in place: same key, new record.
            let ghost ex = entry;
            let _replaced = self.entries.remove(i);
            let ghost va = self.entries@;
            self.entries.insert(i, entry);
            proof {
                assert(s0[i as int] == v0[i as int]@);
                v0.remove_ensures(i as int);
                va.insert_ensures(i as int, ex);
                assert(va == v0.remove(i as int));
                assert(self.entries@ == va.insert(i as int, ex));
                let s1 = self@.entries;
                assert(s1.len() == s0.len());
                assert(s1[i as int] == ev);
                assert forall|j: int| 0 <= j < s0.len() && j != i implies #[trigger] s1[j]
                    == s0[j] by {
                    if j < i {
                        assert(self.entries@[j] == va[j]);
                        assert(va[j] == v0[j]);
                    } else {
                        assert(self.entries@[j] == va[j - 1]);
                        assert(va[j - 1] == v0[j]);
                    }
                }
                lemma_update_replace(s0, s1, i as int);
            }
        } else {
            proof {
                if i < n {
                    assert(!lex_lt(s0[i as int].path, p));
                    assert(s0[i as int].path != p);
                    lemma_lex_total(s0[i as int].path, p);
                    assert(lex_lt(p, s0[i as int].path));
                }
                assert forall|j: int| i <= j < s0.len() implies lex_lt(
                    p,
                    #[trigger] s0[j].path,
                ) by {
                    if j > i {
                        lemma_lex_trans(p, s0[i as int].path, s0[j].path);
                    }
                }
            }
            let ghost ex = entry;
            self.entries.insert(i, entry);
            proof {
                v0.insert_ensures(i as int, ex);
                assert(self.entries@ == v0.insert(i as int, ex));
                let s1 = self@.entries;
                assert(s1.len() == s0.len() + 1);
                assert(s1[i as int] == ev);
                assert forall|j: int| 0 <= j < i implies #[trigger] s1[j] == s0[j] by {
                    assert(self.entries@[j] == v0[j]);
                }
                assert forall|j: int| i < j < s1.len() implies #[trigger] s1[j] == s0[j - 1] by {
                    assert(self.entries@[j] == v0[j - 1]);
                }
                lemma_update_insert(s0, s1, i as int);
            }
        }
    }

    /// Lists the recorded paths, in snapshot (lexicographic) order.
    pub fn list(&self) -> (r: Vec<Vec<u8>>)
        ensures
            r@.len() == self@.entries.len(),
            forall|i: int| 0 <= i < r@.len() ==> (#[trigger] r@[i])@ == self@.entries[i].path,
    {
        let n = self.entries.len();
        let mut r: Vec<Vec<u8>> = Vec::new();
        let mut i: usize = 0;
        while i < n
            invariant
                0 <= i <= n,
                n == self.entries.len(),
                r@.len() == i,
                forall|j: int| 0 <= j < i ==> (#[trigger] r@[j])@ == self@.entries[j].path,
            decreases n - i,
        {
            r.push(clone_bytes(&self.entries[i].path));
            i = i + 1;
        }
        r
    }
}

/// Replacing the entry at a sorted position keeps order and rewrites one key.
proof fn lemma_update_replace(s0: Seq<EntryV>, s1: Seq<EntryV>, i: int)
    requires
        entries_wf(s0),
        0 <= i < s0.len(),
        s1.len() == s0.len(),
        s1[i].path == s0[i].path,
        record_wf(s1[i].record),
        forall|j: int| 0 <= j < s0.len() && j != i ==> #[trigger] s1[j] == s0[j],
    ensures
        entries_wf(s1),
        has_path(s1, s0[i].path),
        record_of(s1, s0[i].path) == s1[i].record,
        forall|p: Seq<u8>|
            p != s0[i].path ==> #[trigger] has_path(s1, p) == has_path(s0, p),
        forall|p: Seq<u8>|
            p != s0[i].path && has_path(s0, p) ==> #[trigger] record_of(s1, p) == record_of(s0, p),
{
    assert forall|a: int, b: int| 0 <= a < b < s1.len() implies lex_lt(
        #[trigger] s1[a].path,
        #[trigger] s1[b].path,
    ) by {
        assert(s1[a].path == s0[a].path);
        assert(s1[b].path == s0[b].path);
    }
    lemma_sorted_record_at(s1, i);
    assert forall|p: Seq<u8>| p != s0[i].path implies #[trigger] has_path(s1, p) == has_path(
        s0,
        p,
    ) by {
        if has_path(s0, p) {
            let k = index_of(s0, p);
            assert(s1[k].path == p);
        }
        if has_path(s1, p) {
            let k = index_of(s1, p);
            assert(s0[k].path == p);
        }
    }
    assert forall|p: Seq<u8>| p != s0[i].path && has_path(s0, p) implies #[trigger] record_of(
        s1,
        p,
    ) == record_of(s0, p) by {
        let k = index_of(s0, p);
        assert(s1[k].path == p);
        lemma_sorted_record_at(s0, k);
        lemma_sorted_record_at(s1, k);
    }
}

/// Inserting at the split point keeps order and adds exactly one key.
proof fn lemma_update_insert(s0: Seq<EntryV>, s1: Seq<EntryV>, i: int)
    requires
        entries_wf(s0),
        0 <= i <= s0.len(),
        s1.len() == s0.len() + 1,
        record_wf(s1[i].record),
        forall|j: int| 0 <= j < i ==> #[trigger] s1[j] == s0[j],
        forall|j: int| i < j < s1.len() ==> #[trigger] s1[j] == s0[j - 1],
        forall|j: int| 0 <= j < i ==> lex_lt(#[trigger] s0[j].path, s1[i].path),
        forall|j: int| i <= j < s0.len() ==> lex_lt(s1[i].path, #[trigger] s0[j].path),
    ensures
        entries_wf(s1),
        has_path(s1, s1[i].path),
        record_of(s1, s1[i].path) == s1[i].record,
        forall|p: Seq<u8>|
            p != s1[i].path ==> #[trigger] has_path(s1, p) == has_path(s0, p),
        forall|p: Seq<u8>|
            p != s1[i].path && has_path(s0, p) ==> #[trigger] record_of(s1, p) == record_of(s0, p),
        !has_path(s0, s1[i].path),
{
    assert forall|a: int, b: int| 0 <= a < b < s1.len() implies lex_lt(
        #[trigger] s1[a].path,
        #[trigger] s1[b].path,
    ) by {
        if b < i {
            assert(s1[a] == s0[a] && s1[b] == s0[b]);
        } else if a < i && b == i {
            assert(s1[a] == s0[a]);
        } else if a < i && b > i {
            assert(s1[a] == s0[a] && s1[b] == s0[b - 1]);
        } else if a == i && b > i {
            assert(s1[b] == s0[b - 1]);
        } else {
            assert(s1[a] == s0[a - 1] && s1[b] == s0[b - 1]);
        }
    }
    assert forall|j: int| 0 <= j < s1.len() implies record_wf(#[trigger] s1[j].record) by {
        if j < i {
            assert(s1[j] == s0[j]);
        } else if j > i {
            assert(s1[j] == s0[j - 1]);
        }
    }
    lemma_sorted_record_at(s1, i);
    if has_path(s0, s1[i].path) {
        let k = index_of(s0, s1[i].path);
        lemma_lex_irrefl(s1[i].path);
    }
    assert forall|p: Seq<u8>| p != s1[i].path implies #[trigger] has_path(s1, p) == has_path(
        s0,
        p,
    ) by {
        if has_path(s0, p) {
            let k = index_of(s0, p);
            if k < i {
                assert(s1[k].path == p);
            } else {
                assert(s1[k + 1].path == p);
            }
        }
        if has_path(s1, p) {
            let k = index_of(s1, p);
            if k < i {
                assert(s0[k].path == p);
            } else if k > i {
                assert(s0[k - 1].path == p);
            }
        }
    }
    assert forall|p: Seq<u8>| p != s1[i].path && has_path(s0, p) implies #[trigger] record_of(
        s1,
        p,
    ) == record_of(s0, p) by {
        let k = index_of(s0, p);
        lemma_sorted_record_at(s0, k);
        if k < i {
            assert(s1[k].path == p);
            lemma_sorted_record_at(s1, k);
        } else {
            assert(s1[k + 1].path == p);
            lemma_sorted_record_at(s1, k + 1);
        }
    }
}

} // verus!
