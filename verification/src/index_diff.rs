//! The diff engine: compares two snapshots and yields an ordered list of
//! change records, classified as added, removed or modified. Output is
//! lexicographic by path, so two runs on the same snapshots are identical.

use vstd::prelude::*;
use crate::paths::{lex_lt, lemma_lex_trans, lemma_lex_irrefl, path_cmp, PathOrder, clone_bytes};
use crate::snapshot::{FileRecord, RecordV, EntryV, Snapshot, entries_wf, entries_sorted, has_path,
    index_of, record_of, lemma_sorted_record_at};

verus! {

/// How a path changed between the baseline and the current snapshot.
#[derive(Debug, Clone, Copy, PartialEq, Eq, Structural)]
pub enum DiffKind {
    Added,
    Removed,
    Modified,
}

/// One classified change, with the records a caller needs to explain it.
#[derive(Debug, Clone, PartialEq, Eq)]
pub struct DiffEntry {
    pub path: Vec<u8>,
    pub kind: DiffKind,
    /// The baseline record; present unless the path was added.
    pub baseline: Option<FileRecord>,
    /// The current record; present unless the path was removed.
    pub current: Option<FileRecord>,
}

/// Mathematical model of a `DiffEntry`.
pub ghost struct DiffEntryV {
    pub path: Seq<u8>,
    pub kind: DiffKind,
    pub baseline: Option<RecordV>,
    pub current: Option<RecordV>,
}

impl View for DiffEntry {
    type V = DiffEntryV;

    open spec fn view(&self) -> DiffEntryV {
        DiffEntryV {
            path: self.path@,
            kind: self.kind,
            baseline: match self.baseline {
                Some(r) => Some(r@),
                None => None,
            },
            current: match self.current {
                Some(r) => Some(r@),
                None => None,
            },
        }
    }
}

/// Whether two records of one path count as a modification. When both sides
/// carry a digest, content is authoritative; otherwise the comparison falls
/// back to size and modification time, which is best effort only: equal
/// metadata without digests is not evidence of unchanged content.
pub open spec fn record_changed(b: RecordV, c: RecordV) -> bool {
    if b.checksum_sha256 is Some && c.checksum_sha256 is Some {
        b.checksum_sha256 != c.checksum_sha256
    } else {
        b.size_bytes != c.size_bytes || b.modified_timestamp != c.modified_timestamp
    }
}

/// Whether `p` must appear in the diff of `bs` against `cs`.
pub open spec fn path_differs(bs: Seq<EntryV>, cs: Seq<EntryV>, p: Seq<u8>) -> bool {
    if has_path(bs, p) && has_path(cs, p) {
        record_changed(record_of(bs, p), record_of(cs, p))
    } else {
        has_path(bs, p) || has_path(cs, p)
    }
}

/// One diff entry is correctly classified against the two snapshots.
pub open spec fn diff_entry_ok(bs: Seq<EntryV>, cs: Seq<EntryV>, e: DiffEntryV) -> bool {
    match e.kind {
        DiffKind::Added => {
            &&& !has_path(bs, e.path)
            &&& has_path(cs, e.path)
            &&& e.baseline is None
            &&& e.current == Some(record_of(cs, e.path))
        },
        DiffKind::Removed => {
            &&& has_path(bs, e.path)
            &&& !has_path(cs, e.path)
            &&& e.baseline == Some(record_of(bs, e.path))
            &&& e.current is None
        },
        DiffKind::Modified => {
            &&& has_path(bs, e.path)
            &&& has_path(cs, e.path)
            &&& record_changed(record_of(bs, e.path), record_of(cs, e.path))
            &&& e.baseline == Some(record_of(bs, e.path))
            &&& e.current == Some(record_of(cs, e.path))
        },
    }
}

/// The full diff contract: every entry is correctly classified, entries are
/// strictly ordered by path, and every differing path appears.
pub open spec fn diff_post(bs: Seq<EntryV>, cs: Seq<EntryV>, d: Seq<DiffEntryV>) -> bool {
    &&& forall|k: int| 0 <= k < d.len() ==> diff_entry_ok(bs, cs, #[trigger] d[k])
    &&& forall|k1: int, k2: int|
        0 <= k1 < k2 < d.len() ==> lex_lt(#[trigger] d[k1].path, #[trigger] d[k2].path)
    &&& forall|p: Seq<u8>|
        path_differs(bs, cs, p) ==> exists|k: int| 0 <= k < d.len() && (#[trigger] d[k].path) == p
}

/// Whether the diff lists `p` with kind `k`.
pub open spec fn diff_has(d: Seq<DiffEntryV>, p: Seq<u8>, k: DiffKind) -> bool {
    exists|i: int| 0 <= i < d.len() && (#[trigger] d[i].path) == p && d[i].kind == k
}

/// The models of a list of diff entries.
pub open spec fn diff_views(d: Seq<DiffEntry>) -> Seq<DiffEntryV> {
    d.map_values(|e: DiffEntry| e@)
}

/// Whether the diff lists `p` at all.
pub open spec fn listed(d: Seq<DiffEntryV>, p: Seq<u8>) -> bool {
    exists|k: int| 0 <= k < d.len() && (#[trigger] d[k].path) == p
}

/// Whether `p` stands in the first `i` baseline or first `j` current entries.
pub open spec fn processed(bs: Seq<EntryV>, cs: Seq<EntryV>, i: int, j: int, p: Seq<u8>) -> bool {
    (exists|k: int| 0 <= k < i && (#[trigger] bs[k].path) == p) || (exists|l: int|
        0 <= l < j && (#[trigger] cs[l].path) == p)
}

/// Every differing path among the processed ones is listed.
pub open spec fn cover(
    bs: Seq<EntryV>,
    cs: Seq<EntryV>,
    i: int,
    j: int,
    d: Seq<DiffEntryV>,
) -> bool {
    forall|p: Seq<u8>|
        #[trigger] path_differs(bs, cs, p) && processed(bs, cs, i, j, p) ==> listed(d, p)
}

/// Extending the diff by the freshly processed heads keeps the cover.
proof fn lemma_cover_extend(
    bs: Seq<EntryV>,
    cs: Seq<EntryV>,
    i: int,
    j: int,
    di: int,
    dj: int,
    d0: Seq<DiffEntryV>,
    d1: Seq<DiffEntryV>,
)
    requires
        0 <= i && i + di <= bs.len() && (di == 0 || di == 1),
        0 <= j && j + dj <= cs.len() && (dj == 0 || dj == 1),
        d0.len() <= d1.len(),
        forall|k: int| 0 <= k < d0.len() ==> #[trigger] d1[k] == d0[k],
        cover(bs, cs, i, j, d0),
        di == 1 ==> (path_differs(bs, cs, bs[i].path) ==> listed(d1, bs[i].path)),
        dj == 1 ==> (path_differs(bs, cs, cs[j].path) ==> listed(d1, cs[j].path)),
    ensures
        cover(bs, cs, i + di, j + dj, d1),
{
    assert forall|p: Seq<u8>|
        #[trigger] path_differs(bs, cs, p) && processed(bs, cs, i + di, j + dj, p) implies listed(
        d1,
        p,
    ) by {
        if processed(bs, cs, i, j, p) {
            assert(listed(d0, p));
            let k0 = choose|k: int| 0 <= k < d0.len() && (#[trigger] d0[k].path) == p;
            assert(d1[k0].path == p);
        } else {
            if exists|k: int| 0 <= k < i + di && (#[trigger] bs[k].path) == p {
                let kw = choose|k: int| 0 <= k < i + di && (#[trigger] bs[k].path) == p;
                if kw < i {
                    assert(processed(bs, cs, i, j, p));
                } else {
                    assert(p == bs[i].path);
                }
            } else {
                let lw = choose|l: int| 0 <= l < j + dj && (#[trigger] cs[l].path) == p;
                if lw < j {
                    assert(processed(bs, cs, i, j, p));
                } else {
                    assert(p == cs[j].path);
                }
            }
        }
    }
}

/// Compares a record pair the way the diff classifies modifications.
pub fn records_differ(b: &FileRecord, c: &FileRecord) -> (r: bool)
    ensures
        r == record_changed(b@, c@),
{
    match (&b.checksum_sha256, &c.checksum_sha256) {
        (Some(db), Some(dc)) => !matches!(path_cmp(db, dc), PathOrder::Equal),
        _ => {
            let size_same = b.size_bytes == c.size_bytes;
            let mtime_same = match (&b.modified_timestamp, &c.modified_timestamp) {
                (Some(x), Some(y)) => *x == *y,
                (None, None) => true,
                _ => false,
            };
            !(size_same && mtime_same)
        },
    }
}

/// Compares two snapshots; the result is ordered lexicographically by path
/// and contains exactly the added, removed and modified paths.
#[verifier::rlimit(100)]
pub fn diff(baseline: &Snapshot, current: &Snapshot) -> (d: Vec<DiffEntry>)
    requires
        baseline.wf(),
        current.wf(),
    ensures
        diff_post(baseline@.entries, current@.entries, d@.map_values(|e: DiffEntry| e@)),
{
    let ghost bs = baseline@.entries;
    let ghost cs = current@.entries;
    let nb = baseline.entries.len();
    let nc = current.entries.len();
    let mut d: Vec<DiffEntry> = Vec::new();
    let mut i: usize = 0;
    let mut j: usize = 0;
    while i < nb || j < nc
        invariant
            0 <= i <= nb,
            0 <= j <= nc,
            nb == bs.len(),
            nc == cs.len(),
            bs == baseline@.entries,
            cs == current@.entries,
            nb == baseline.entries.len(),
            nc == current.entries.len(),
            entries_wf(bs),
            entries_wf(cs),
            // every processed baseline path sorts before every unprocessed current path
            forall|k: int, l: int|
                0 <= k < i && j <= l < nc ==> lex_lt(#[trigger] bs[k].path, #[trigger] cs[l].path),
            // every processed current path sorts before every unprocessed baseline path
            forall|l: int, k: int|
                0 <= l < j && i <= k < nb ==> lex_lt(#[trigger] cs[l].path, #[trigger] bs[k].path),
            // emitted entries sort before every unprocessed path
            forall|k: int, l: int|
                0 <= k < d@.len() && i <= l < nb ==> lex_lt(
                    (#[trigger] d@[k])@.path,
                    #[trigger] bs[l].path,
                ),
            forall|k: int, l: int|
                0 <= k < d@.len() && j <= l < nc ==> lex_lt(
                    (#[trigger] d@[k])@.path,
                    #[trigger] cs[l].path,
                ),
            // emitted entries are correctly classified and ordered
            forall|k: int| 0 <= k < d@.len() ==> diff_entry_ok(bs, cs, (#[trigger] d@[k])@),
            forall|k1: int, k2: int|
                0 <= k1 < k2 < d@.len() ==> lex_lt((#[trigger] d@[k1])@.path, (#[trigger] d@[k2])@.path),
            // every differing processed path has been emitted
            cover(bs, cs, i as int, j as int, diff_views(d@)),
        decreases (nb - i) + (nc - j),
    {
        let take_baseline = if i < nb {
            if j < nc {
                matches!(path_cmp(&baseline.entries[i].path, &current.entries[j].path), PathOrder::Less)
            } else {
                true
            }
        } else {
            false
        };
        let take_current = if !take_baseline && j < nc {
            if i < nb {
                matches!(path_cmp(&current.entries[j].path, &baseline.entries[i].path), PathOrder::Less)
            } else {
                true
            }
        } else {
            false
        };
        if take_baseline {
            // present only in the baseline: removed
            let e = &baseline.entries[i];
            proof {
                lemma_sorted_record_at(bs, i as int);
                assert forall|l: int| 0 <= l < cs.len() implies (#[trigger] cs[l].path)
                    != bs[i as int].path by {
                    if l >= j {
                        if l > j {
                            lemma_lex_trans(bs[i as int].path, cs[j as int].path, cs[l].path);
                        }
                        lemma_lex_irrefl(bs[i as int].path);
                    } else {
                        lemma_lex_irrefl(cs[l].path);
                    }
                }
                if has_path(cs, bs[i as int].path) {
                    let l = index_of(cs, bs[i as int].path);
                    assert(cs[l].path == bs[i as int].path);
                }
            }
            let de = DiffEntry {
                path: clone_bytes(&e.path),
                kind: DiffKind::Removed,
                baseline: Some(e.record.duplicate()),
                current: None,
            };
            let ghost dex = de;
            let ghost d0s = d@;
            let ghost d0v = diff_views(d@);
            d.push(de);
            proof {
                lemma_step_frontier(bs, cs, i as int, j as int);
                let d1v = diff_views(d@);
                assert(d@ == d0s.push(dex));
                assert forall|k: int| 0 <= k < d0v.len() implies #[trigger] d1v[k] == d0v[k] by {
                    assert(d@[k] == d0s[k]);
                }
                assert(d@[d0s.len() as int] == dex);
                assert(d1v[d0s.len() as int].path == bs[i as int].path);
                assert(listed(d1v, bs[i as int].path));
                lemma_cover_extend(bs, cs, i as int, j as int, 1, 0, d0v, d1v);
            }
            i = i + 1;
        } else if take_current {
            // present only in the current snapshot: added
            let e = &current.entries[j];
            proof {
                lemma_sorted_record_at(cs, j as int);
                assert forall|l: int| 0 <= l < bs.len() implies (#[trigger] bs[l].path)
                    != cs[j as int].path by {
                    if l >= i {
                        if l > i {
                            lemma_lex_trans(cs[j as int].path, bs[i as int].path, bs[l].path);
                        }
                        lemma_lex_irrefl(cs[j as int].path);
                    } else {
                        lemma_lex_irrefl(bs[l].path);
                    }
                }
                if has_path(bs, cs[j as int].path) {
                    let l = index_of(bs, cs[j as int].path);
                    assert(bs[l].path == cs[j as int].path);
                }
            }
            let de = DiffEntry {
                path: clone_bytes(&e.path),
                kind: DiffKind::Added,
                baseline: None,
                current: Some(e.record.duplicate()),
            };
            let ghost dex = de;
            let ghost d0s = d@;
            let ghost d0v = diff_views(d@);
            d.push(de);
            proof {
                lemma_step_frontier(cs, bs, j as int, i as int);
                let d1v = diff_views(d@);
                assert(d@ == d0s.push(dex));
                assert forall|k: int| 0 <= k < d0v.len() implies #[trigger] d1v[k] == d0v[k] by {
                    assert(d@[k] == d0s[k]);
                }
                assert(d@[d0s.len() as int] == dex);
                assert(d1v[d0s.len() as int].path == cs[j as int].path);
                assert(listed(d1v, cs[j as int].path));
                lemma_cover_extend(bs, cs, i as int, j as int, 0, 1, d0v, d1v);
            }
            j = j + 1;
        } else {
            // the same path heads both snapshots
            let eb = &baseline.entries[i];
            let ec = &current.entries[j];
            proof {
                crate::paths::lemma_lex_total(bs[i as int].path, cs[j as int].path);
                lemma_sorted_record_at(bs, i as int);
                lemma_sorted_record_at(cs, j as int);
            }
            if records_differ(&eb.record, &ec.record) {
                let de = DiffEntry {
                    path: clone_bytes(&eb.path),
                    kind: DiffKind::Modified,
                    baseline: Some(eb.record.duplicate()),
                    current: Some(ec.record.duplicate()),
                };
                let ghost dex = de;
                let ghost d0s = d@;
                let ghost d0v = diff_views(d@);
                d.push(de);
                proof {
                    let d1v = diff_views(d@);
                    assert(d@ == d0s.push(dex));
                    assert forall|k: int| 0 <= k < d0v.len() implies #[trigger] d1v[k] == d0v[k] by {
                        assert(d@[k] == d0s[k]);
                    }
                    assert(d@[d0s.len() as int] == dex);
                    assert(d1v[d0s.len() as int].path == bs[i as int].path);
                    assert(listed(d1v, bs[i as int].path));
                    assert(listed(d1v, cs[j as int].path));
                    lemma_cover_extend(bs, cs, i as int, j as int, 1, 1, d0v, d1v);
                }
            } else {
                proof {
                    assert(!path_differs(bs, cs, bs[i as int].path));
                    assert(!path_differs(bs, cs, cs[j as int].path));
                    lemma_cover_extend(bs, cs, i as int, j as int, 1, 1, diff_views(d@), diff_views(d@));
                }
            }
            i = i + 1;
            j = j + 1;
        }
    }
    proof {
        let dm = diff_views(d@);
        assert forall|k: int| 0 <= k < dm.len() implies diff_entry_ok(bs, cs, #[trigger] dm[k]) by {
            assert(dm[k] == d@[k]@);
        }
        assert forall|k1: int, k2: int| 0 <= k1 < k2 < dm.len() implies lex_lt(
            #[trigger] dm[k1].path,
            #[trigger] dm[k2].path,
        ) by {
            assert(dm[k1] == d@[k1]@);
            assert(dm[k2] == d@[k2]@);
        }
        assert forall|p: Seq<u8>| path_differs(bs, cs, p) implies exists|k: int|
            0 <= k < dm.len() && (#[trigger] dm[k].path) == p by {
            if has_path(bs, p) {
                let k0 = index_of(bs, p);
                assert(0 <= k0 < bs.len() && bs[k0].path == p);
            } else {
                assert(has_path(cs, p));
                let l0 = index_of(cs, p);
                assert(0 <= l0 < cs.len() && cs[l0].path == p);
            }
            assert(processed(bs, cs, i as int, j as int, p));
            assert(listed(dm, p));
        }
    }
    d
}

/// After consuming the head of `xs`, the frontier facts keep their shape.
proof fn lemma_step_frontier(xs: Seq<EntryV>, ys: Seq<EntryV>, i: int, j: int)
    requires
        entries_sorted(xs),
        entries_sorted(ys),
        0 <= i < xs.len(),
        0 <= j <= ys.len(),
        j < ys.len() ==> lex_lt(xs[i].path, ys[j].path),
    ensures
        forall|l: int| j <= l < ys.len() ==> lex_lt(xs[i].path, #[trigger] ys[l].path),
        forall|l: int| i + 1 <= l < xs.len() ==> lex_lt(xs[i].path, #[trigger] xs[l].path),
{
    assert forall|l: int| j <= l < ys.len() implies lex_lt(xs[i].path, #[trigger] ys[l].path) by {
        if l > j {
            lemma_lex_trans(xs[i].path, ys[j].path, ys[l].path);
        }
    }
}

/// The diff of a snapshot against itself is empty.
pub proof fn lemma_diff_reflexive(s: Seq<EntryV>, d: Seq<DiffEntryV>)
    requires
        diff_post(s, s, d),
    ensures
        d.len() == 0,
{
    if d.len() > 0 {
        assert(diff_entry_ok(s, s, d[0]));
    }
}

/// `diff(A, B)` and `diff(B, A)` are mirror images: added and removed paths
/// swap roles, and the modified paths coincide.
pub proof fn lemma_diff_mirror(
    bs: Seq<EntryV>,
    cs: Seq<EntryV>,
    d1: Seq<DiffEntryV>,
    d2: Seq<DiffEntryV>,
)
    requires
        diff_post(bs, cs, d1),
        diff_post(cs, bs, d2),
    ensures
        forall|p: Seq<u8>| diff_has(d1, p, DiffKind::Added) <==> diff_has(d2, p, DiffKind::Removed),
        forall|p: Seq<u8>| diff_has(d1, p, DiffKind::Removed) <==> diff_has(d2, p, DiffKind::Added),
        forall|p: Seq<u8>|
            diff_has(d1, p, DiffKind::Modified) <==> diff_has(d2, p, DiffKind::Modified),
{
    assert forall|p: Seq<u8>|
        diff_has(d1, p, DiffKind::Added) implies diff_has(d2, p, DiffKind::Removed) by {
        lemma_mirror_one(bs, cs, d1, d2, p);
    }
    assert forall|p: Seq<u8>|
        diff_has(d2, p, DiffKind::Removed) implies diff_has(d1, p, DiffKind::Added) by {
        lemma_mirror_one(bs, cs, d1, d2, p);
    }
    assert forall|p: Seq<u8>|
        diff_has(d1, p, DiffKind::Removed) implies diff_has(d2, p, DiffKind::Added) by {
        lemma_mirror_one(bs, cs, d1, d2, p);
    }
    assert forall|p: Seq<u8>|
        diff_has(d2, p, DiffKind::Added) implies diff_has(d1, p, DiffKind::Removed) by {
        lemma_mirror_one(bs, cs, d1, d2, p);
    }
    assert forall|p: Seq<u8>|
        diff_has(d1, p, DiffKind::Modified) implies diff_has(d2, p, DiffKind::Modified) by {
        lemma_mirror_one(bs, cs, d1, d2, p);
    }
    assert forall|p: Seq<u8>|
        diff_has(d2, p, DiffKind::Modified) implies diff_has(d1, p, DiffKind::Modified) by {
        lemma_mirror_one(bs, cs, d1, d2, p);
    }
}

/// If either diff lists `p` at all, both list it, with mirrored kinds.
proof fn lemma_mirror_one(
    bs: Seq<EntryV>,
    cs: Seq<EntryV>,
    d1: Seq<DiffEntryV>,
    d2: Seq<DiffEntryV>,
    p: Seq<u8>,
)
    requires
        diff_post(bs, cs, d1),
        diff_post(cs, bs, d2),
    ensures
        diff_has(d1, p, DiffKind::Added) ==> diff_has(d2, p, DiffKind::Removed),
        diff_has(d1, p, DiffKind::Removed) ==> diff_has(d2, p, DiffKind::Added),
        diff_has(d1, p, DiffKind::Modified) ==> diff_has(d2, p, DiffKind::Modified),
        diff_has(d2, p, DiffKind::Removed) ==> diff_has(d1, p, DiffKind::Added),
        diff_has(d2, p, DiffKind::Added) ==> diff_has(d1, p, DiffKind::Removed),
        diff_has(d2, p, DiffKind::Modified) ==> diff_has(d1, p, DiffKind::Modified),
{
    if diff_has(d1, p, DiffKind::Added) {
        let k = choose|k: int| 0 <= k < d1.len() && d1[k].path == p && d1[k].kind == DiffKind::Added;
        assert(diff_entry_ok(bs, cs, d1[k]));
        assert(path_differs(cs, bs, p));
        let l = choose|l: int| 0 <= l < d2.len() && d2[l].path == p;
        assert(diff_entry_ok(cs, bs, d2[l]));
        assert(d2[l].kind == DiffKind::Removed);
        assert(diff_has(d2, p, DiffKind::Removed));
    }
    if diff_has(d1, p, DiffKind::Removed) {
        let k = choose|k: int|
            0 <= k < d1.len() && d1[k].path == p && d1[k].kind == DiffKind::Removed;
        assert(diff_entry_ok(bs, cs, d1[k]));
        assert(path_differs(cs, bs, p));
        let l = choose|l: int| 0 <= l < d2.len() && d2[l].path == p;
        assert(diff_entry_ok(cs, bs, d2[l]));
        assert(d2[l].kind == DiffKind::Added);
        assert(diff_has(d2, p, DiffKind::Added));
    }
    if diff_has(d1, p, DiffKind::Modified) {
        let k = choose|k: int|
            0 <= k < d1.len() && d1[k].path == p && d1[k].kind == DiffKind::Modified;
        assert(diff_entry_ok(bs, cs, d1[k]));
        assert(path_differs(cs, bs, p));
        let l = choose|l: int| 0 <= l < d2.len() && d2[l].path == p;
        assert(diff_entry_ok(cs, bs, d2[l]));
        assert(d2[l].kind == DiffKind::Modified);
        assert(diff_has(d2, p, DiffKind::Modified));
    }
    if diff_has(d2, p, DiffKind::Removed) {
        let k = choose|k: int|
            0 <= k < d2.len() && d2[k].path == p && d2[k].kind == DiffKind::Removed;
        assert(diff_entry_ok(cs, bs, d2[k]));
        assert(path_differs(bs, cs, p));
        let l = choose|l: int| 0 <= l < d1.len() && d1[l].path == p;
        assert(diff_entry_ok(bs, cs, d1[l]));
        assert(d1[l].kind == DiffKind::Added);
        assert(diff_has(d1, p, DiffKind::Added));
    }
    if diff_has(d2, p, DiffKind::Added) {
        let k = choose|k: int| 0 <= k < d2.len() && d2[k].path == p && d2[k].kind == DiffKind::Added;
        assert(diff_entry_ok(cs, bs, d2[k]));
        assert(path_differs(bs, cs, p));
        let l = choose|l: int| 0 <= l < d1.len() && d1[l].path == p;
        assert(diff_entry_ok(bs, cs, d1[l]));
        assert(d1[l].kind == DiffKind::Removed);
        assert(diff_has(d1, p, DiffKind::Removed));
    }
    if diff_has(d2, p, DiffKind::Modified) {
        let k = choose|k: int|
            0 <= k < d2.len() && d2[k].path == p && d2[k].kind == DiffKind::Modified;
        assert(diff_entry_ok(cs, bs, d2[k]));
        assert(path_differs(bs, cs, p));
        let l = choose|l: int| 0 <= l < d1.len() && d1[l].path == p;
        assert(diff_entry_ok(bs, cs, d1[l]));
        assert(d1[l].kind == DiffKind::Modified);
        assert(diff_has(d1, p, DiffKind::Modified));
    }
}

} // verus!
