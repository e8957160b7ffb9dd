//! The directory scanner's decision core. The filesystem walk itself happens
//! outside; it hands over one `WalkEntry` per visited filesystem entry, in
//! walk order. This module applies the exclusion rules, builds the metadata
//! snapshot, and fills in content digests in the separate checksum pass.

use vstd::prelude::*;
use crate::paths::clone_bytes;
use crate::snapshot::{FileRecord, RecordV, Snapshot, has_path, record_of, entries_wf,
    lemma_sorted_record_at};
use crate::checksum::{sha256, sha256_of};
use crate::errors::Error;

verus! {

/// What kind of filesystem entry the walk reported.
#[derive(Debug, Clone, Copy, PartialEq, Eq, Structural)]
pub enum EntryKind {
    /// A regular file with readable metadata.
    File,
    /// A directory, symlink or special file: silently skipped.
    Other,
    /// An entry whose metadata could not be read: aborts the scan.
    Unreadable,
}

/// One filesystem entry as reported by the walk, with its path relative to
/// the scan root. Size and timestamp are meaningful only for `File` entries.
#[derive(Debug, Clone, PartialEq, Eq)]
pub struct WalkEntry {
    pub path: Vec<u8>,
    pub kind: EntryKind,
    pub size_bytes: u64,
    pub modified_timestamp: Option<i64>,
}

/// Mathematical model of a `WalkEntry`.
pub ghost struct WalkEntryV {
    pub path: Seq<u8>,
    pub kind: EntryKind,
    pub size_bytes: u64,
    pub modified_timestamp: Option<i64>,
}

impl View for WalkEntry {
    type V = WalkEntryV;

    open spec fn view(&self) -> WalkEntryV {
        WalkEntryV {
            path: self.path@,
            kind: self.kind,
            size_bytes: self.size_bytes,
            modified_timestamp: self.modified_timestamp,
        }
    }
}

/// Which paths a scan visits.
#[derive(Debug, Clone, PartialEq, Eq)]
pub struct ScanOptions {
    /// Subtrees that are never visited.
    pub exclude_paths: Vec<Vec<u8>>,
    /// When present, restricts the walk to these paths only.
    pub exclusive_paths: Option<Vec<Vec<u8>>>,
}

/// Mathematical model of `ScanOptions`.
pub ghost struct ScanOptionsV {
    pub exclude_paths: Seq<Seq<u8>>,
    pub exclusive_paths: Option<Seq<Seq<u8>>>,
}

impl View for ScanOptions {
    type V = ScanOptionsV;

    open spec fn view(&self) -> ScanOptionsV {
        ScanOptionsV {
            exclude_paths: self.exclude_paths@.map_values(|v: Vec<u8>| v@),
            exclusive_paths: match self.exclusive_paths {
                Some(ref xs) => Some(xs@.map_values(|v: Vec<u8>| v@)),
                None => None,
            },
        }
    }
}

impl ScanOptions {
    /// No exclusions, no restriction: visit everything.
    pub fn all() -> (o: ScanOptions)
        ensures
            o@.exclude_paths.len() == 0,
            o@.exclusive_paths is None,
    {
        ScanOptions { exclude_paths: Vec::new(), exclusive_paths: None }
    }
}

/// `p` equals `pre` or lies in the subtree rooted at `pre`.
pub open spec fn path_starts_with(p: Seq<u8>, pre: Seq<u8>) -> bool {
    &&& pre.len() <= p.len()
    &&& p.subrange(0, pre.len() as int) == pre
    &&& (p.len() == pre.len() || p[pre.len() as int] == 47u8)
}

/// Some excluded subtree contains `p`.
pub open spec fn path_excluded(o: ScanOptionsV, p: Seq<u8>) -> bool {
    exists|k: int|
        0 <= k < o.exclude_paths.len() && path_starts_with(p, #[trigger] o.exclude_paths[k])
}

/// The restriction, when present, selects `p`.
pub open spec fn path_selected(o: ScanOptionsV, p: Seq<u8>) -> bool {
    match o.exclusive_paths {
        None => true,
        Some(xs) => exists|k: int| 0 <= k < xs.len() && path_starts_with(p, #[trigger] xs[k]),
    }
}

/// The scan records `p`: not excluded and selected by the restriction.
pub open spec fn path_included(o: ScanOptionsV, p: Seq<u8>) -> bool {
    !path_excluded(o, p) && path_selected(o, p)
}

/// A matching restriction entry shows that `p` is selected.
proof fn lemma_selected_witness(o: ScanOptionsV, p: Seq<u8>, k: int)
    requires
        o.exclusive_paths matches Some(xs) && 0 <= k < xs.len() && path_starts_with(p, xs[k]),
    ensures
        path_selected(o, p),
{
}

/// Decides whether `p` equals `pre` or lies under it.
fn is_under(p: &Vec<u8>, pre: &Vec<u8>) -> (r: bool)
    ensures
        r == path_starts_with(p@, pre@),
{
    let np = p.len();
    let npre = pre.len();
    if npre > np {
        proof {
            assert(!path_starts_with(p@, pre@));
        }
        return false;
    }
    let mut i: usize = 0;
    while i < npre
        invariant
            0 <= i <= npre,
            npre == pre@.len(),
            npre <= np,
            np == p@.len(),
            forall|j: int| 0 <= j < i ==> p@[j] == pre@[j],
        decreases npre - i,
    {
        if p[i] != pre[i] {
            proof {
                assert(p@.subrange(0, npre as int)[i as int] == p@[i as int]);
                assert(p@.subrange(0, npre as int) != pre@);
            }
            return false;
        }
        i = i + 1;
    }
    proof {
        assert(p@.subrange(0, npre as int) =~= pre@);
    }
    if np == npre {
        true
    } else {
        p[npre] == 47u8
    }
}

/// Decides whether the options include `p` in the scan.
pub fn included(options: &ScanOptions, p: &Vec<u8>) -> (r: bool)
    ensures
        r == path_included(options@, p@),
{
    let nx = options.exclude_paths.len();
    let mut i: usize = 0;
    while i < nx
        invariant
            0 <= i <= nx,
            nx == options@.exclude_paths.len(),
            forall|k: int| 0 <= k < i ==> !path_starts_with(p@, #[trigger] options@.exclude_paths[k]),
        decreases nx - i,
    {
        if is_under(p, &options.exclude_paths[i]) {
            proof {
                assert(path_starts_with(p@, options@.exclude_paths[i as int]));
            }
            return false;
        }
        proof {
            assert(options@.exclude_paths[i as int] == options.exclude_paths@[i as int]@);
        }
        i = i + 1;
    }
    match &options.exclusive_paths {
        None => true,
        Some(xs) => {
            let ghost xv = xs@.map_values(|v: Vec<u8>| v@);
            proof {
                assert(options@.exclusive_paths == Some(xv));
            }
            let nb = xs.len();
            let mut j: usize = 0;
            while j < nb
                invariant
                    0 <= j <= nb,
                    nb == xs@.len(),
                    nb == xv.len(),
                    xv == xs@.map_values(|v: Vec<u8>| v@),
                    options@.exclusive_paths == Some(xv),
                    forall|k: int| 0 <= k < j ==> !path_starts_with(p@, #[trigger] xv[k]),
                    !path_excluded(options@, p@),
                decreases nb - j,
            {
                if is_under(p, &xs[j]) {
                    proof {
                        assert(xv[j as int] == xs@[j as int]@);
                        assert(path_starts_with(p@, xv[j as int]));
                        lemma_selected_witness(options@, p@, j as int);
                    }
                    return true;
                }
                proof {
                    assert(xv[j as int] == xs@[j as int]@);
                }
                j = j + 1;
            }
            proof {
                if path_selected(options@, p@) {
                    let k = choose|k: int|
                        0 <= k < xv.len() && path_starts_with(p@, #[trigger] xv[k]);
                    assert(!path_starts_with(p@, xv[k]));
                }
            }
            false
        },
    }
}

/// A walk entry's metadata as a snapshot record, with no digest yet.
pub open spec fn walk_record(e: WalkEntryV) -> RecordV {
    RecordV {
        size_bytes: e.size_bytes,
        modified_timestamp: e.modified_timestamp,
        checksum_sha256: None,
    }
}

/// The index of the last included regular file recording `p`, or -1.
pub open spec fn last_file_at(es: Seq<WalkEntryV>, o: ScanOptionsV, p: Seq<u8>) -> int
    decreases es.len(),
{
    if es.len() == 0 {
        -1
    } else if es.last().kind == EntryKind::File && path_included(o, es.last().path) && es.last().path
        == p {
        es.len() - 1
    } else {
        last_file_at(es.drop_last(), o, p)
    }
}

/// `last_file_at` always names an included file entry with path `p`.
pub proof fn lemma_last_file_at(es: Seq<WalkEntryV>, o: ScanOptionsV, p: Seq<u8>)
    ensures
        last_file_at(es, o, p) >= 0 ==> {
            let k = last_file_at(es, o, p);
            &&& k < es.len()
            &&& es[k].kind == EntryKind::File
            &&& path_included(o, es[k].path)
            &&& es[k].path == p
        },
    decreases es.len(),
{
    if es.len() > 0 {
        lemma_last_file_at(es.drop_last(), o, p);
    }
}

/// The metadata pass: turns the walk's report into a snapshot. Non-regular
/// entries are skipped, excluded or unselected paths are never recorded, and
/// a single unreadable included entry fails the whole scan.
pub fn scan_metadata(entries: &Vec<WalkEntry>, options: &ScanOptions) -> (r: Result<
    Snapshot,
    Error,
>)
    ensures
        match r {
            Ok(s) => {
                &&& s.wf()
                &&& s@.timestamp is None
                &&& forall|k: int|
                    0 <= k < entries@.len() && path_included(
                        options@,
                        (#[trigger] entries@[k])@.path,
                    ) ==> entries@[k]@.kind != EntryKind::Unreadable
                &&& forall|p: Seq<u8>|
                    #[trigger] has_path(s@.entries, p) <==> last_file_at(
                        entries@.map_values(|e: WalkEntry| e@),
                        options@,
                        p,
                    ) >= 0
                &&& forall|p: Seq<u8>|
                    #[trigger] has_path(s@.entries, p) ==> record_of(s@.entries, p) == walk_record(
                        entries@.map_values(|e: WalkEntry| e@)[last_file_at(
                            entries@.map_values(|e: WalkEntry| e@),
                            options@,
                            p,
                        )],
                    )
            },
            Err(e) => {
                &&& e matches Error::ScanError { path } && exists|k: int|
                    0 <= k < entries@.len() && (#[trigger] entries@[k])@.kind
                        == EntryKind::Unreadable && path_included(options@, entries@[k]@.path)
                        && entries@[k]@.path == path@
            },
        },
        (r is Err) <==> exists|k: int|
            0 <= k < entries@.len() && (#[trigger] entries@[k])@.kind == EntryKind::Unreadable
                && path_included(options@, entries@[k]@.path),
        entries@.len() == 0 ==> (r matches Ok(s) && s@.entries.len() == 0),
{
    let ghost es = entries@.map_values(|e: WalkEntry| e@);
    let n = entries.len();
    let mut snap = Snapshot::new();
    let mut i: usize = 0;
    while i < n
        invariant
            0 <= i <= n,
            n == entries.len(),
            es == entries@.map_values(|e: WalkEntry| e@),
            n == es.len(),
            snap.wf(),
            snap@.timestamp is None,
            forall|k: int|
                0 <= k < i && path_included(options@, (#[trigger] es[k]).path) ==> es[k].kind
                    != EntryKind::Unreadable,
            forall|p: Seq<u8>|
                #[trigger] has_path(snap@.entries, p) <==> last_file_at(
                    es.subrange(0, i as int),
                    options@,
                    p,
                ) >= 0,
            forall|p: Seq<u8>|
                #[trigger] has_path(snap@.entries, p) ==> record_of(snap@.entries, p)
                    == walk_record(
                    es.subrange(0, i as int)[last_file_at(es.subrange(0, i as int), options@, p)],
                ),
        decreases n - i,
    {
        let e = &entries[i];
        let ghost pre = es.subrange(0, i as int);
        let ghost post = es.subrange(0, i as int + 1);
        proof {
            assert(es[i as int] == entries@[i as int]@);
            assert(post.drop_last() =~= pre);
            assert(post.last() == es[i as int]);
            lemma_step_last_file(pre, post, options@);
        }
        if included(options, &e.path) {
            match e.kind {
                EntryKind::File => {
                    let ghost se0 = snap@.entries;
                    snap.update(
                        clone_bytes(&e.path),
                        FileRecord {
                            size_bytes: e.size_bytes,
                            modified_timestamp: e.modified_timestamp,
                            checksum_sha256: None,
                        },
                    );
                    proof {
                        let se1 = snap@.entries;
                        assert(last_file_at(post, options@, es[i as int].path) == i);
                        assert(record_of(se1, es[i as int].path) == walk_record(es[i as int]));
                        assert forall|p: Seq<u8>| #[trigger] has_path(se1, p) implies record_of(
                            se1,
                            p,
                        ) == walk_record(post[last_file_at(post, options@, p)]) by {
                            if p == es[i as int].path {
                                assert(post[i as int] == es[i as int]);
                            } else {
                                assert(has_path(se0, p));
                                assert(record_of(se1, p) == record_of(se0, p));
                                let k = last_file_at(pre, options@, p);
                                lemma_last_file_at(pre, options@, p);
                                assert(last_file_at(post, options@, p) == k);
                                assert(0 <= k < pre.len());
                                assert(post[k] == pre[k]);
                            }
                        }
                        assert forall|p: Seq<u8>| #[trigger] has_path(se1, p) implies last_file_at(
                            post,
                            options@,
                            p,
                        ) >= 0 by {
                            if p != es[i as int].path {
                                assert(has_path(se0, p));
                            }
                        }
                        assert forall|p: Seq<u8>| last_file_at(post, options@, p) >= 0 implies
                            has_path(se1, p) by {
                            lemma_last_file_at(post, options@, p);
                            if p != es[i as int].path {
                                let k = last_file_at(post, options@, p);
                                assert(post[k] == pre[k]);
                                assert(last_file_at(pre, options@, p) == k);
                                assert(has_path(se0, p));
                            }
                        }
                    }
                },
                EntryKind::Other => {
                },
                EntryKind::Unreadable => {
                    proof {
                        assert((entries@[i as int])@ == es[i as int]);
                        assert(es[i as int].kind == EntryKind::Unreadable && path_included(
                            options@,
                            es[i as int].path,
                        ));
                    }
                    return Err(Error::ScanError { path: clone_bytes(&e.path) });
                },
            }
        }
        proof {
            if es[i as int].kind != EntryKind::File || !path_included(options@, es[i as int].path) {
                assert forall|p: Seq<u8>| #[trigger] has_path(snap@.entries, p) implies record_of(
                    snap@.entries,
                    p,
                ) == walk_record(post[last_file_at(post, options@, p)]) by {
                    let k = last_file_at(pre, options@, p);
                    lemma_last_file_at(pre, options@, p);
                    assert(last_file_at(post, options@, p) == k);
                    assert(0 <= k < pre.len());
                    assert(post[k] == pre[k]);
                }
                assert forall|p: Seq<u8>| #[trigger] has_path(snap@.entries, p) implies
                    last_file_at(post, options@, p) >= 0 by {}
                assert forall|p: Seq<u8>| last_file_at(post, options@, p) >= 0 implies has_path(
                    snap@.entries,
                    p,
                ) by {
                    lemma_last_file_at(post, options@, p);
                    let k = last_file_at(post, options@, p);
                    assert(post[k] == pre[k]);
                    assert(last_file_at(pre, options@, p) == k);
                }
            }
        }
        i = i + 1;
    }
    proof {
        assert(es.subrange(0, n as int) =~= es);
        assert forall|k: int| 0 <= k < es.len() implies (#[trigger] entries@[k])@ == es[k] by {}
        if es.len() == 0 && snap@.entries.len() > 0 {
            lemma_sorted_record_at(snap@.entries, 0);
            assert(last_file_at(es, options@, snap@.entries[0].path) == -1);
        }
    }
    Ok(snap)
}

/// Extending the walked prefix by one entry shifts `last_file_at` as the
/// recursion says.
proof fn lemma_step_last_file(pre: Seq<WalkEntryV>, post: Seq<WalkEntryV>, o: ScanOptionsV)
    requires
        post.len() == pre.len() + 1,
        post.drop_last() == pre,
    ensures
        forall|p: Seq<u8>|
            #[trigger] last_file_at(post, o, p) == if post.last().kind == EntryKind::File
                && path_included(o, post.last().path) && post.last().path == p {
                pre.len() as int
            } else {
                last_file_at(pre, o, p)
            },
{
}

/// One file's content as read back for the checksum pass; `None` means the
/// file could not be opened or fully read.
#[derive(Debug, Clone, PartialEq, Eq)]
pub struct FileContent {
    pub path: Vec<u8>,
    pub data: Option<Vec<u8>>,
}

/// Mathematical model of a `FileContent`.
pub ghost struct FileContentV {
    pub path: Seq<u8>,
    pub data: Option<Seq<u8>>,
}

impl View for FileContent {
    type V = FileContentV;

    open spec fn view(&self) -> FileContentV {
        FileContentV {
            path: self.path@,
            data: match self.data {
                Some(ref d) => Some(d@),
                None => None,
            },
        }
    }
}

/// The first reported content for `p`, if any.
pub open spec fn content_lookup(cv: Seq<FileContentV>, p: Seq<u8>) -> Option<Seq<u8>>
    decreases cv.len(),
{
    if cv.len() == 0 {
        None
    } else if cv[0].path == p {
        cv[0].data
    } else {
        content_lookup(cv.skip(1), p)
    }
}

/// A record with its digest filled in from the given content bytes.
pub open spec fn hashed_record(r: RecordV, bytes: Seq<u8>) -> RecordV {
    RecordV {
        size_bytes: r.size_bytes,
        modified_timestamp: r.modified_timestamp,
        checksum_sha256: Some(sha256_of(bytes)),
    }
}

/// What the checksum pass leaves at position `k`: entries the options select
/// are re-hashed from their content, the rest keep their record.
pub open spec fn checked_record(
    sv: Seq<crate::snapshot::EntryV>,
    cv: Seq<FileContentV>,
    o: ScanOptionsV,
    k: int,
) -> RecordV {
    if path_included(o, sv[k].path) && content_lookup(cv, sv[k].path) is Some {
        hashed_record(sv[k].record, content_lookup(cv, sv[k].path)->0)
    } else {
        sv[k].record
    }
}

/// Finds the first reported content for `p`.
fn find_content<'a>(contents: &'a Vec<FileContent>, p: &Vec<u8>) -> (r: Option<&'a Option<Vec<u8>>>)
    ensures
        match r {
            Some(d) => content_lookup(contents@.map_values(|c: FileContent| c@), p@) == (match d {
                Some(b) => Some(b@),
                None => None,
            }) && (content_lookup(contents@.map_values(|c: FileContent| c@), p@) is Some <==> d
                is Some),
            None => content_lookup(contents@.map_values(|c: FileContent| c@), p@) is None,
        },
{
    let ghost cv = contents@.map_values(|c: FileContent| c@);
    let n = contents.len();
    let mut i: usize = 0;
    proof {
        assert(cv.skip(0) =~= cv);
    }
    while i < n
        invariant
            0 <= i <= n,
            n == contents.len(),
            cv == contents@.map_values(|c: FileContent| c@),
            n == cv.len(),
            content_lookup(cv, p@) == content_lookup(cv.skip(i as int), p@),
            forall|k: int| 0 <= k < i ==> (#[trigger] cv[k]).path != p@,
        decreases n - i,
    {
        proof {
            assert(cv[i as int] == contents@[i as int]@);
            assert(cv.skip(i as int)[0] == cv[i as int]);
            assert(cv.skip(i as int).skip(1) =~= cv.skip(i as int + 1));
        }
        if matches!(crate::paths::path_cmp(&contents[i].path, p), crate::paths::PathOrder::Equal) {
            return Some(&contents[i].data);
        }
        i = i + 1;
    }
    proof {
        assert(cv.skip(i as int).len() == 0);
    }
    None
}

/// The checksum pass: re-reads the selected entries' content and fills in
/// their digests, leaving size and timestamp untouched. A single unreadable
/// selected file fails the whole pass.
pub fn scan_checksums(snapshot: &Snapshot, contents: &Vec<FileContent>, options: &ScanOptions) -> (r:
    Result<Snapshot, Error>)
    requires
        snapshot.wf(),
    ensures
        match r {
            Ok(s2) => {
                &&& s2.wf()
                &&& s2@.timestamp == snapshot@.timestamp
                &&& s2@.entries.len() == snapshot@.entries.len()
                &&& forall|k: int|
                    0 <= k < s2@.entries.len() ==> (#[trigger] s2@.entries[k]).path
                        == snapshot@.entries[k].path
                &&& forall|k: int|
                    0 <= k < s2@.entries.len() ==> (#[trigger] s2@.entries[k]).record
                        == checked_record(
                        snapshot@.entries,
                        contents@.map_values(|c: FileContent| c@),
                        options@,
                        k,
                    )
            },
            Err(e) => {
                &&& e matches Error::IoError { path } && has_path(snapshot@.entries, path@)
                    && path_included(options@, path@) && content_lookup(
                    contents@.map_values(|c: FileContent| c@),
                    path@,
                ) is None
            },
        },
        (r is Err) <==> exists|k: int|
            0 <= k < snapshot@.entries.len() && path_included(
                options@,
                (#[trigger] snapshot@.entries[k]).path,
            ) && content_lookup(
                contents@.map_values(|c: FileContent| c@),
                snapshot@.entries[k].path,
            ) is None,
{
    let ghost sv = snapshot@.entries;
    let ghost cv = contents@.map_values(|c: FileContent| c@);
    let n = snapshot.entries.len();
    let mut out: Vec<crate::snapshot::SnapEntry> = Vec::new();
    let mut i: usize = 0;
    while i < n
        invariant
            0 <= i <= n,
            n == snapshot.entries.len(),
            sv == snapshot@.entries,
            cv == contents@.map_values(|c: FileContent| c@),
            n == sv.len(),
            entries_wf(sv),
            out@.len() == i,
            forall|k: int|
                0 <= k < i ==> (#[trigger] out@[k])@.path == sv[k].path,
            forall|k: int|
                0 <= k < i ==> (#[trigger] out@[k])@.record == checked_record(sv, cv, options@, k),
            forall|k: int|
                0 <= k < i ==> crate::snapshot::record_wf((#[trigger] out@[k])@.record),
            forall|k: int|
                0 <= k < i ==> !(path_included(options@, (#[trigger] sv[k]).path) && content_lookup(
                    cv,
                    sv[k].path,
                ) is None),
        decreases n - i,
    {
        let e = &snapshot.entries[i];
        proof {
            assert(sv[i as int] == snapshot.entries@[i as int]@);
        }
        if included(options, &e.path) {
            match find_content(contents, &e.path) {
                Some(data_ref) => {
                    match data_ref {
                        Some(bytes) => {
                            let digest = sha256(bytes);
                            out.push(
                                crate::snapshot::SnapEntry {
                                    path: clone_bytes(&e.path),
                                    record: FileRecord {
                                        size_bytes: e.record.size_bytes,
                                        modified_timestamp: e.record.modified_timestamp,
                                        checksum_sha256: Some(digest),
                                    },
                                },
                            );
                        },
                        None => {
                            return Err(Error::IoError { path: clone_bytes(&e.path) });
                        },
                    }
                },
                None => {
                    return Err(Error::IoError { path: clone_bytes(&e.path) });
                },
            }
        } else {
            out.push(
                crate::snapshot::SnapEntry {
                    path: clone_bytes(&e.path),
                    record: e.record.duplicate(),
                },
            );
        }
        i = i + 1;
    }
    let s2 = Snapshot { entries: out, timestamp: snapshot.timestamp };
    proof {
        let ov = s2@.entries;
        assert(ov.len() == sv.len());
        assert forall|a: int, b: int| 0 <= a < b < ov.len() implies crate::paths::lex_lt(
            (#[trigger] ov[a]).path,
            (#[trigger] ov[b]).path,
        ) by {
            assert(ov[a].path == sv[a].path);
            assert(ov[b].path == sv[b].path);
        }
        assert forall|k: int| 0 <= k < ov.len() implies crate::snapshot::record_wf(
            (#[trigger] ov[k]).record,
        ) by {
            assert(ov[k].record == out@[k]@.record);
        }
    }
    Ok(s2)
}

/// A subtree named in `exclude_paths` never contributes an entry: no path
/// under it appears in the scanned snapshot, however the walk reported it.
pub proof fn lemma_excluded_subtree_absent(
    es: Seq<WalkEntryV>,
    o: ScanOptionsV,
    sv: Seq<crate::snapshot::EntryV>,
    p: Seq<u8>,
    k: int,
)
    requires
        forall|q: Seq<u8>| #[trigger] has_path(sv, q) <==> last_file_at(es, o, q) >= 0,
        0 <= k < o.exclude_paths.len(),
        path_starts_with(p, o.exclude_paths[k]),
    ensures
        !has_path(sv, p),
{
    if has_path(sv, p) {
        lemma_last_file_at(es, o, p);
        assert(path_included(o, p));
        assert(path_excluded(o, p));
    }
}

/// The checksum pass is a function of the snapshot, the contents and the
/// options alone: two outcomes of the same pass carry the same entries.
pub proof fn lemma_checksum_pass_deterministic(
    sv: Seq<crate::snapshot::EntryV>,
    cv: Seq<FileContentV>,
    o: ScanOptionsV,
    a: Seq<crate::snapshot::EntryV>,
    b: Seq<crate::snapshot::EntryV>,
)
    requires
        a.len() == sv.len(),
        b.len() == sv.len(),
        forall|k: int| 0 <= k < a.len() ==> (#[trigger] a[k]).path == sv[k].path,
        forall|k: int| 0 <= k < b.len() ==> (#[trigger] b[k]).path == sv[k].path,
        forall|k: int| 0 <= k < a.len() ==> (#[trigger] a[k]).record == checked_record(sv, cv, o, k),
        forall|k: int| 0 <= k < b.len() ==> (#[trigger] b[k]).record == checked_record(sv, cv, o, k),
    ensures
        a == b,
{
    assert forall|k: int| 0 <= k < a.len() implies #[trigger] a[k] == b[k] by {
        assert(a[k].path == b[k].path);
        assert(a[k].record == b[k].record);
    }
    assert(a =~= b);
}

} // verus!
