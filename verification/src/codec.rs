//! The snapshot record format: a length-prefixed little-endian binary
//! layout. Encoding and parsing are both specified on byte sequences, and
//! parsing an encoded well-formed snapshot gives that snapshot back.

use vstd::prelude::*;
use vstd::bytes::{spec_u64_to_le_bytes, spec_u64_from_le_bytes, lemma_auto_spec_u64_to_from_le_bytes,
    u64_to_le_bytes, u64_from_le_bytes};
use crate::paths::{lex_lt, lemma_lex_trans, path_cmp, PathOrder};
use crate::snapshot::{FileRecord, RecordV, SnapEntry, EntryV, Snapshot, SnapshotV, entries_wf,
    entries_sorted, record_wf};

verus! {

/// Encoding of an optional timestamp: a tag byte, then the seconds.
pub open spec fn enc_opt_i64(t: Option<i64>) -> Seq<u8> {
    match t {
        None => seq![0u8],
        Some(v) => seq![1u8] + spec_u64_to_le_bytes(v as u64),
    }
}

/// Encoding of one record: size, timestamp, then the optional digest.
pub open spec fn enc_record(r: RecordV) -> Seq<u8> {
    spec_u64_to_le_bytes(r.size_bytes) + enc_opt_i64(r.modified_timestamp) + (match r
        .checksum_sha256 {
        None => seq![0u8],
        Some(d) => seq![1u8] + d,
    })
}

/// Encoding of one entry: path length, path bytes, then the record.
pub open spec fn enc_entry(e: EntryV) -> Seq<u8> {
    spec_u64_to_le_bytes(e.path.len() as u64) + e.path + enc_record(e.record)
}

/// Encoding of the entry list, in snapshot order.
pub open spec fn enc_entries(es: Seq<EntryV>) -> Seq<u8>
    decreases es.len(),
{
    if es.len() == 0 {
        Seq::empty()
    } else {
        enc_entry(es[0]) + enc_entries(es.skip(1))
    }
}

/// The full record layout of a snapshot.
pub open spec fn spec_encode(s: SnapshotV) -> Seq<u8> {
    enc_opt_i64(s.timestamp) + spec_u64_to_le_bytes(s.entries.len() as u64) + enc_entries(s.entries)
}

/// Reads one byte.
pub open spec fn parse_tag(b: Seq<u8>, pos: int) -> Option<(u8, int)> {
    if 0 <= pos && pos + 1 <= b.len() {
        Some((b[pos], pos + 1))
    } else {
        None
    }
}

/// Reads a little-endian u64.
pub open spec fn parse_u64(b: Seq<u8>, pos: int) -> Option<(u64, int)> {
    if 0 <= pos && pos + 8 <= b.len() {
        Some((spec_u64_from_le_bytes(b.subrange(pos, pos + 8)), pos + 8))
    } else {
        None
    }
}

/// Reads `n` raw bytes.
pub open spec fn parse_bytes(b: Seq<u8>, pos: int, n: int) -> Option<(Seq<u8>, int)> {
    if 0 <= pos && 0 <= n && pos + n <= b.len() {
        Some((b.subrange(pos, pos + n), pos + n))
    } else {
        None
    }
}

/// Reads an optional timestamp.
pub open spec fn parse_opt_i64(b: Seq<u8>, pos: int) -> Option<(Option<i64>, int)> {
    match parse_tag(b, pos) {
        Some((tag, p1)) => if tag == 0 {
            Some((None, p1))
        } else if tag == 1 {
            match parse_u64(b, p1) {
                Some((x, p2)) => Some((Some(x as i64), p2)),
                None => None,
            }
        } else {
            None
        },
        None => None,
    }
}

/// Reads one record.
pub open spec fn parse_record(b: Seq<u8>, pos: int) -> Option<(RecordV, int)> {
    match parse_u64(b, pos) {
        Some((size, p1)) => match parse_opt_i64(b, p1) {
            Some((mt, p2)) => match parse_tag(b, p2) {
                Some((tag, p3)) => if tag == 0 {
                    Some(
                        (
                            RecordV {
                                size_bytes: size,
                                modified_timestamp: mt,
                                checksum_sha256: None,
                            },
                            p3,
                        ),
                    )
                } else if tag == 1 {
                    match parse_bytes(b, p3, 32) {
                        Some((d, p4)) => Some(
                            (
                                RecordV {
                                    size_bytes: size,
                                    modified_timestamp: mt,
                                    checksum_sha256: Some(d),
                                },
                                p4,
                            ),
                        ),
                        None => None,
                    }
                } else {
                    None
                },
                None => None,
            },
            None => None,
        },
        None => None,
    }
}

/// Reads one entry.
pub open spec fn parse_entry(b: Seq<u8>, pos: int) -> Option<(EntryV, int)> {
    match parse_u64(b, pos) {
        Some((plen, p1)) => match parse_bytes(b, p1, plen as int) {
            Some((path, p2)) => match parse_record(b, p2) {
                Some((rec, p3)) => Some((EntryV { path, record: rec }, p3)),
                None => None,
            },
            None => None,
        },
        None => None,
    }
}

/// Reads `n` entries.
pub open spec fn parse_entries(b: Seq<u8>, pos: int, n: nat) -> Option<(Seq<EntryV>, int)>
    decreases n,
{
    if n == 0 {
        Some((Seq::empty(), pos))
    } else {
        match parse_entry(b, pos) {
            Some((e, p1)) => match parse_entries(b, p1, (n - 1) as nat) {
                Some((es, p2)) => Some((seq![e] + es, p2)),
                None => None,
            },
            None => None,
        }
    }
}

/// Parses a full snapshot record. Trailing bytes, a malformed layout or an
/// entry order that breaks the snapshot invariant all yield `None`.
pub open spec fn spec_decode(b: Seq<u8>) -> Option<SnapshotV> {
    match parse_opt_i64(b, 0) {
        Some((ts, p1)) => match parse_u64(b, p1) {
            Some((cnt, p2)) => match parse_entries(b, p2, cnt as nat) {
                Some((es, p3)) => if p3 == b.len() && entries_wf(es) {
                    Some(SnapshotV { entries: es, timestamp: ts })
                } else {
                    None
                },
                None => None,
            },
            None => None,
        },
        None => None,
    }
}

/// Every path and the entry count fit in the length prefixes.
pub open spec fn encodable(s: SnapshotV) -> bool {
    &&& s.entries.len() <= u64::MAX
    &&& forall|k: int| 0 <= k < s.entries.len() ==> (#[trigger] s.entries[k]).path.len() <= u64::MAX
}

/// A signed timestamp survives the trip through its unsigned encoding.
proof fn lemma_i64_cast_round_trip(x: i64)
    ensures
        ((x as u64) as i64) == x,
{
    assert(((x as u64) as i64) == x) by (bit_vector);
}

/// Splitting a known subrange of `b` at a concatenation boundary.
proof fn lemma_split_subrange(b: Seq<u8>, pos: int, x: Seq<u8>, y: Seq<u8>)
    requires
        0 <= pos,
        pos + x.len() + y.len() <= b.len(),
        b.subrange(pos, pos + x.len() + y.len()) == x + y,
    ensures
        b.subrange(pos, pos + x.len() as int) == x,
        b.subrange(pos + x.len() as int, pos + x.len() + y.len()) == y,
{
    let l = pos + x.len() + y.len();
    assert forall|t: int| 0 <= t < x.len() implies b.subrange(pos, pos + x.len() as int)[t]
        == x[t] by {
        assert(b.subrange(pos, l)[t] == (x + y)[t]);
    }
    assert(b.subrange(pos, pos + x.len() as int) =~= x);
    assert forall|t: int| 0 <= t < y.len() implies b.subrange(
        pos + x.len() as int,
        l,
    )[t] == y[t] by {
        assert(b.subrange(pos, l)[t + x.len()] == (x + y)[t + x.len()]);
    }
    assert(b.subrange(pos + x.len() as int, l) =~= y);
}

/// A little-endian u64 in place parses back to its value.
proof fn lemma_parse_u64_at(b: Seq<u8>, pos: int, x: u64)
    requires
        0 <= pos,
        pos + 8 <= b.len(),
        b.subrange(pos, pos + 8) == spec_u64_to_le_bytes(x),
    ensures
        parse_u64(b, pos) == Some((x, pos + 8)),
{
    lemma_auto_spec_u64_to_from_le_bytes();
}

/// An encoded optional timestamp in place parses back.
proof fn lemma_parse_opt_i64_at(b: Seq<u8>, pos: int, t: Option<i64>)
    requires
        0 <= pos,
        pos + enc_opt_i64(t).len() <= b.len(),
        b.subrange(pos, pos + enc_opt_i64(t).len()) == enc_opt_i64(t),
    ensures
        parse_opt_i64(b, pos) == Some((t, pos + enc_opt_i64(t).len())),
{
    lemma_auto_spec_u64_to_from_le_bytes();
    match t {
        None => {
            assert(b[pos] == enc_opt_i64(t)[0]);
        },
        Some(v) => {
            let x = v as u64;
            lemma_split_subrange(b, pos, seq![1u8], spec_u64_to_le_bytes(x));
            assert(b.subrange(pos, pos + 1)[0] == b[pos]);
            assert(b[pos] == 1u8);
            lemma_parse_u64_at(b, pos + 1, x);
            lemma_i64_cast_round_trip(v);
        },
    }
}

/// An encoded record in place parses back.
proof fn lemma_parse_record_at(b: Seq<u8>, pos: int, r: RecordV)
    requires
        0 <= pos,
        record_wf(r),
        pos + enc_record(r).len() <= b.len(),
        b.subrange(pos, pos + enc_record(r).len()) == enc_record(r),
    ensures
        parse_record(b, pos) == Some((r, pos + enc_record(r).len())),
{
    lemma_auto_spec_u64_to_from_le_bytes();
    let sz = spec_u64_to_le_bytes(r.size_bytes);
    let mt = enc_opt_i64(r.modified_timestamp);
    let dg = match r.checksum_sha256 {
        None => seq![0u8],
        Some(d) => seq![1u8] + d,
    };
    assert(enc_record(r) == sz + mt + dg);
    assert((sz + mt) + dg =~= sz + (mt + dg));
    lemma_split_subrange(b, pos, sz, mt + dg);
    lemma_parse_u64_at(b, pos, r.size_bytes);
    let p1 = pos + 8;
    lemma_split_subrange(b, p1, mt, dg);
    lemma_parse_opt_i64_at(b, p1, r.modified_timestamp);
    let p2 = p1 + mt.len();
    match r.checksum_sha256 {
        None => {
            assert(b.subrange(p2, p2 + 1)[0] == b[p2]);
            assert(b[p2] == 0u8);
        },
        Some(d) => {
            lemma_split_subrange(b, p2, seq![1u8], d);
            assert(b.subrange(p2, p2 + 1)[0] == b[p2]);
            assert(b[p2] == 1u8);
            assert(d.len() == 32);
            assert(b.subrange(p2 + 1, p2 + 1 + 32) == d);
        },
    }
}

/// An encoded entry in place parses back.
proof fn lemma_parse_entry_at(b: Seq<u8>, pos: int, e: EntryV)
    requires
        0 <= pos,
        record_wf(e.record),
        e.path.len() <= u64::MAX,
        pos + enc_entry(e).len() <= b.len(),
        b.subrange(pos, pos + enc_entry(e).len()) == enc_entry(e),
    ensures
        parse_entry(b, pos) == Some((e, pos + enc_entry(e).len())),
{
    lemma_auto_spec_u64_to_from_le_bytes();
    let pl = spec_u64_to_le_bytes(e.path.len() as u64);
    let rc = enc_record(e.record);
    assert(enc_entry(e) == pl + e.path + rc);
    assert((pl + e.path) + rc =~= pl + (e.path + rc));
    lemma_split_subrange(b, pos, pl, e.path + rc);
    lemma_parse_u64_at(b, pos, e.path.len() as u64);
    let p1 = pos + 8;
    lemma_split_subrange(b, p1, e.path, rc);
    assert((e.path.len() as u64) as int == e.path.len() as int);
    let p2 = p1 + e.path.len();
    lemma_parse_record_at(b, p2, e.record);
}

/// An encoded entry list in place parses back.
proof fn lemma_parse_entries_at(b: Seq<u8>, pos: int, es: Seq<EntryV>)
    requires
        0 <= pos,
        forall|k: int| 0 <= k < es.len() ==> record_wf((#[trigger] es[k]).record),
        forall|k: int| 0 <= k < es.len() ==> (#[trigger] es[k]).path.len() <= u64::MAX,
        pos + enc_entries(es).len() <= b.len(),
        b.subrange(pos, pos + enc_entries(es).len()) == enc_entries(es),
    ensures
        parse_entries(b, pos, es.len() as nat) == Some((es, pos + enc_entries(es).len())),
    decreases es.len(),
{
    if es.len() == 0 {
        assert(parse_entries(b, pos, 0) == Some((Seq::<EntryV>::empty(), pos)));
        assert(es =~= Seq::<EntryV>::empty());
    } else {
        let e0 = es[0];
        let rest = es.skip(1);
        assert(enc_entries(es) == enc_entry(e0) + enc_entries(rest));
        lemma_split_subrange(b, pos, enc_entry(e0), enc_entries(rest));
        lemma_parse_entry_at(b, pos, e0);
        let p1 = pos + enc_entry(e0).len();
        assert forall|k: int| 0 <= k < rest.len() implies record_wf((#[trigger] rest[k]).record)
            && rest[k].path.len() <= u64::MAX by {
            assert(rest[k] == es[k + 1]);
        }
        lemma_parse_entries_at(b, p1, rest);
        assert(seq![e0] + rest =~= es);
    }
}

/// Parsing an encoded well-formed snapshot gives that snapshot back:
/// the record layout loses nothing.
pub proof fn lemma_codec_round_trip(s: SnapshotV)
    requires
        entries_wf(s.entries),
        encodable(s),
    ensures
        spec_decode(spec_encode(s)) == Some(s),
{
    lemma_auto_spec_u64_to_from_le_bytes();
    let b = spec_encode(s);
    let ts = enc_opt_i64(s.timestamp);
    let cnt = spec_u64_to_le_bytes(s.entries.len() as u64);
    let ents = enc_entries(s.entries);
    assert(b == ts + cnt + ents);
    assert((ts + cnt) + ents =~= ts + (cnt + ents));
    assert(b.subrange(0, b.len() as int) =~= b);
    lemma_split_subrange(b, 0, ts, cnt + ents);
    lemma_parse_opt_i64_at(b, 0, s.timestamp);
    let p1 = ts.len() as int;
    lemma_split_subrange(b, p1, cnt, ents);
    lemma_parse_u64_at(b, p1, s.entries.len() as u64);
    let p2 = p1 + 8;
    lemma_parse_entries_at(b, p2, s.entries);
    assert((s.entries.len() as u64) as nat == s.entries.len());
    assert(p2 + ents.len() == b.len());
}

/// Appending one entry to the list appends its encoding.
proof fn lemma_enc_entries_snoc(es: Seq<EntryV>, e: EntryV)
    ensures
        enc_entries(es.push(e)) == enc_entries(es) + enc_entry(e),
    decreases es.len(),
{
    if es.len() == 0 {
        assert(es.push(e)[0] == e);
        assert(es.push(e).skip(1) =~= Seq::<EntryV>::empty());
        assert(enc_entries(Seq::<EntryV>::empty()) == Seq::<u8>::empty());
        assert(enc_entries(es.push(e)) == enc_entry(e) + Seq::<u8>::empty());
        assert(enc_entry(e) + Seq::<u8>::empty() =~= enc_entry(e));
        assert(enc_entries(es) + enc_entry(e) =~= enc_entry(e));
    } else {
        assert(es.push(e)[0] == es[0]);
        assert(es.push(e).skip(1) =~= es.skip(1).push(e));
        lemma_enc_entries_snoc(es.skip(1), e);
        assert((enc_entry(es[0]) + enc_entries(es.skip(1))) + enc_entry(e) =~= enc_entry(es[0]) + (
        enc_entries(es.skip(1)) + enc_entry(e)));
    }
}

/// Serializes a snapshot into its record layout.
pub fn encode(s: &Snapshot) -> (r: Vec<u8>)
    requires
        s.wf(),
    ensures
        r@ == spec_encode(s@),
{
    let ghost sv = s@.entries;
    let mut out: Vec<u8> = Vec::new();
    match &s.timestamp {
        None => {
            out.push(0u8);
        },
        Some(t) => {
            out.push(1u8);
            let mut w = u64_to_le_bytes(*t as u64);
            out.append(&mut w);
        },
    }
    proof {
        assert(out@ =~= enc_opt_i64(s@.timestamp));
    }
    let cnt = s.entries.len();
    let mut wc = u64_to_le_bytes(cnt as u64);
    out.append(&mut wc);
    let ghost head = enc_opt_i64(s@.timestamp) + spec_u64_to_le_bytes(sv.len() as u64);
    proof {
        assert(out@ =~= head);
        assert(sv.subrange(0, 0) =~= Seq::<EntryV>::empty());
        assert(out@ =~= head + enc_entries(sv.subrange(0, 0)));
    }
    let mut i: usize = 0;
    while i < cnt
        invariant
            0 <= i <= cnt,
            cnt == s.entries.len(),
            sv == s@.entries,
            s.wf(),
            head == enc_opt_i64(s@.timestamp) + spec_u64_to_le_bytes(sv.len() as u64),
            out@ == head + enc_entries(sv.subrange(0, i as int)),
        decreases cnt - i,
    {
        let e = &s.entries[i];
        let ghost out0 = out@;
        let mut w1 = u64_to_le_bytes(e.path.len() as u64);
        out.append(&mut w1);
        let mut pb = crate::paths::clone_bytes(&e.path);
        out.append(&mut pb);
        let mut w2 = u64_to_le_bytes(e.record.size_bytes);
        out.append(&mut w2);
        match &e.record.modified_timestamp {
            None => {
                out.push(0u8);
            },
            Some(t) => {
                out.push(1u8);
                let mut w3 = u64_to_le_bytes(*t as u64);
                out.append(&mut w3);
            },
        }
        match &e.record.checksum_sha256 {
            None => {
                out.push(0u8);
            },
            Some(d) => {
                out.push(1u8);
                let mut db = crate::paths::clone_bytes(d);
                out.append(&mut db);
            },
        }
        proof {
            assert(sv[i as int] == s.entries@[i as int]@);
            assert(out@ =~= out0 + enc_entry(sv[i as int]));
            lemma_enc_entries_snoc(sv.subrange(0, i as int), sv[i as int]);
            assert(sv.subrange(0, i as int).push(sv[i as int]) =~= sv.subrange(0, i as int + 1));
            assert(out@ =~= head + enc_entries(sv.subrange(0, i as int + 1)));
        }
        i = i + 1;
    }
    proof {
        assert(sv.subrange(0, cnt as int) =~= sv);
    }
    out
}

/// Reads one byte of the record.
fn read_tag(b: &Vec<u8>, pos: usize) -> (r: Option<(u8, usize)>)
    ensures
        match r {
            Some(tp) => parse_tag(b@, pos as int) == Some((tp.0, tp.1 as int)),
            None => parse_tag(b@, pos as int) is None,
        },
{
    if pos < b.len() {
        Some((b[pos], pos + 1))
    } else {
        None
    }
}

/// Reads a little-endian u64 of the record.
fn read_u64(b: &Vec<u8>, pos: usize) -> (r: Option<(u64, usize)>)
    ensures
        match r {
            Some(xp) => parse_u64(b@, pos as int) == Some((xp.0, xp.1 as int)),
            None => parse_u64(b@, pos as int) is None,
        },
{
    let blen = b.len();
    if pos <= blen && blen - pos >= 8 {
        let mut tmp: Vec<u8> = Vec::new();
        let mut k: usize = 0;
        while k < 8
            invariant
                0 <= k <= 8,
                blen == b@.len(),
                pos + 8 <= blen,
                tmp@ == b@.subrange(pos as int, pos as int + k as int),
            decreases 8 - k,
        {
            tmp.push(b[pos + k]);
            proof {
                assert(tmp@ =~= b@.subrange(pos as int, pos as int + (k + 1) as int));
            }
            k = k + 1;
        }
        let x = u64_from_le_bytes(tmp.as_slice());
        Some((x, pos + 8))
    } else {
        None
    }
}

/// Reads `n` raw bytes of the record.
fn read_bytes(b: &Vec<u8>, pos: usize, n: usize) -> (r: Option<(Vec<u8>, usize)>)
    ensures
        match r {
            Some(dp) => parse_bytes(b@, pos as int, n as int) == Some((dp.0@, dp.1 as int)),
            None => parse_bytes(b@, pos as int, n as int) is None,
        },
{
    let blen = b.len();
    if pos <= blen && blen - pos >= n {
        let mut tmp: Vec<u8> = Vec::new();
        let mut k: usize = 0;
        while k < n
            invariant
                0 <= k <= n,
                blen == b@.len(),
                pos + n <= blen,
                tmp@ == b@.subrange(pos as int, pos as int + k as int),
            decreases n - k,
        {
            tmp.push(b[pos + k]);
            proof {
                assert(tmp@ =~= b@.subrange(pos as int, pos as int + (k + 1) as int));
            }
            k = k + 1;
        }
        Some((tmp, pos + n))
    } else {
        None
    }
}

/// Reads an optional timestamp of the record.
fn read_opt_i64(b: &Vec<u8>, pos: usize) -> (r: Option<(Option<i64>, usize)>)
    ensures
        match r {
            Some(tp) => parse_opt_i64(b@, pos as int) == Some((tp.0, tp.1 as int)),
            None => parse_opt_i64(b@, pos as int) is None,
        },
{
    match read_tag(b, pos) {
        Some((tag, p1)) => {
            if tag == 0 {
                Some((None, p1))
            } else if tag == 1 {
                match read_u64(b, p1) {
                    Some((x, p2)) => Some((Some(x as i64), p2)),
                    None => None,
                }
            } else {
                None
            }
        },
        None => None,
    }
}

/// Reads one file record.
fn read_record(b: &Vec<u8>, pos: usize) -> (r: Option<(FileRecord, usize)>)
    ensures
        match r {
            Some(rp) => parse_record(b@, pos as int) == Some((rp.0@, rp.1 as int)) && record_wf(
                rp.0@,
            ),
            None => parse_record(b@, pos as int) is None,
        },
{
    let (size, p1) = match read_u64(b, pos) {
        Some(x) => x,
        None => {
            return None;
        },
    };
    let (mt, p2) = match read_opt_i64(b, p1) {
        Some(x) => x,
        None => {
            return None;
        },
    };
    let (tag, p3) = match read_tag(b, p2) {
        Some(x) => x,
        None => {
            return None;
        },
    };
    if tag == 0 {
        Some(
            (
                FileRecord {
                    size_bytes: size,
                    modified_timestamp: mt,
                    checksum_sha256: None,
                },
                p3,
            ),
        )
    } else if tag == 1 {
        match read_bytes(b, p3, 32) {
            Some((d, p4)) => Some(
                (
                    FileRecord {
                        size_bytes: size,
                        modified_timestamp: mt,
                        checksum_sha256: Some(d),
                    },
                    p4,
                ),
            ),
            None => None,
        }
    } else {
        None
    }
}

/// Reads one snapshot entry.
fn read_entry(b: &Vec<u8>, pos: usize) -> (r: Option<(SnapEntry, usize)>)
    ensures
        match r {
            Some(ep) => parse_entry(b@, pos as int) == Some((ep.0@, ep.1 as int)) && record_wf(
                ep.0@.record,
            ) && ep.1 <= b@.len(),
            None => parse_entry(b@, pos as int) is None,
        },
{
    let (plen, p1) = match read_u64(b, pos) {
        Some(x) => x,
        None => {
            return None;
        },
    };
    let blen = b.len();
    proof {
        assert(p1 as int <= b@.len());
    }
    if plen > (blen - p1) as u64 {
        proof {
            assert(p1 as int + plen as int > b@.len());
            assert(parse_bytes(b@, p1 as int, plen as int) is None);
        }
        return None;
    }
    proof {
        assert(plen as int == (plen as usize) as int);
    }
    let (path, p2) = match read_bytes(b, p1, plen as usize) {
        Some(x) => x,
        None => {
            return None;
        },
    };
    let (rec, p3) = match read_record(b, p2) {
        Some(x) => x,
        None => {
            return None;
        },
    };
    Some((SnapEntry { path, record: rec }, p3))
}

/// Prefixing the accumulated entries onto a parse result.
spec fn entries_cont(acc: Seq<EntryV>, r: Option<(Seq<EntryV>, int)>) -> Option<
    (Seq<EntryV>, int),
> {
    match r {
        Some(ep) => Some((acc + ep.0, ep.1)),
        None => None,
    }
}

/// Strict order between every adjacent pair gives the full strict order.
proof fn lemma_span_lt(es: Seq<EntryV>, i: int, j: int)
    requires
        forall|k: int| 0 < k < es.len() ==> lex_lt((#[trigger] es[k - 1]).path, es[k].path),
        0 <= i < j < es.len(),
    ensures
        lex_lt(es[i].path, es[j].path),
    decreases j - i,
{
    if j == i + 1 {
        assert(lex_lt(es[j - 1].path, es[j].path));
    } else {
        lemma_span_lt(es, i, j - 1);
        assert(lex_lt(es[j - 1].path, es[j].path));
        lemma_lex_trans(es[i].path, es[j - 1].path, es[j].path);
    }
}

/// Parses a snapshot record; `None` means the bytes are corrupt.
#[verifier::rlimit(100)]
pub fn decode(bytes: &Vec<u8>) -> (r: Option<Snapshot>)
    ensures
        match spec_decode(bytes@) {
            Some(v) => r matches Some(s) && s@ == v && s.wf(),
            None => r is None,
        },
{
    let (ts, p1) = match read_opt_i64(bytes, 0) {
        Some(x) => x,
        None => {
            return None;
        },
    };
    let (cnt, p2) = match read_u64(bytes, p1) {
        Some(x) => x,
        None => {
            return None;
        },
    };
    let mut pos = p2;
    let mut out: Vec<SnapEntry> = Vec::new();
    let mut k: u64 = 0;
    while k < cnt
        invariant
            0 <= k <= cnt,
            parse_opt_i64(bytes@, 0) == Some((ts, p1 as int)),
            parse_u64(bytes@, p1 as int) == Some((cnt, p2 as int)),
            out@.len() == k,
            forall|t: int| 0 <= t < out@.len() ==> record_wf((#[trigger] out@[t])@.record),
            parse_entries(bytes@, p2 as int, cnt as nat) == entries_cont(
                out@.map_values(|e: SnapEntry| e@),
                parse_entries(bytes@, pos as int, (cnt - k) as nat),
            ),
        decreases cnt - k,
    {
        let ghost acc0 = out@.map_values(|e: SnapEntry| e@);
        match read_entry(bytes, pos) {
            Some((e, p)) => {
                let ghost ev = e@;
                proof {
                    let rec = parse_entries(bytes@, p as int, (cnt - (k + 1)) as nat);
                    assert(parse_entries(bytes@, pos as int, (cnt - k) as nat) == (match rec {
                        Some(ep) => Some((seq![ev] + ep.0, ep.1)),
                        None => None,
                    }));
                    if rec is Some {
                        let ep = rec->0;
                        assert((acc0.push(ev)) + ep.0 =~= acc0 + (seq![ev] + ep.0));
                    }
                }
                out.push(e);
                proof {
                    assert(out@.map_values(|e2: SnapEntry| e2@) =~= acc0.push(ev));
                }
                pos = p;
                k = k + 1;
            },
            None => {
                proof {
                    assert(parse_entries(bytes@, pos as int, (cnt - k) as nat) is None);
                    assert(parse_entries(bytes@, p2 as int, cnt as nat) is None);
                    assert(spec_decode(bytes@) is None);
                }
                return None;
            },
        }
    }
    proof {
        let accv = out@.map_values(|e: SnapEntry| e@);
        assert(parse_entries(bytes@, pos as int, 0) == Some((Seq::<EntryV>::empty(), pos as int)));
        assert(accv + Seq::<EntryV>::empty() =~= accv);
        assert(parse_entries(bytes@, p2 as int, cnt as nat) == Some((accv, pos as int)));
    }
    if pos != bytes.len() {
        return None;
    }
    let ghost es = out@.map_values(|e: SnapEntry| e@);
    let n = out.len();
    let mut i: usize = 1;
    while i < n
        invariant
            1 <= i <= n || (n == 0 && i == 1),
            n == out@.len(),
            es == out@.map_values(|e: SnapEntry| e@),
            parse_opt_i64(bytes@, 0) == Some((ts, p1 as int)),
            parse_u64(bytes@, p1 as int) == Some((cnt, p2 as int)),
            parse_entries(bytes@, p2 as int, cnt as nat) == Some((es, pos as int)),
            pos == bytes@.len(),
            forall|t: int| 0 < t < i ==> lex_lt((#[trigger] es[t - 1]).path, es[t].path),
        decreases n - i,
    {
        proof {
            assert(es[i as int] == out@[i as int]@);
            assert(es[i as int - 1] == out@[i as int - 1]@);
        }
        if !matches!(path_cmp(&out[i - 1].path, &out[i].path), PathOrder::Less) {
            proof {
                assert(!lex_lt(es[i as int - 1].path, es[i as int].path));
                assert(!entries_sorted(es));
            }
            return None;
        }
        i = i + 1;
    }
    proof {
        assert forall|a: int, b2: int| 0 <= a < b2 < es.len() implies lex_lt(
            (#[trigger] es[a]).path,
            (#[trigger] es[b2]).path,
        ) by {
            lemma_span_lt(es, a, b2);
        }
        assert forall|t: int| 0 <= t < es.len() implies record_wf((#[trigger] es[t]).record) by {
            assert(es[t] == out@[t]@);
        }
        assert(entries_wf(es));
    }
    Some(Snapshot { entries: out, timestamp: ts })
}

} // verus!
