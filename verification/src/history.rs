//! The snapshot history store: an append-only, ordered list of persisted
//! snapshot records. Identifiers are monotonic handles, never reused; the
//! mapping from identifier to serialized payload is the only mutable state.
//! Durable storage of the records is the caller's business.

use vstd::prelude::*;
use crate::snapshot::{Snapshot, SnapshotV, entries_wf};
use crate::codec::{encode, decode, spec_encode, spec_decode, encodable, lemma_codec_round_trip};
use crate::errors::Error;

verus! {

/// One persisted snapshot record.
#[derive(Debug, Clone, PartialEq, Eq)]
pub struct HistoryRecord {
    /// Monotonic identifier, assigned at persist time.
    pub id: u64,
    /// The snapshot's finalized timestamp.
    pub timestamp: i64,
    /// The serialized snapshot.
    pub payload: Vec<u8>,
}

/// Mathematical model of a `HistoryRecord`.
pub ghost struct HistoryRecordV {
    pub id: u64,
    pub timestamp: i64,
    pub payload: Seq<u8>,
}

impl View for HistoryRecord {
    type V = HistoryRecordV;

    open spec fn view(&self) -> HistoryRecordV {
        HistoryRecordV { id: self.id, timestamp: self.timestamp, payload: self.payload@ }
    }
}

/// Whether some record carries identifier `id`.
pub open spec fn has_id(rs: Seq<HistoryRecordV>, id: u64) -> bool {
    exists|k: int| 0 <= k < rs.len() && (#[trigger] rs[k].id) == id
}

/// The index of the record carrying `id` (unique when identifiers ascend).
pub open spec fn index_of_id(rs: Seq<HistoryRecordV>, id: u64) -> int {
    choose|k: int| 0 <= k < rs.len() && (#[trigger] rs[k].id) == id
}

/// The payload stored under `id`.
pub open spec fn payload_of(rs: Seq<HistoryRecordV>, id: u64) -> Seq<u8> {
    rs[index_of_id(rs, id)].payload
}

/// A snapshot as it is finalized for persistence: an unset timestamp is
/// assigned, a set one is kept.
pub open spec fn finalize(s: SnapshotV, now: i64) -> SnapshotV {
    SnapshotV {
        entries: s.entries,
        timestamp: Some(
            match s.timestamp {
                Some(t) => t,
                None => now,
            },
        ),
    }
}

/// The ordered snapshot history.
#[derive(Debug, Clone, PartialEq, Eq)]
pub struct HistoryStore {
    pub records: Vec<HistoryRecord>,
}

impl View for HistoryStore {
    type V = Seq<HistoryRecordV>;

    open spec fn view(&self) -> Seq<HistoryRecordV> {
        self.records@.map_values(|x: HistoryRecord| x@)
    }
}

impl HistoryStore {
    /// Identifiers strictly ascend: the list is append-only and ordered.
    pub open spec fn wf(self) -> bool {
        forall|i: int, j: int|
            0 <= i < j < self@.len() ==> (#[trigger] self@[i].id) < (#[trigger] self@[j].id)
    }

    /// An empty history.
    pub fn new() -> (h: HistoryStore)
        ensures
            h.wf(),
            h@.len() == 0,
    {
        HistoryStore { records: Vec::new() }
    }

    /// Rebuilds a history from stored records; refuses identifiers that do
    /// not strictly ascend.
    pub fn from_records(records: Vec<HistoryRecord>) -> (r: Option<HistoryStore>)
        ensures
            match r {
                Some(h) => h.wf() && h@ == records@.map_values(|x: HistoryRecord| x@),
                None => !(forall|i: int, j: int|
                    0 <= i < j < records@.len() ==> (#[trigger] records@[i]@.id) < (
                    #[trigger] records@[j]@.id)),
            },
    {
        let ghost rv = records@.map_values(|x: HistoryRecord| x@);
        let n = records.len();
        let mut i: usize = 1;
        while i < n
            invariant
                1 <= i <= n || (n == 0 && i == 1),
                n == records@.len(),
                rv == records@.map_values(|x: HistoryRecord| x@),
                forall|t: int| 0 < t < i ==> (#[trigger] rv[t - 1].id) < rv[t].id,
            decreases n - i,
        {
            proof {
                assert(rv[i as int] == records@[i as int]@);
                assert(rv[i as int - 1] == records@[i as int - 1]@);
            }
            if records[i - 1].id >= records[i].id {
                proof {
                    assert(records@[i as int - 1]@.id >= records@[i as int]@.id);
                }
                return None;
            }
            i = i + 1;
        }
        proof {
            assert forall|a: int, b: int| 0 <= a < b < rv.len() implies (#[trigger] rv[a].id) < (
            #[trigger] rv[b].id) by {
                lemma_span_ids(rv, a, b);
            }
        }
        let h = HistoryStore { records };
        proof {
            assert(h@ =~= rv);
        }
        Some(h)
    }

    /// Number of persisted snapshots.
    pub fn count(&self) -> (n: usize)
        ensures
            n == self@.len(),
    {
        self.records.len()
    }

    /// Finalizes and appends a snapshot, assigning a fresh identifier that
    /// is greater than every identifier already in the history.
    pub fn persist(&mut self, snapshot: Snapshot, now: i64) -> (id: u64)
        requires
            old(self).wf(),
            snapshot.wf(),
            old(self)@.len() == 0 || old(self)@.last().id < u64::MAX,
        ensures
            final(self).wf(),
            final(self)@ == old(self)@.push(
                HistoryRecordV {
                    id,
                    timestamp: finalize(snapshot@, now).timestamp->0,
                    payload: spec_encode(finalize(snapshot@, now)),
                },
            ),
            forall|k: int| 0 <= k < old(self)@.len() ==> (#[trigger] old(self)@[k].id) < id,
            final(self)@.last().id == id,
            has_id(final(self)@, id),
            payload_of(final(self)@, id) == spec_encode(finalize(snapshot@, now)),
    {
        let ghost r0 = self@;
        let ghost sv = snapshot@;
        let ts: i64 = match snapshot.timestamp {
            Some(t) => t,
            None => now,
        };
        let finalized = Snapshot { entries: snapshot.entries, timestamp: Some(ts) };
        proof {
            assert(finalized@ == finalize(sv, now));
        }
        let payload = encode(&finalized);
        let n = self.records.len();
        proof {
            if n > 0 {
                assert(self@[n - 1] == self.records@[n - 1]@);
                assert(self@[n - 1] == self@.last());
            }
        }
        let id: u64 = if n == 0 {
            1
        } else {
            self.records[n - 1].id + 1
        };
        proof {
            assert forall|k: int| 0 <= k < r0.len() implies (#[trigger] r0[k].id) < id by {
                if k < r0.len() - 1 {
                    assert(r0[k].id < r0[r0.len() - 1].id);
                }
            }
        }
        let rec = HistoryRecord { id, timestamp: ts, payload };
        let ghost recx = rec;
        self.records.push(rec);
        proof {
            assert(self@ =~= r0.push(recx@));
            assert(self@.last() == recx@);
            lemma_id_at(self@, self@.len() - 1);
        }
        id
    }

    /// The identifier of the most recently persisted snapshot, if any.
    pub fn latest(&self) -> (r: Option<u64>)
        ensures
            match r {
                Some(id) => self@.len() > 0 && id == self@.last().id,
                None => self@.len() == 0,
            },
    {
        let n = self.records.len();
        if n == 0 {
            None
        } else {
            Some(self.records[n - 1].id)
        }
    }

    /// Retrieves and deserializes the snapshot persisted under `id`.
    pub fn load(&self, id: u64) -> (r: Result<Snapshot, Error>)
        requires
            self.wf(),
        ensures
            match r {
                Ok(s) => {
                    &&& has_id(self@, id)
                    &&& spec_decode(payload_of(self@, id)) == Some(s@)
                    &&& s.wf()
                },
                Err(e) => match e {
                    Error::NotFoundError { id: missing } => missing == id && !has_id(self@, id),
                    Error::CorruptionError { id: bad } => bad == id && has_id(self@, id)
                        && spec_decode(payload_of(self@, id)) is None,
                    _ => false,
                },
            },
    {
        let n = self.records.len();
        let mut i: usize = 0;
        while i < n
            invariant
                0 <= i <= n,
                n == self@.len(),
                self.wf(),
                forall|k: int| 0 <= k < i ==> (#[trigger] self@[k].id) != id,
            decreases n - i,
        {
            proof {
                assert(self@[i as int] == self.records@[i as int]@);
            }
            if self.records[i].id == id {
                proof {
                    lemma_id_at(self@, i as int);
                }
                match decode(&self.records[i].payload) {
                    Some(s) => {
                        return Ok(s);
                    },
                    None => {
                        return Err(Error::CorruptionError { id });
                    },
                }
            }
            i = i + 1;
        }
        proof {
            if has_id(self@, id) {
                let k = index_of_id(self@, id);
                assert(0 <= k < self@.len() && self@[k].id == id);
            }
        }
        Err(Error::NotFoundError { id })
    }
}

/// In a history with ascending identifiers, a record's index is the index
/// of its identifier.
pub proof fn lemma_id_at(rs: Seq<HistoryRecordV>, i: int)
    requires
        forall|a: int, b: int| 0 <= a < b < rs.len() ==> (#[trigger] rs[a].id) < (#[trigger] rs[b].id),
        0 <= i < rs.len(),
    ensures
        has_id(rs, rs[i].id),
        index_of_id(rs, rs[i].id) == i,
        payload_of(rs, rs[i].id) == rs[i].payload,
{
    assert(0 <= i < rs.len() && rs[i].id == rs[i].id);
    let j = index_of_id(rs, rs[i].id);
    if j < i {
        assert(rs[j].id < rs[i].id);
    } else if j > i {
        assert(rs[i].id < rs[j].id);
    }
}

/// Ascending adjacent identifiers ascend across any distance.
proof fn lemma_span_ids(rs: Seq<HistoryRecordV>, i: int, j: int)
    requires
        forall|t: int| 0 < t < rs.len() ==> (#[trigger] rs[t - 1].id) < rs[t].id,
        0 <= i < j < rs.len(),
    ensures
        rs[i].id < rs[j].id,
    decreases j - i,
{
    if j == i + 1 {
        assert(rs[j - 1].id < rs[j].id);
    } else {
        lemma_span_ids(rs, i, j - 1);
        assert(rs[j - 1].id < rs[j].id);
    }
}

/// Persisting and loading back reproduces the snapshot's entries exactly;
/// only an unset timestamp is filled in.
pub proof fn lemma_persist_load_round_trip(s: SnapshotV, now: i64)
    requires
        entries_wf(s.entries),
        encodable(s),
    ensures
        spec_decode(spec_encode(finalize(s, now))) == Some(finalize(s, now)),
        finalize(s, now).entries == s.entries,
{
    lemma_codec_round_trip(finalize(s, now));
}

} // verus!
