//! Store facade: the public key-value API over the append log and the
//! memory index.
//!
//! Every mutation is appended to the log before the index is touched —
//! the core correctness invariant: should the process stop between the
//! two steps, replaying the log rebuilds the correct index, because the
//! in-memory index is never the source of truth.  The store's visible
//! state is a mathematical map from keys to values; tombstoned keys are
//! absent from it.

use vstd::prelude::*;
use crate::codec::{
    GRecord, Record, RecordKind, Decoded, valid_key, valid_kv, copy_range,
};
use crate::log::{
    AppendLog, Replayed, ReplayRes, log_of, start_of, all_valid, replay_spec, lemma_log_of_push,
    lemma_log_segment, lemma_log_len, lemma_replay_of_log,
};
use crate::index::{MemIndex, index_spec, live_keys};

verus! {

broadcast use vstd::set::group_set_axioms, vstd::map::group_map_axioms;

/// The store's error taxonomy.  `Io` and `AlreadyOpen` arise only at the
/// durable-storage boundary, which the embedding program owns; the
/// verified core itself reports only `Corruption`.  Logical absence of a
/// key is an expected outcome and is represented as `None`, never as an
/// error.
#[derive(Clone, Copy, Debug, PartialEq, Eq, Structural)]
pub enum StoreError {
    Io,
    Corruption,
    AlreadyOpen,
}

/// The key-value mapping a record sequence amounts to: each `Put` sets
/// its key, each `Delete` removes it; later records win.
pub open spec fn kv_of(rs: Seq<GRecord>) -> Map<Seq<u8>, Seq<u8>>
    decreases rs.len(),
{
    if rs.len() == 0 {
        Map::empty()
    } else {
        let m = kv_of(rs.drop_last());
        if rs.last().kind is Put {
            m.insert(rs.last().key, rs.last().value)
        } else {
            m.remove(rs.last().key)
        }
    }
}

/// Sequence numbers as the store assigns them: the `i`th record of the
/// log carries sequence `i + 1`.
pub open spec fn seqs_from_one(rs: Seq<GRecord>) -> bool {
    forall|i: int| 0 <= i < rs.len() ==> #[trigger] rs[i].sequence == i + 1
}

/// Record `i` is the chronologically last record for key `k`.
pub open spec fn last_record_for(rs: Seq<GRecord>, k: Seq<u8>, i: int) -> bool {
    &&& 0 <= i < rs.len()
    &&& rs[i].key == k
    &&& forall|j: int| i < j < rs.len() ==> #[trigger] rs[j].key != k
}

/// What the index knows about a key is exactly what the log says: the
/// index maps `k` to the offset and kind of the last record for `k`, a
/// `Put` there means the key is present in the store's map with that
/// record's value, and a `Delete` means it is absent.
proof fn lemma_index_points(rs: Seq<GRecord>, k: Seq<u8>)
    ensures
        index_spec(rs).contains_key(k) <==> exists|i: int| last_record_for(rs, k, i),
        forall|i: int| last_record_for(rs, k, i) ==> {
            &&& index_spec(rs).contains_key(k)
            &&& index_spec(rs)[k] == (start_of(rs, i), rs[i].kind)
            &&& (rs[i].kind is Put ==> kv_of(rs).contains_key(k)
                && kv_of(rs)[k] == rs[i].value)
            &&& (rs[i].kind is Delete ==> !kv_of(rs).contains_key(k))
        },
        !index_spec(rs).contains_key(k) ==> !kv_of(rs).contains_key(k),
    decreases rs.len(),
{
    if rs.len() > 0 {
        let s0 = rs.drop_last();
        lemma_index_points(s0, k);
        let e = rs.last();
        let last = rs.len() - 1;
        assert(rs.take(last) =~= s0);
        if e.key == k {
            assert(last_record_for(rs, k, last));
            assert forall|i: int| last_record_for(rs, k, i) implies i == last by {
                if i < last {
                    assert(rs[last].key == k);
                }
            }
        } else {
            assert forall|i: int| last_record_for(rs, k, i)
                implies last_record_for(s0, k, i) && i < s0.len() by {
                assert(rs[i] == s0[i]);
            }
            assert forall|i: int| last_record_for(s0, k, i)
                implies last_record_for(rs, k, i) by {
                assert(rs[i] == s0[i]);
                assert forall|j: int| i < j < rs.len() implies #[trigger] rs[j].key != k by {
                    if j < s0.len() {
                        assert(rs[j] == s0[j]);
                    } else {
                        assert(rs[j] == e);
                    }
                }
            }
            assert forall|i: int| last_record_for(rs, k, i)
                implies start_of(rs, i) == start_of(s0, i) by {
                assert(rs.take(i) =~= s0.take(i));
            }
        }
    }
}

/// The keys the index counts as live are exactly the keys of the
/// store's map.
proof fn lemma_live_is_kv_dom(rs: Seq<GRecord>)
    ensures
        kv_of(rs).dom().finite(),
        live_keys(index_spec(rs)) == kv_of(rs).dom(),
    decreases rs.len(),
{
    if rs.len() == 0 {
        assert(kv_of(rs).dom() =~= Set::<Seq<u8>>::empty());
        assert(live_keys(index_spec(rs)) =~= Set::<Seq<u8>>::empty());
    } else {
        let s0 = rs.drop_last();
        lemma_live_is_kv_dom(s0);
        let e = rs.last();
        let m = index_spec(rs);
        assert(m == index_spec(s0).insert(e.key, (log_of(s0).len() as int, e.kind)));
        if e.kind is Put {
            assert(kv_of(rs).dom() =~= kv_of(s0).dom().insert(e.key));
            assert(live_keys(m) =~= live_keys(index_spec(s0)).insert(e.key));
        } else {
            assert(kv_of(rs).dom() =~= kv_of(s0).dom().remove(e.key));
            assert(live_keys(m) =~= live_keys(index_spec(s0)).remove(e.key));
        }
    }
}

/// The durable, crash-consistent key-value store: one append log, one
/// derived memory index, and the next sequence number to assign.
pub struct MiniKVStore {
    log: AppendLog,
    index: MemIndex,
    next_seq: u64,
    recs: Ghost<Seq<GRecord>>,
}

impl View for MiniKVStore {
    type V = Map<Seq<u8>, Seq<u8>>;

    /// The store's visible state: the mapping from keys to current
    /// values.  Tombstoned keys are absent.
    closed spec fn view(&self) -> Map<Seq<u8>, Seq<u8>> {
        kv_of(self.recs@)
    }
}

impl MiniKVStore {
    /// The records the append log holds, oldest first.
    pub closed spec fn records(&self) -> Seq<GRecord> {
        self.recs@
    }

    /// The raw bytes of the append log.
    pub closed spec fn log_bytes(&self) -> Seq<u8> {
        self.log@
    }

    /// The store's internal invariant: the log bytes are exactly the
    /// frames of its records, the index points each key at the last
    /// record for it, and sequence numbers run 1, 2, ... in log order.
    pub closed spec fn wf(&self) -> bool {
        &&& all_valid(self.recs@)
        &&& self.log@ == log_of(self.recs@)
        &&& self.index.wf()
        &&& self.index@ == index_spec(self.recs@)
        &&& seqs_from_one(self.recs@)
        &&& self.next_seq as int == self.recs@.len() + 1
    }

    /// A fresh, empty store: an empty log and an empty index.
    pub fn new() -> (s: MiniKVStore)
        ensures
            s.wf(),
            s@ == Map::<Seq<u8>, Seq<u8>>::empty(),
            s.records() == Seq::<GRecord>::empty(),
            s.log_bytes() == Seq::<u8>::empty(),
    {
        MiniKVStore {
            log: AppendLog::new(),
            index: MemIndex::new(),
            next_seq: 1,
            recs: Ghost(Seq::empty()),
        }
    }

    /// Opens a store from the raw bytes of its append log: replays every
    /// complete well-formed frame, rebuilds the index, and ignores a
    /// trailing incomplete frame as a crash mid-append.  Fails with
    /// `Corruption` — rather than silently dropping data — when replay
    /// meets a corrupt non-trailing frame, or when the sequence numbers
    /// are not the consecutive run the store itself writes.
    pub fn open(bytes: Vec<u8>) -> (r: Result<MiniKVStore, StoreError>)
        ensures
            match r {
                Result::Ok(s) => {
                    &&& s.wf()
                    &&& replay_spec(bytes@, 0) matches ReplayRes::Done { recs, end } && {
                        &&& s.records() == recs
                        &&& seqs_from_one(recs)
                        &&& s@ == kv_of(recs)
                        &&& s.log_bytes() == bytes@.subrange(0, end)
                    }
                },
                Result::Err(e) => {
                    &&& e is Corruption
                    &&& match replay_spec(bytes@, 0) {
                        ReplayRes::Done { recs, .. } => !seqs_from_one(recs),
                        ReplayRes::Corrupt => true,
                    }
                },
            },
    {
        let log = AppendLog::from_bytes(bytes);
        match log.replay() {
            Replayed::Corrupt => Err(StoreError::Corruption),
            Replayed::Complete { records, offsets, end } => {
                let ghost rs = replay_spec(log@, 0)->Done_recs;
                let mut i: usize = 0;
                while i < records.len()
                    invariant
                        i <= rs.len(),
                        records@.len() == rs.len(),
                        forall|j: int| 0 <= j < rs.len() ==> #[trigger] records@[j]@ == rs[j],
                        forall|j: int| 0 <= j < i ==> #[trigger] rs[j].sequence == j + 1,
                        replay_spec(bytes@, 0) is Done,
                        replay_spec(bytes@, 0)->Done_recs == rs,
                    decreases rs.len() - i,
                {
                    proof {
                        assert(i < u64::MAX);
                        assert(records@[i as int]@ == rs[i as int]);
                    }
                    if records[i].sequence != (i as u64) + 1 {
                        proof {
                            assert(rs[i as int].sequence != i + 1);
                            assert(!seqs_from_one(rs)) by {
                                if seqs_from_one(rs) {
                                    assert(rs[i as int].sequence == i + 1);
                                }
                            }
                        }
                        return Err(StoreError::Corruption);
                    }
                    i = i + 1;
                }
                let index = MemIndex::rebuild(&records, &offsets, Ghost(rs));
                let mut log = log;
                log.truncate(end);
                proof {
                    lemma_log_len(rs);
                    assert(rs.len() + 1 <= u64::MAX);
                }
                let next_seq = (records.len() as u64) + 1;
                Ok(MiniKVStore { log, index, next_seq, recs: Ghost(rs) })
            }
        }
    }

    /// A copy of the current log bytes, for the embedding program to
    /// flush to durable storage after a mutation.
    pub fn snapshot(&self) -> (b: Vec<u8>)
        ensures
            b@ == self.log_bytes(),
    {
        self.log.snapshot()
    }

    /// Hands back the raw log bytes, e.g. for the embedding program to
    /// persist; reopening a store from them restores the same state.
    pub fn close(self) -> (b: Vec<u8>)
        ensures
            b@ == self.log_bytes(),
    {
        let MiniKVStore { log, .. } = self;
        log.into_bytes()
    }

    /// The current value for `key`, or absent for a key never set or
    /// currently tombstoned: one index lookup, then one log read.
    pub fn get(&self, key: &Vec<u8>) -> (r: Option<Vec<u8>>)
        requires
            self.wf(),
        ensures
            match r {
                Option::Some(v) => self@.contains_key(key@) && v@ == self@[key@],
                Option::None => !self@.contains_key(key@),
            },
    {
        proof {
            lemma_index_points(self.recs@, key@);
        }
        match self.index.lookup(key) {
            None => None,
            Some((off, kind)) => {
                match kind {
                    RecordKind::Delete => {
                        proof {
                            let i = choose|i: int| last_record_for(self.recs@, key@, i);
                            assert(self.recs@[i].kind is Delete);
                        }
                        None
                    }
                    RecordKind::Put => {
                        let ghost rs = self.recs@;
                        proof {
                            let i = choose|i: int| last_record_for(rs, key@, i);
                            assert(index_spec(rs)[key@] == (start_of(rs, i), rs[i].kind));
                            assert(rs[i].kind is Put);
                            lemma_log_segment(rs, i);
                            crate::codec::lemma_parse_encoded_at(self.log@, start_of(rs, i),
                                rs[i]);
                        }
                        match self.log.read_at(off) {
                            Some(Decoded::Frame { rec, .. }) => Some(rec.value),
                            _ => {
                                proof {
                                    assert(false);
                                }
                                None
                            }
                        }
                    }
                }
            }
        }
    }

    /// Stores `value` under `key` and returns the previous value, or
    /// absent if the key was not present.  The put record is appended —
    /// durably, from the store's viewpoint — before the index is
    /// updated.
    pub fn set(&mut self, key: Vec<u8>, value: Vec<u8>) -> (prev: Option<Vec<u8>>)
        requires
            old(self).wf(),
            valid_kv(key@, value@),
        ensures
            final(self).wf(),
            final(self)@ == old(self)@.insert(key@, value@),
            final(self).records() == old(self).records().push(GRecord {
                kind: RecordKind::Put,
                sequence: (old(self).records().len() + 1) as u64,
                key: key@,
                value: value@,
            }),
            match prev {
                Option::Some(v) => old(self)@.contains_key(key@) && v@ == old(self)@[key@],
                Option::None => !old(self)@.contains_key(key@),
            },
    {
        let prev = self.get(&key);
        // materialize the log length: it bounds the record count, which
        // keeps the next sequence number within u64
        let _loglen = self.log.len();
        proof {
            lemma_log_len(self.recs@);
        }
        let rec = Record { kind: RecordKind::Put, sequence: self.next_seq, key, value };
        let ghost g = rec@;
        let off = self.log.append_record(&rec);
        let Record { key, .. } = rec;
        self.index.upsert(key, off, RecordKind::Put);
        self.next_seq = self.next_seq + 1;
        proof {
            self.recs@ = self.recs@.push(g);
            let rs0 = old(self).recs@;
            lemma_log_of_push(rs0, g);
            assert(self.recs@.drop_last() =~= rs0);
            assert(self.recs@.last() == g);
            assert(index_spec(self.recs@) == index_spec(rs0).insert(g.key,
                (log_of(rs0).len() as int, g.kind)));
            assert(kv_of(self.recs@) == kv_of(rs0).insert(key@, value@));
            assert(all_valid(self.recs@));
            assert(seqs_from_one(self.recs@));
        }
        prev
    }

    /// Removes `key` by appending a tombstone record, then tombstoning
    /// the index entry.  Returns the value present immediately before,
    /// or absent if the key was already absent; the tombstone stays in
    /// the log either way until a future compaction.
    pub fn delete(&mut self, key: &Vec<u8>) -> (prev: Option<Vec<u8>>)
        requires
            old(self).wf(),
            valid_key(key@),
        ensures
            final(self).wf(),
            final(self)@ == old(self)@.remove(key@),
            final(self).records() == old(self).records().push(GRecord {
                kind: RecordKind::Delete,
                sequence: (old(self).records().len() + 1) as u64,
                key: key@,
                value: Seq::empty(),
            }),
            match prev {
                Option::Some(v) => old(self)@.contains_key(key@) && v@ == old(self)@[key@],
                Option::None => !old(self)@.contains_key(key@),
            },
    {
        let prev = self.get(key);
        // materialize the log length: it bounds the record count, which
        // keeps the next sequence number within u64
        let _loglen = self.log.len();
        proof {
            lemma_log_len(self.recs@);
        }
        let owned = copy_range(key, 0, key.len());
        proof {
            assert(owned@ =~= key@);
        }
        let rec = Record {
            kind: RecordKind::Delete,
            sequence: self.next_seq,
            key: owned,
            value: Vec::new(),
        };
        let ghost g = rec@;
        let off = self.log.append_record(&rec);
        let Record { key: okey, .. } = rec;
        self.index.upsert(okey, off, RecordKind::Delete);
        self.next_seq = self.next_seq + 1;
        proof {
            self.recs@ = self.recs@.push(g);
            let rs0 = old(self).recs@;
            lemma_log_of_push(rs0, g);
            assert(self.recs@.drop_last() =~= rs0);
            assert(self.recs@.last() == g);
            assert(index_spec(self.recs@) == index_spec(rs0).insert(g.key,
                (log_of(rs0).len() as int, g.kind)));
            assert(kv_of(self.recs@) == kv_of(rs0).remove(key@));
            assert(all_valid(self.recs@));
            assert(seqs_from_one(self.recs@));
        }
        prev
    }

    /// How many keys are currently present; tombstoned keys do not
    /// count.
    pub fn count(&self) -> (n: usize)
        requires
            self.wf(),
        ensures
            self@.dom().finite(),
            n == self@.dom().len(),
    {
        proof {
            lemma_live_is_kv_dom(self.recs@);
        }
        self.index.len()
    }
}

/// Last-write-wins: two successive `set`s of the same key leave the
/// later value, whatever the map held before — by `set`'s contract the
/// store's map goes through two inserts, and `get` returns what the map
/// holds.
pub proof fn lemma_last_write_wins(
    m: Map<Seq<u8>, Seq<u8>>,
    k: Seq<u8>,
    v1: Seq<u8>,
    v2: Seq<u8>,
)
    ensures
        m.insert(k, v1).insert(k, v2).contains_key(k),
        m.insert(k, v1).insert(k, v2)[k] == v2,
{
}

/// Delete-then-get returns absent regardless of prior state: by
/// `delete`'s contract the key leaves the store's map, and `get` of an
/// absent key returns absent.
pub proof fn lemma_delete_then_get(m: Map<Seq<u8>, Seq<u8>>, k: Seq<u8>)
    ensures
        !m.remove(k).contains_key(k),
{
}

/// Recovery is exact: replaying the bytes of a well-formed store yields
/// precisely its records, so closing a store and reopening it from the
/// same bytes restores an identical map — identical `get` and `count`
/// results for every key.
pub proof fn lemma_recovery_exact(s: MiniKVStore)
    requires
        s.wf(),
    ensures
        replay_spec(s.log_bytes(), 0) == (ReplayRes::Done {
            recs: s.records(),
            end: s.log_bytes().len() as int,
        }),
        seqs_from_one(s.records()),
        s@ == kv_of(s.records()),
{
    let rs = s.records();
    assert(s.log_bytes().subrange(0, s.log_bytes().len() as int) =~= s.log_bytes());
    lemma_replay_of_log(rs, s.log_bytes(), 0);
    assert(rs.skip(0) =~= rs);
    assert(rs.take(0) =~= Seq::<GRecord>::empty());
}

/// Crash-truncation tolerance: a well-formed log followed by any strict
/// prefix of one more frame — a crash mid-append — replays to exactly
/// the records that were fully written, with the partial tail ignored.
pub proof fn lemma_truncated_tail_ignored(rs: Seq<GRecord>, r: GRecord, plen: int)
    requires
        all_valid(rs),
        crate::codec::valid_record(r),
        0 <= plen < crate::codec::encoded(r).len(),
    ensures
        replay_spec(log_of(rs) + crate::codec::encoded(r).subrange(0, plen), 0)
            == (ReplayRes::Done { recs: rs, end: log_of(rs).len() as int }),
{
    let tail = crate::codec::encoded(r).subrange(0, plen);
    let bytes = log_of(rs) + tail;
    let ll = log_of(rs).len() as int;
    assert(bytes.subrange(0, ll) =~= log_of(rs));
    assert(bytes.subrange(ll, ll + plen) =~= tail);
    crate::codec::lemma_parse_prefix_incomplete(bytes, ll, r, plen);
    lemma_replay_of_log(rs, bytes, 0);
    assert(rs.skip(0) =~= rs);
    assert(rs.take(0) =~= Seq::<GRecord>::empty());
}

/// Corruption detection: flipping any single byte inside the body of
/// any frame of a well-formed log makes replay — and with it `open` —
/// fail with a corruption error rather than silently repair the log.
pub proof fn lemma_flip_detected(rs: Seq<GRecord>, j: int, q: int, b: u8)
    requires
        all_valid(rs),
        0 <= j < rs.len(),
        4 <= q < 4 + crate::codec::body_of(rs[j]).len(),
        b != log_of(rs)[start_of(rs, j) + q],
    ensures
        replay_spec(log_of(rs).update(start_of(rs, j) + q, b), 0) == ReplayRes::Corrupt,
{
    crate::log::lemma_replay_flip_corrupt(rs, j, q, b, 0);
    assert(rs.take(0) =~= Seq::<GRecord>::empty());
}

} // verus!
