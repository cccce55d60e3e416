//! Append log: an append-only sequence of encoded record frames, the
//! store's single source of truth.
//!
//! The log never rewrites or deletes existing bytes.  Replay walks the
//! frames from the start and stops cleanly at a trailing incomplete
//! frame — evidence of a crash mid-append — while a checksum mismatch or
//! an inconsistent frame anywhere else is reported as corruption.
//!
//! This module holds the log's bytes in memory; reading them from and
//! flushing them to durable storage is the embedding program's part.

use vstd::prelude::*;
use crate::codec::{
    GRecord, Record, Decoded, FrameParse, encoded, body_of, valid_record, parse_frame, decode,
    encode, push_bytes, lemma_parse_encoded_at, lemma_parse_inverts, lemma_parse_prefix_incomplete,
    lemma_parse_flip_corrupt,
};

verus! {

/// The bytes of a log that holds exactly the given records, in order.
pub open spec fn log_of(rs: Seq<GRecord>) -> Seq<u8>
    decreases rs.len(),
{
    if rs.len() == 0 {
        Seq::empty()
    } else {
        log_of(rs.drop_last()) + encoded(rs.last())
    }
}

/// The byte offset at which record `i`'s frame begins.
pub open spec fn start_of(rs: Seq<GRecord>, i: int) -> int {
    log_of(rs.take(i)).len() as int
}

pub open spec fn all_valid(rs: Seq<GRecord>) -> bool {
    forall|i: int| 0 <= i < rs.len() ==> valid_record(#[trigger] rs[i])
}

/// Appending one record extends the log bytes by that record's frame.
pub proof fn lemma_log_of_push(rs: Seq<GRecord>, r: GRecord)
    ensures
        log_of(rs.push(r)) == log_of(rs) + encoded(r),
{
    assert(rs.push(r).drop_last() =~= rs);
    assert(rs.push(r).last() == r);
}

/// Record `i`'s frame occupies `[start_of(i), start_of(i+1))`, inside the
/// log, and holds exactly that record's encoding.
pub proof fn lemma_log_segment(rs: Seq<GRecord>, i: int)
    requires
        all_valid(rs),
        0 <= i < rs.len(),
    ensures
        0 <= start_of(rs, i),
        start_of(rs, i) + encoded(rs[i]).len() == start_of(rs, i + 1),
        start_of(rs, i + 1) <= log_of(rs).len(),
        log_of(rs).subrange(start_of(rs, i), start_of(rs, i + 1)) == encoded(rs[i]),
    decreases rs.len(),
{
    if i == rs.len() - 1 {
        assert(rs.take(i) =~= rs.drop_last());
        assert(rs.take(i + 1) =~= rs);
        assert(log_of(rs).subrange(start_of(rs, i), start_of(rs, i + 1)) =~= encoded(rs[i]));
    } else {
        let shorter = rs.drop_last();
        assert(all_valid(shorter));
        lemma_log_segment(shorter, i);
        assert(shorter.take(i) =~= rs.take(i));
        assert(shorter.take(i + 1) =~= rs.take(i + 1));
        assert(log_of(rs).subrange(start_of(rs, i), start_of(rs, i + 1))
            =~= log_of(shorter).subrange(start_of(shorter, i), start_of(shorter, i + 1)));
    }
}

/// Every frame takes at least 24 bytes, so a log of `n` records holds at
/// least `24 * n` bytes.
pub proof fn lemma_log_len(rs: Seq<GRecord>)
    requires
        all_valid(rs),
    ensures
        log_of(rs).len() >= 24 * rs.len(),
    decreases rs.len(),
{
    if rs.len() > 0 {
        assert(all_valid(rs.drop_last()));
        lemma_log_len(rs.drop_last());
        assert(valid_record(rs.last()));
        assert(encoded(rs.last()).len() >= 24);
    }
}

/// Frame start offsets are non-decreasing in the record index.
pub proof fn lemma_start_mono(rs: Seq<GRecord>, a: int, b: int)
    requires
        all_valid(rs),
        0 <= a <= b <= rs.len(),
    ensures
        start_of(rs, a) <= start_of(rs, b),
        start_of(rs, b) <= log_of(rs).len(),
    decreases b - a,
{
    if a == b {
        if b == rs.len() {
            assert(rs.take(b) =~= rs);
        } else {
            lemma_log_segment(rs, b);
        }
    } else {
        lemma_log_segment(rs, a);
        lemma_start_mono(rs, a + 1, b);
    }
}

/// The outcome of replaying a log from a given offset: the records of
/// every complete well-formed frame and the offset where they end, or
/// corruption.
pub ghost enum ReplayRes {
    Done { recs: Seq<GRecord>, end: int },
    Corrupt,
}

/// Mathematical replay: parse frames one after another, stop cleanly at
/// a trailing incomplete frame, fail on corruption.
pub open spec fn replay_spec(bytes: Seq<u8>, o: int) -> ReplayRes
    recommends
        0 <= o <= bytes.len(),
    decreases bytes.len() - o,
{
    match parse_frame(bytes, o) {
        FrameParse::Incomplete => ReplayRes::Done { recs: Seq::empty(), end: o },
        FrameParse::Corrupt => ReplayRes::Corrupt,
        FrameParse::Frame { rec, next } => {
            if o < next <= bytes.len() {
                match replay_spec(bytes, next) {
                    ReplayRes::Done { recs, end } => ReplayRes::Done {
                        recs: seq![rec] + recs,
                        end,
                    },
                    ReplayRes::Corrupt => ReplayRes::Corrupt,
                }
            } else {
                ReplayRes::Corrupt
            }
        }
    }
}

/// Replay prefixed by records already consumed.
pub open spec fn replay_prepend(rs: Seq<GRecord>, r: ReplayRes) -> ReplayRes {
    match r {
        ReplayRes::Done { recs, end } => ReplayRes::Done { recs: rs + recs, end },
        ReplayRes::Corrupt => ReplayRes::Corrupt,
    }
}

/// Replaying a well-formed log — possibly followed by a trailing
/// incomplete frame — recovers exactly the records it was built from.
/// This is what makes recovery after a clean close (no tail) and after a
/// crash mid-append (a truncated trailing frame) exact.
#[verifier::rlimit(100)]
pub proof fn lemma_replay_of_log(rs: Seq<GRecord>, bytes: Seq<u8>, i: int)
    requires
        all_valid(rs),
        0 <= i <= rs.len(),
        log_of(rs).len() <= bytes.len(),
        bytes.subrange(0, log_of(rs).len() as int) == log_of(rs),
        parse_frame(bytes, log_of(rs).len() as int) is Incomplete,
    ensures
        replay_spec(bytes, start_of(rs, i)) == (ReplayRes::Done {
            recs: rs.skip(i),
            end: log_of(rs).len() as int,
        }),
    decreases rs.len() - i,
{
    if i == rs.len() {
        assert(rs.take(i) =~= rs);
        assert(rs.skip(i) =~= Seq::<GRecord>::empty());
    } else {
        lemma_log_segment(rs, i);
        let si = start_of(rs, i);
        let si1 = start_of(rs, i + 1);
        assert forall|k: int| si <= k < si1 implies bytes[k] == log_of(rs)[k] by {
            assert(bytes.subrange(0, log_of(rs).len() as int)[k] == bytes[k]);
        }
        assert(bytes.subrange(si, si1) =~= log_of(rs).subrange(si, si1));
        lemma_parse_encoded_at(bytes, si, rs[i]);
        lemma_replay_of_log(rs, bytes, i + 1);
        assert(seq![rs[i]] + rs.skip(i + 1) =~= rs.skip(i));
    }
}

/// Flipping one byte inside the body of any frame of a well-formed log
/// makes replay — and so recovery — report corruption.
pub proof fn lemma_replay_flip_corrupt(rs: Seq<GRecord>, j: int, q: int, b: u8, i: int)
    requires
        all_valid(rs),
        0 <= j < rs.len(),
        4 <= q < 4 + body_of(rs[j]).len(),
        b != log_of(rs)[start_of(rs, j) + q],
        0 <= i <= j,
    ensures
        replay_spec(log_of(rs).update(start_of(rs, j) + q, b), start_of(rs, i))
            == ReplayRes::Corrupt,
    decreases j - i,
{
    let p = start_of(rs, j) + q;
    let bytes = log_of(rs).update(p, b);
    lemma_log_segment(rs, j);
    let sj = start_of(rs, j);
    if i == j {
        assert forall|k: int| 0 <= k < encoded(rs[j]).len() && k != q
            implies bytes[sj + k] == encoded(rs[j])[k] by {
            assert(log_of(rs).subrange(sj, start_of(rs, j + 1))[k] == log_of(rs)[sj + k]);
        }
        assert(log_of(rs).subrange(sj, start_of(rs, j + 1))[q] == log_of(rs)[sj + q]);
        assert(bytes[sj + q] == b);
        assert(bytes[sj + q] != encoded(rs[j])[q]);
        lemma_parse_flip_corrupt(bytes, sj, rs[j], q);
    } else {
        lemma_log_segment(rs, i);
        let si = start_of(rs, i);
        let si1 = start_of(rs, i + 1);
        lemma_start_mono(rs, i + 1, j);
        assert(si1 <= sj);
        assert forall|k: int| si <= k < si1 implies bytes[k] == log_of(rs)[k] by {
            assert(k < sj + q);
        }
        assert(bytes.subrange(si, si1) =~= log_of(rs).subrange(si, si1));
        lemma_parse_encoded_at(bytes, si, rs[i]);
        lemma_replay_flip_corrupt(rs, j, q, b, i + 1);
    }
}

/// The append-only log.  Owns the raw bytes; appends are sequential and
/// the caller receives the offset where each frame begins.
pub struct AppendLog {
    bytes: Vec<u8>,
}

impl View for AppendLog {
    type V = Seq<u8>;

    closed spec fn view(&self) -> Seq<u8> {
        self.bytes@
    }
}

/// The outcome of replaying a log: every record of a complete
/// well-formed frame with its byte offset, and the offset where the
/// well-formed prefix ends; or corruption.
pub enum Replayed {
    Complete { records: Vec<Record>, offsets: Vec<usize>, end: usize },
    Corrupt,
}

impl AppendLog {
    /// An empty log: a file of length zero is a valid empty store.
    pub fn new() -> (l: AppendLog)
        ensures
            l@ == Seq::<u8>::empty(),
    {
        AppendLog { bytes: Vec::new() }
    }

    /// Adopts raw log bytes as read from durable storage.
    pub fn from_bytes(bytes: Vec<u8>) -> (l: AppendLog)
        ensures
            l@ == bytes@,
    {
        AppendLog { bytes }
    }

    /// Releases the raw bytes, e.g. for the embedding program to persist.
    pub fn into_bytes(self) -> (b: Vec<u8>)
        ensures
            b@ == self@,
    {
        self.bytes
    }

    pub fn len(&self) -> (n: usize)
        ensures
            n == self@.len(),
    {
        self.bytes.len()
    }

    /// A copy of the raw bytes, e.g. for persisting without closing.
    pub fn snapshot(&self) -> (b: Vec<u8>)
        ensures
            b@ == self@,
    {
        let b = crate::codec::copy_range(&self.bytes, 0, self.bytes.len());
        proof {
            assert(b@ =~= self@);
        }
        b
    }

    /// Appends one already-encoded frame and returns the byte offset
    /// where it begins.  Durability of the bytes is the embedding
    /// program's part; within the store the append is atomic.
    pub fn append(&mut self, frame: &Vec<u8>) -> (off: usize)
        ensures
            final(self)@ == old(self)@ + frame@,
            off == old(self)@.len(),
    {
        let off = self.bytes.len();
        push_bytes(&mut self.bytes, frame);
        off
    }

    /// Encodes and appends one record; returns the frame's offset.
    pub fn append_record(&mut self, rec: &Record) -> (off: usize)
        requires
            valid_record(rec@),
        ensures
            final(self)@ == old(self)@ + encoded(rec@),
            off == old(self)@.len(),
    {
        let frame = encode(rec);
        self.append(&frame)
    }

    /// Drops every byte from `len` on; used by recovery to discard a
    /// trailing incomplete frame so the next append overwrites it.
    pub fn truncate(&mut self, len: usize)
        requires
            len <= old(self)@.len(),
        ensures
            final(self)@ == old(self)@.subrange(0, len as int),
    {
        self.bytes.truncate(len);
    }

    /// Random-access read of the frame that begins at `offset`.  Yields
    /// `None` — logical "not found" — when `offset` lies beyond the log.
    pub fn read_at(&self, offset: usize) -> (d: Option<Decoded>)
        ensures
            match d {
                Option::None => offset > self@.len(),
                Option::Some(dd) => offset <= self@.len()
                    && crate::codec::decode_matches(dd, parse_frame(self@, offset as int)),
            },
    {
        if offset > self.bytes.len() {
            None
        } else {
            Some(decode(&self.bytes, offset))
        }
    }

    /// Replays every well-formed record from the start of the log in
    /// write order, stopping cleanly at a trailing incomplete frame.
    pub fn replay(&self) -> (r: Replayed)
        ensures
            match r {
                Replayed::Complete { records, offsets, end } => {
                    &&& replay_spec(self@, 0) matches ReplayRes::Done { recs, end: e } && {
                        &&& records@.len() == recs.len()
                        &&& forall|i: int| 0 <= i < recs.len() ==> #[trigger] records@[i]@
                            == recs[i]
                        &&& offsets@.len() == recs.len()
                        &&& forall|i: int| 0 <= i < recs.len() ==> #[trigger] offsets@[i]
                            == start_of(recs, i)
                        &&& all_valid(recs)
                        &&& end == e
                        &&& self@.subrange(0, end as int) == log_of(recs)
                        &&& end <= self@.len()
                    }
                },
                Replayed::Corrupt => replay_spec(self@, 0) is Corrupt,
            },
    {
        let mut records: Vec<Record> = Vec::new();
        let mut offsets: Vec<usize> = Vec::new();
        let mut pos: usize = 0;
        let ghost mut rs: Seq<GRecord> = Seq::empty();
        proof {
            assert(self@.subrange(0, 0) =~= log_of(rs));
            assert(rs + Seq::<GRecord>::empty() =~= rs);
        }
        loop
            invariant
                pos <= self@.len(),
                records@.len() == rs.len(),
                forall|i: int| 0 <= i < rs.len() ==> #[trigger] records@[i]@ == rs[i],
                offsets@.len() == rs.len(),
                forall|i: int| 0 <= i < rs.len() ==> #[trigger] offsets@[i] == start_of(rs, i),
                all_valid(rs),
                self@.subrange(0, pos as int) == log_of(rs),
                log_of(rs).len() == pos,
                replay_spec(self@, 0) == replay_prepend(rs, replay_spec(self@, pos as int)),
            decreases self@.len() - pos,
        {
            match decode(&self.bytes, pos) {
                Decoded::Incomplete => {
                    proof {
                        assert(rs + Seq::<GRecord>::empty() =~= rs);
                    }
                    return Replayed::Complete { records, offsets, end: pos };
                }
                Decoded::Corrupt => {
                    return Replayed::Corrupt;
                }
                Decoded::Frame { rec, next } => {
                    proof {
                        lemma_parse_inverts(self@, pos as int);
                        let g = rec@;
                        assert(self@.subrange(0, next as int)
                            =~= log_of(rs) + encoded(g));
                        lemma_log_of_push(rs, g);
                        assert forall|i: int| 0 <= i <= rs.len()
                            implies start_of(rs.push(g), i) == start_of(rs, i) by {
                            assert(rs.push(g).take(i) =~= rs.take(i));
                        }
                        assert(rs.push(g).take(rs.len() as int) =~= rs);
                        let z = replay_spec(self@, next as int);
                        assert(replay_spec(self@, pos as int)
                            == replay_prepend(seq![g], z));
                        match z {
                            ReplayRes::Done { recs, end } => {
                                assert(rs + (seq![g] + recs) =~= rs.push(g) + recs);
                            }
                            ReplayRes::Corrupt => {}
                        }
                        rs = rs.push(g);
                    }
                    records.push(rec);
                    offsets.push(pos);
                    pos = next;
                }
            }
        }
    }
}

} // verus!
