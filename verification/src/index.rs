//! Memory index: an in-memory mapping from key to the byte offset and
//! kind of the latest record for that key in the append log.
//!
//! The index is a derived, rebuildable cache: it holds nothing that
//! replaying the append log cannot reconstruct, so it may be discarded
//! and rebuilt freely.  Later records override earlier ones for the same
//! key, which yields last-write-wins semantics.

use vstd::prelude::*;
use crate::codec::{GRecord, Record, RecordKind};
use crate::log::{log_of, start_of};

verus! {

broadcast use vstd::set::group_set_axioms, vstd::map::group_map_axioms;

/// One index entry: the key, and where its latest record begins.
pub struct IndexEntry {
    pub key: Vec<u8>,
    pub offset: usize,
    pub kind: RecordKind,
}

/// The mapping a sequence of entries stands for; later entries override
/// earlier ones.
pub open spec fn map_of(s: Seq<IndexEntry>) -> Map<Seq<u8>, (int, RecordKind)>
    decreases s.len(),
{
    if s.len() == 0 {
        Map::empty()
    } else {
        map_of(s.drop_last()).insert(
            s.last().key@,
            (s.last().offset as int, s.last().kind),
        )
    }
}

pub open spec fn unique_keys(s: Seq<IndexEntry>) -> bool {
    forall|i: int, j: int| 0 <= i < j < s.len() ==> s[i].key@ != s[j].key@
}

/// How many entries currently map to a live (`Put`) record.
pub open spec fn count_puts(s: Seq<IndexEntry>) -> int
    decreases s.len(),
{
    if s.len() == 0 {
        0
    } else {
        count_puts(s.drop_last()) + if s.last().kind is Put {
            1int
        } else {
            0int
        }
    }
}

/// The keys whose latest record is a `Put`: the keys that are logically
/// present.
pub open spec fn live_keys(m: Map<Seq<u8>, (int, RecordKind)>) -> Set<Seq<u8>> {
    m.dom().filter(|k: Seq<u8>| m[k].1 is Put)
}

/// The mapping the index holds after replaying `rs`: each key points at
/// the offset and kind of its chronologically last record.
pub open spec fn index_spec(rs: Seq<GRecord>) -> Map<Seq<u8>, (int, RecordKind)>
    decreases rs.len(),
{
    if rs.len() == 0 {
        Map::empty()
    } else {
        index_spec(rs.drop_last()).insert(
            rs.last().key,
            (log_of(rs.drop_last()).len() as int, rs.last().kind),
        )
    }
}

proof fn lemma_map_of_entry(s: Seq<IndexEntry>, j: int)
    requires
        unique_keys(s),
        0 <= j < s.len(),
    ensures
        map_of(s).contains_key(s[j].key@),
        map_of(s)[s[j].key@] == (s[j].offset as int, s[j].kind),
    decreases s.len(),
{
    if j < s.len() - 1 {
        assert(unique_keys(s.drop_last()));
        lemma_map_of_entry(s.drop_last(), j);
        assert(s.last().key@ != s[j].key@);
    }
}

proof fn lemma_map_of_absent(s: Seq<IndexEntry>, k: Seq<u8>)
    requires
        forall|j: int| 0 <= j < s.len() ==> s[j].key@ != k,
    ensures
        !map_of(s).contains_key(k),
    decreases s.len(),
{
    if s.len() > 0 {
        lemma_map_of_absent(s.drop_last(), k);
    }
}

proof fn lemma_map_of_update(s: Seq<IndexEntry>, j: int, e: IndexEntry)
    requires
        unique_keys(s),
        0 <= j < s.len(),
        s[j].key@ == e.key@,
    ensures
        map_of(s.update(j, e)) == map_of(s).insert(e.key@, (e.offset as int, e.kind)),
    decreases s.len(),
{
    let upd = s.update(j, e);
    if j == s.len() - 1 {
        assert(upd.drop_last() =~= s.drop_last());
        assert(map_of(s.update(j, e)) =~= map_of(s).insert(e.key@, (e.offset as int, e.kind)));
    } else {
        assert(unique_keys(s.drop_last()));
        assert(upd.drop_last() =~= s.drop_last().update(j, e));
        lemma_map_of_update(s.drop_last(), j, e);
        assert(s.last().key@ != e.key@);
        assert(map_of(upd) =~= map_of(s).insert(e.key@, (e.offset as int, e.kind)));
    }
}

proof fn lemma_live_count(s: Seq<IndexEntry>)
    requires
        unique_keys(s),
    ensures
        map_of(s).dom().finite(),
        live_keys(map_of(s)).finite(),
        live_keys(map_of(s)).len() == count_puts(s),
    decreases s.len(),
{
    if s.len() == 0 {
        assert(map_of(s).dom() =~= Set::<Seq<u8>>::empty());
        assert(live_keys(map_of(s)) =~= Set::<Seq<u8>>::empty());
    } else {
        let s0 = s.drop_last();
        assert(unique_keys(s0));
        lemma_live_count(s0);
        let e = s.last();
        let k = e.key@;
        let m0 = map_of(s0);
        let m = map_of(s);
        assert(forall|j: int| 0 <= j < s0.len() ==> s0[j].key@ != k);
        lemma_map_of_absent(s0, k);
        assert(m.dom() =~= m0.dom().insert(k));
        if e.kind is Put {
            assert(live_keys(m) =~= live_keys(m0).insert(k));
            assert(!live_keys(m0).contains(k));
        } else {
            assert(live_keys(m) =~= live_keys(m0));
        }
    }
}

fn bytes_eq(a: &Vec<u8>, b: &Vec<u8>) -> (r: bool)
    ensures
        r == (a@ == b@),
{
    if a.len() != b.len() {
        proof {
            assert(a@ != b@);
        }
        return false;
    }
    let mut i: usize = 0;
    while i < a.len()
        invariant
            i <= a@.len(),
            a@.len() == b@.len(),
            forall|j: int| 0 <= j < i ==> a@[j] == b@[j],
        decreases a@.len() - i,
    {
        if a[i] != b[i] {
            proof {
                assert(a@ != b@);
            }
            return false;
        }
        i = i + 1;
    }
    proof {
        assert(a@ =~= b@);
    }
    true
}

/// The in-memory index.  Keys are unique; lookup scans the entries.
pub struct MemIndex {
    entries: Vec<IndexEntry>,
}

impl View for MemIndex {
    type V = Map<Seq<u8>, (int, RecordKind)>;

    closed spec fn view(&self) -> Map<Seq<u8>, (int, RecordKind)> {
        map_of(self.entries@)
    }
}

impl MemIndex {
    /// The index keeps one entry per key.
    pub closed spec fn wf(&self) -> bool {
        unique_keys(self.entries@)
    }

    /// An empty index.
    pub fn new() -> (idx: MemIndex)
        ensures
            idx.wf(),
            idx@ == Map::<Seq<u8>, (int, RecordKind)>::empty(),
    {
        MemIndex { entries: Vec::new() }
    }

    /// Where the latest record for `key` begins and what kind it is, or
    /// absent for a key the log has never seen.
    pub fn lookup(&self, key: &Vec<u8>) -> (r: Option<(usize, RecordKind)>)
        requires
            self.wf(),
        ensures
            match r {
                Option::Some(p) => self@.contains_key(key@)
                    && self@[key@] == (p.0 as int, p.1),
                Option::None => !self@.contains_key(key@),
            },
    {
        let mut i: usize = 0;
        while i < self.entries.len()
            invariant
                self.wf(),
                i <= self.entries@.len(),
                forall|j: int| 0 <= j < i ==> self.entries@[j].key@ != key@,
            decreases self.entries@.len() - i,
        {
            if bytes_eq(&self.entries[i].key, key) {
                proof {
                    lemma_map_of_entry(self.entries@, i as int);
                }
                return Some((self.entries[i].offset, self.entries[i].kind));
            }
            i = i + 1;
        }
        proof {
            lemma_map_of_absent(self.entries@, key@);
        }
        None
    }

    /// Points `key` at a new latest record; called once per successful
    /// append, and repeatedly by rebuild.
    pub fn upsert(&mut self, key: Vec<u8>, offset: usize, kind: RecordKind)
        requires
            old(self).wf(),
        ensures
            final(self).wf(),
            final(self)@ == old(self)@.insert(key@, (offset as int, kind)),
    {
        let mut i: usize = 0;
        while i < self.entries.len()
            invariant
                self.wf(),
                self == old(self),
                i <= self.entries@.len(),
                forall|j: int| 0 <= j < i ==> self.entries@[j].key@ != key@,
            decreases self.entries@.len() - i,
        {
            if bytes_eq(&self.entries[i].key, &key) {
                let e = IndexEntry { key, offset, kind };
                proof {
                    lemma_map_of_update(self.entries@, i as int, e);
                    assert forall|a: int, b: int|
                        0 <= a < b < self.entries@.update(i as int, e).len()
                        implies self.entries@.update(i as int, e)[a].key@
                            != self.entries@.update(i as int, e)[b].key@ by {
                        assert(self.entries@[a].key@ != self.entries@[b].key@);
                    }
                }
                self.entries[i] = e;
                return;
            }
            i = i + 1;
        }
        proof {
            lemma_map_of_absent(self.entries@, key@);
        }
        let e = IndexEntry { key, offset, kind };
        self.entries.push(e);
        proof {
            assert(self.entries@.drop_last() =~= old(self).entries@);
            assert forall|a: int, b: int| 0 <= a < b < self.entries@.len()
                implies self.entries@[a].key@ != self.entries@[b].key@ by {
                if b < self.entries@.len() - 1 {
                    assert(old(self).entries@[a].key@ != old(self).entries@[b].key@);
                }
            }
        }
    }

    /// Rebuilds the index from a replayed record sequence: for each
    /// record in write order, the mapping for its key is updated, so
    /// later records override earlier ones.
    pub fn rebuild(
        records: &Vec<Record>,
        offsets: &Vec<usize>,
        Ghost(rs): Ghost<Seq<GRecord>>,
    ) -> (idx: MemIndex)
        requires
            records@.len() == rs.len(),
            offsets@.len() == rs.len(),
            forall|i: int| 0 <= i < rs.len() ==> #[trigger] records@[i]@ == rs[i],
            forall|i: int| 0 <= i < rs.len() ==> #[trigger] offsets@[i] == start_of(rs, i),
        ensures
            idx.wf(),
            idx@ == index_spec(rs),
    {
        let mut idx = MemIndex::new();
        let mut i: usize = 0;
        proof {
            assert(rs.take(0) =~= Seq::<GRecord>::empty());
        }
        while i < records.len()
            invariant
                i <= rs.len(),
                records@.len() == rs.len(),
                offsets@.len() == rs.len(),
                forall|j: int| 0 <= j < rs.len() ==> #[trigger] records@[j]@ == rs[j],
                forall|j: int| 0 <= j < rs.len() ==> #[trigger] offsets@[j] == start_of(rs, j),
                idx.wf(),
                idx@ == index_spec(rs.take(i as int)),
            decreases rs.len() - i,
        {
            let key = crate::codec::copy_range(&records[i].key, 0, records[i].key.len());
            proof {
                assert(key@ =~= records@[i as int]@.key);
                let t1 = rs.take(i + 1 as int);
                assert(t1.drop_last() =~= rs.take(i as int));
                assert(t1.last() == rs[i as int]);
                assert(index_spec(t1) == index_spec(rs.take(i as int)).insert(
                    rs[i as int].key,
                    (log_of(rs.take(i as int)).len() as int, rs[i as int].kind),
                ));
            }
            idx.upsert(key, offsets[i], records[i].kind);
            i = i + 1;
        }
        proof {
            assert(rs.take(rs.len() as int) =~= rs);
        }
        idx
    }

    /// How many keys are logically present: keys whose latest record is
    /// a `Put`.  Tombstoned keys are not counted.
    pub fn len(&self) -> (n: usize)
        requires
            self.wf(),
        ensures
            live_keys(self@).finite(),
            n == live_keys(self@).len(),
    {
        let mut n: usize = 0;
        let mut i: usize = 0;
        proof {
            assert(self.entries@.take(0) =~= Seq::<IndexEntry>::empty());
        }
        while i < self.entries.len()
            invariant
                i <= self.entries@.len(),
                self.wf(),
                n == count_puts(self.entries@.take(i as int)),
                n <= i,
            decreases self.entries@.len() - i,
        {
            proof {
                let t1 = self.entries@.take(i + 1 as int);
                assert(t1.drop_last() =~= self.entries@.take(i as int));
                assert(t1.last() == self.entries@[i as int]);
            }
            match self.entries[i].kind {
                RecordKind::Put => {
                    n = n + 1;
                }
                RecordKind::Delete => {}
            }
            i = i + 1;
        }
        proof {
            assert(self.entries@.take(self.entries@.len() as int) =~= self.entries@);
            lemma_live_count(self.entries@);
        }
        n
    }
}

} // verus!
