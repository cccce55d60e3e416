//! Record codec: one key-value entry (or tombstone) to and from a
//! self-delimiting binary frame.
//!
//! Frame layout, all integers little-endian:
//! `[4-byte body length][body][4-byte checksum]` where the body is
//! `[1-byte kind][8-byte sequence][2-byte key length][key bytes]
//!  [4-byte value length][value bytes]`.
//! The checksum covers the whole body, so a crash-truncated or corrupted
//! frame is detected on decode.  Decoding distinguishes a trailing
//! incomplete frame (safe to ignore during recovery) from genuine
//! corruption (a mismatching checksum or an inconsistent body).

use vstd::prelude::*;
use vstd::arithmetic::div_mod::{lemma_add_mod_noop, lemma_small_mod, lemma_mod_multiples_vanish};

verus! {

/// Whether a record stores a value for its key or marks the key deleted.
#[derive(Clone, Copy, PartialEq, Eq, Structural, Debug)]
pub enum RecordKind {
    Put,
    Delete,
}

/// One entry of the append log: a key, a value (empty for tombstones),
/// the kind of the entry, and the sequence number assigned at write time.
#[derive(Debug)]
pub struct Record {
    pub kind: RecordKind,
    pub sequence: u64,
    pub key: Vec<u8>,
    pub value: Vec<u8>,
}

/// Mathematical model of a record.
pub ghost struct GRecord {
    pub kind: RecordKind,
    pub sequence: u64,
    pub key: Seq<u8>,
    pub value: Seq<u8>,
}

impl View for Record {
    type V = GRecord;

    open spec fn view(&self) -> GRecord {
        GRecord {
            kind: self.kind,
            sequence: self.sequence,
            key: self.key@,
            value: self.value@,
        }
    }
}

/// A record the codec accepts: a non-empty key of at most 65535 bytes, a
/// value whose length fits the 32-bit length field together with the rest
/// of the body, and no value on a tombstone.
pub open spec fn valid_record(r: GRecord) -> bool {
    &&& 1 <= r.key.len() <= 0xFFFF
    &&& 15 + r.key.len() + r.value.len() <= 0xFFFF_FFFF
    &&& r.kind is Delete ==> r.value.len() == 0
}

/// A key the store accepts: 1 to 65535 bytes, otherwise opaque.
pub open spec fn valid_key(k: Seq<u8>) -> bool {
    1 <= k.len() <= 0xFFFF
}

/// A key-value pair whose put record the codec can frame: the body and
/// its 32-bit length field must accommodate both.
pub open spec fn valid_kv(k: Seq<u8>, v: Seq<u8>) -> bool {
    &&& valid_key(k)
    &&& 15 + k.len() + v.len() <= 0xFFFF_FFFF
}

pub open spec fn kind_byte(k: RecordKind) -> u8 {
    match k {
        RecordKind::Put => 0,
        RecordKind::Delete => 1,
    }
}

pub open spec fn u16_le(x: u16) -> Seq<u8> {
    seq![(x & 0xff) as u8, ((x >> 8) & 0xff) as u8]
}

pub open spec fn u32_le(x: u32) -> Seq<u8> {
    seq![
        (x & 0xff) as u8,
        ((x >> 8) & 0xff) as u8,
        ((x >> 16) & 0xff) as u8,
        ((x >> 24) & 0xff) as u8,
    ]
}

pub open spec fn u64_le(x: u64) -> Seq<u8> {
    seq![
        (x & 0xff) as u8,
        ((x >> 8) & 0xff) as u8,
        ((x >> 16) & 0xff) as u8,
        ((x >> 24) & 0xff) as u8,
        ((x >> 32) & 0xff) as u8,
        ((x >> 40) & 0xff) as u8,
        ((x >> 48) & 0xff) as u8,
        ((x >> 56) & 0xff) as u8,
    ]
}

pub open spec fn le_u16(b0: u8, b1: u8) -> u16 {
    (b0 as u16) | ((b1 as u16) << 8)
}

pub open spec fn le_u32(b0: u8, b1: u8, b2: u8, b3: u8) -> u32 {
    (b0 as u32) | ((b1 as u32) << 8) | ((b2 as u32) << 16) | ((b3 as u32) << 24)
}

pub open spec fn le_u64(b0: u8, b1: u8, b2: u8, b3: u8, b4: u8, b5: u8, b6: u8, b7: u8) -> u64 {
    (b0 as u64) | ((b1 as u64) << 8) | ((b2 as u64) << 16) | ((b3 as u64) << 24)
        | ((b4 as u64) << 32) | ((b5 as u64) << 40) | ((b6 as u64) << 48) | ((b7 as u64) << 56)
}

/// Position weight of a checksummed byte: bytes are folded into a 32-bit
/// word by their offset modulo 4, so flipping any single byte moves the
/// sum by a non-zero amount smaller than 2^32.
pub open spec fn weight(i: int) -> int {
    if i == 0 {
        1
    } else if i == 1 {
        0x100
    } else if i == 2 {
        0x10000
    } else {
        0x1000000
    }
}

/// Unreduced checksum: the position-weighted sum of the bytes.
pub open spec fn cksum_sum(s: Seq<u8>) -> int
    decreases s.len(),
{
    if s.len() == 0 {
        0
    } else {
        cksum_sum(s.drop_last()) + s.last() * weight(((s.len() - 1) as int) % 4)
    }
}

/// The frame checksum: the weighted byte sum reduced modulo 2^32.
pub open spec fn cksum(s: Seq<u8>) -> u32 {
    (cksum_sum(s) % 0x1_0000_0000) as u32
}

fn le16(b0: u8, b1: u8) -> (x: u16)
    ensures
        x == le_u16(b0, b1),
{
    (b0 as u16) | ((b1 as u16) << 8u16)
}

fn le32(b0: u8, b1: u8, b2: u8, b3: u8) -> (x: u32)
    ensures
        x == le_u32(b0, b1, b2, b3),
{
    (b0 as u32) | ((b1 as u32) << 8u32) | ((b2 as u32) << 16u32) | ((b3 as u32) << 24u32)
}

fn le64(b0: u8, b1: u8, b2: u8, b3: u8, b4: u8, b5: u8, b6: u8, b7: u8) -> (x: u64)
    ensures
        x == le_u64(b0, b1, b2, b3, b4, b5, b6, b7),
{
    (b0 as u64) | ((b1 as u64) << 8u64) | ((b2 as u64) << 16u64) | ((b3 as u64) << 24u64)
        | ((b4 as u64) << 32u64) | ((b5 as u64) << 40u64) | ((b6 as u64) << 48u64)
        | ((b7 as u64) << 56u64)
}

/// The body of a record's frame: everything between the length field and
/// the checksum field.
pub open spec fn body_of(r: GRecord) -> Seq<u8> {
    seq![kind_byte(r.kind)] + u64_le(r.sequence) + u16_le(r.key.len() as u16) + r.key
        + u32_le(r.value.len() as u32) + r.value
}

/// The complete frame a record is persisted as.
pub open spec fn encoded(r: GRecord) -> Seq<u8> {
    u32_le(body_of(r).len() as u32) + body_of(r) + u32_le(cksum(body_of(r)))
}

/// The outcome of parsing one frame at a byte offset: a record and the
/// offset of the next frame, a trailing incomplete frame, or corruption.
pub ghost enum FrameParse {
    Frame { rec: GRecord, next: int },
    Incomplete,
    Corrupt,
}

/// What parsing one frame of `bytes` at offset `o` yields.  Too few bytes
/// for a whole frame is `Incomplete`; a checksum mismatch or an
/// inconsistent body is `Corrupt`.
pub open spec fn parse_frame(bytes: Seq<u8>, o: int) -> FrameParse
    recommends
        0 <= o <= bytes.len(),
{
    let n = bytes.len() as int;
    if n - o < 24 {
        FrameParse::Incomplete
    } else {
        let blen = le_u32(bytes[o], bytes[o + 1], bytes[o + 2], bytes[o + 3]) as int;
        if n - o < blen + 8 {
            FrameParse::Incomplete
        } else if blen < 16 {
            FrameParse::Corrupt
        } else {
            let body = bytes.subrange(o + 4, o + 4 + blen);
            let stored = le_u32(
                bytes[o + 4 + blen],
                bytes[o + 5 + blen],
                bytes[o + 6 + blen],
                bytes[o + 7 + blen],
            );
            if cksum(body) != stored {
                FrameParse::Corrupt
            } else {
                let sequence = le_u64(
                    body[1], body[2], body[3], body[4], body[5], body[6], body[7], body[8],
                );
                let klen = le_u16(body[9], body[10]) as int;
                if klen < 1 || 15 + klen > blen {
                    FrameParse::Corrupt
                } else {
                    let key = body.subrange(11, 11 + klen);
                    let vlen = le_u32(
                        body[11 + klen], body[12 + klen], body[13 + klen], body[14 + klen],
                    ) as int;
                    if 15 + klen + vlen != blen {
                        FrameParse::Corrupt
                    } else {
                        let value = body.subrange(15 + klen, blen);
                        if body[0] == 0 {
                            FrameParse::Frame {
                                rec: GRecord { kind: RecordKind::Put, sequence, key, value },
                                next: o + 8 + blen,
                            }
                        } else if body[0] == 1 && vlen == 0 {
                            FrameParse::Frame {
                                rec: GRecord { kind: RecordKind::Delete, sequence, key, value },
                                next: o + 8 + blen,
                            }
                        } else {
                            FrameParse::Corrupt
                        }
                    }
                }
            }
        }
    }
}

/// The checksum of `bytes[start..end]`, computed in one pass.
pub fn checksum_range(bytes: &Vec<u8>, start: usize, end: usize) -> (c: u32)
    requires
        start <= end <= bytes@.len(),
    ensures
        c == cksum(bytes@.subrange(start as int, end as int)),
{
    let mut acc: u64 = 0;
    let mut i: usize = start;
    proof {
        assert(bytes@.subrange(start as int, start as int) =~= Seq::<u8>::empty());
    }
    while i < end
        invariant
            start <= i <= end <= bytes@.len(),
            acc == cksum_sum(bytes@.subrange(start as int, i as int)) % 0x1_0000_0000,
        decreases end - i,
    {
        let b = bytes[i];
        let w: u64 = match (i - start) % 4 {
            0 => 1,
            1 => 0x100,
            2 => 0x10000,
            _ => 0x1000000,
        };
        let addend: u64 = (b as u64) * w;
        proof {
            let s = bytes@.subrange(start as int, i as int);
            let s2 = bytes@.subrange(start as int, i + 1 as int);
            assert(s2.drop_last() =~= s);
            assert(s2.last() == bytes@[i as int]);
            assert(cksum_sum(s2) == cksum_sum(s) + b * weight((i - start) as int % 4));
            assert(addend == b * weight((i - start) as int % 4));
            lemma_small_mod(addend as nat, 0x1_0000_0000);
            lemma_add_mod_noop(cksum_sum(s), addend as int, 0x1_0000_0000);
        }
        acc = (acc + addend) % 0x1_0000_0000;
        i = i + 1;
    }
    acc as u32
}

pub proof fn lemma_u16_round(x: u16)
    ensures
        le_u16(u16_le(x)[0], u16_le(x)[1]) == x,
{
    assert(((x & 0xff) as u8 as u16) | ((((x >> 8) & 0xff) as u8 as u16) << 8) == x)
        by (bit_vector);
}

pub proof fn lemma_u32_round(x: u32)
    ensures
        le_u32(u32_le(x)[0], u32_le(x)[1], u32_le(x)[2], u32_le(x)[3]) == x,
{
    assert(((x & 0xff) as u8 as u32) | ((((x >> 8) & 0xff) as u8 as u32) << 8)
        | ((((x >> 16) & 0xff) as u8 as u32) << 16) | ((((x >> 24) & 0xff) as u8 as u32) << 24)
        == x) by (bit_vector);
}

pub proof fn lemma_u64_round(x: u64)
    ensures
        le_u64(
            u64_le(x)[0], u64_le(x)[1], u64_le(x)[2], u64_le(x)[3],
            u64_le(x)[4], u64_le(x)[5], u64_le(x)[6], u64_le(x)[7],
        ) == x,
{
    assert(((x & 0xff) as u8 as u64) | ((((x >> 8) & 0xff) as u8 as u64) << 8)
        | ((((x >> 16) & 0xff) as u8 as u64) << 16) | ((((x >> 24) & 0xff) as u8 as u64) << 24)
        | ((((x >> 32) & 0xff) as u8 as u64) << 32) | ((((x >> 40) & 0xff) as u8 as u64) << 40)
        | ((((x >> 48) & 0xff) as u8 as u64) << 48) | ((((x >> 56) & 0xff) as u8 as u64) << 56)
        == x) by (bit_vector);
}

pub proof fn lemma_u16_bytes(b0: u8, b1: u8)
    ensures
        u16_le(le_u16(b0, b1)) == seq![b0, b1],
{
    let x = le_u16(b0, b1);
    assert({
        let y = (b0 as u16) | ((b1 as u16) << 8);
        &&& (y & 0xff) as u8 == b0
        &&& ((y >> 8) & 0xff) as u8 == b1
    }) by (bit_vector);
    assert(u16_le(x) =~= seq![b0, b1]);
}

pub proof fn lemma_u32_bytes(b0: u8, b1: u8, b2: u8, b3: u8)
    ensures
        u32_le(le_u32(b0, b1, b2, b3)) == seq![b0, b1, b2, b3],
{
    let x = le_u32(b0, b1, b2, b3);
    assert({
        let y = (b0 as u32) | ((b1 as u32) << 8) | ((b2 as u32) << 16) | ((b3 as u32) << 24);
        &&& (y & 0xff) as u8 == b0
        &&& ((y >> 8) & 0xff) as u8 == b1
        &&& ((y >> 16) & 0xff) as u8 == b2
        &&& ((y >> 24) & 0xff) as u8 == b3
    }) by (bit_vector);
    assert(u32_le(x) =~= seq![b0, b1, b2, b3]);
}

pub proof fn lemma_u64_bytes(b0: u8, b1: u8, b2: u8, b3: u8, b4: u8, b5: u8, b6: u8, b7: u8)
    ensures
        u64_le(le_u64(b0, b1, b2, b3, b4, b5, b6, b7)) == seq![b0, b1, b2, b3, b4, b5, b6, b7],
{
    let x = le_u64(b0, b1, b2, b3, b4, b5, b6, b7);
    assert({
        let y = (b0 as u64) | ((b1 as u64) << 8) | ((b2 as u64) << 16) | ((b3 as u64) << 24)
            | ((b4 as u64) << 32) | ((b5 as u64) << 40) | ((b6 as u64) << 48)
            | ((b7 as u64) << 56);
        &&& (y & 0xff) as u8 == b0
        &&& ((y >> 8) & 0xff) as u8 == b1
        &&& ((y >> 16) & 0xff) as u8 == b2
        &&& ((y >> 24) & 0xff) as u8 == b3
        &&& ((y >> 32) & 0xff) as u8 == b4
        &&& ((y >> 40) & 0xff) as u8 == b5
        &&& ((y >> 48) & 0xff) as u8 == b6
        &&& ((y >> 56) & 0xff) as u8 == b7
    }) by (bit_vector);
    assert(u64_le(x) =~= seq![b0, b1, b2, b3, b4, b5, b6, b7]);
}

/// Parsing at the start of an encoded frame recovers exactly the record
/// that was encoded, wherever the frame sits and whatever follows it.
pub proof fn lemma_parse_encoded_at(bytes: Seq<u8>, o: int, r: GRecord)
    requires
        valid_record(r),
        0 <= o,
        o + encoded(r).len() <= bytes.len(),
        bytes.subrange(o, o + encoded(r).len()) == encoded(r),
    ensures
        parse_frame(bytes, o) == (FrameParse::Frame { rec: r, next: o + encoded(r).len() }),
{
    let body = body_of(r);
    let blen = body.len() as int;
    let frame = encoded(r);
    let flen = blen + 8;
    let klen = r.key.len() as int;
    let vlen = r.value.len() as int;
    assert(blen == 15 + klen + vlen);
    assert(frame.len() == flen);
    let sub = bytes.subrange(o, o + flen);
    assert forall|k: int| 0 <= k < flen implies bytes[o + k] == frame[k] by {
        assert(sub[k] == bytes[o + k]);
    }
    // the length field
    let lb = u32_le(blen as u32);
    assert(frame[0] == lb[0] && frame[1] == lb[1] && frame[2] == lb[2] && frame[3] == lb[3]);
    lemma_u32_round(blen as u32);
    assert(le_u32(bytes[o], bytes[o + 1], bytes[o + 2], bytes[o + 3]) == blen as u32);
    // the body
    let pbody = bytes.subrange(o + 4, o + 4 + blen);
    assert forall|k: int| 0 <= k < blen implies pbody[k] == body[k] by {
        assert(pbody[k] == bytes[o + 4 + k]);
        assert(frame[4 + k] == body[k]);
    }
    assert(pbody =~= body);
    // the checksum field
    let ckb = u32_le(cksum(body));
    assert(frame[4 + blen] == ckb[0] && frame[5 + blen] == ckb[1] && frame[6 + blen] == ckb[2]
        && frame[7 + blen] == ckb[3]);
    lemma_u32_round(cksum(body));
    assert(le_u32(bytes[o + 4 + blen], bytes[o + 5 + blen], bytes[o + 6 + blen],
        bytes[o + 7 + blen]) == cksum(body));
    // the fields of the body
    let sq = u64_le(r.sequence);
    let kl = u16_le(klen as u16);
    let vl = u32_le(vlen as u32);
    let p1 = seq![kind_byte(r.kind)] + sq;
    let p2 = p1 + kl;
    let p3 = p2 + r.key;
    let p4 = p3 + vl;
    assert(body == p4 + r.value);
    assert(body[0] == kind_byte(r.kind));
    assert forall|j: int| 0 <= j < 8 implies body[1 + j] == sq[j] by {
        assert(body[1 + j] == p4[1 + j]);
        assert(p4[1 + j] == p3[1 + j]);
        assert(p3[1 + j] == p2[1 + j]);
        assert(p2[1 + j] == p1[1 + j]);
        assert(p1[1 + j] == sq[j]);
    }
    lemma_u64_round(r.sequence);
    assert(le_u64(body[1], body[2], body[3], body[4], body[5], body[6], body[7], body[8])
        == r.sequence);
    assert forall|j: int| 0 <= j < 2 implies body[9 + j] == kl[j] by {
        assert(body[9 + j] == p4[9 + j]);
        assert(p4[9 + j] == p3[9 + j]);
        assert(p3[9 + j] == p2[9 + j]);
        assert(p2[9 + j] == kl[j]);
    }
    lemma_u16_round(klen as u16);
    assert(le_u16(body[9], body[10]) == klen as u16);
    assert forall|k: int| 0 <= k < klen implies body[11 + k] == r.key[k] by {
        assert(body[11 + k] == p4[11 + k]);
        assert(p4[11 + k] == p3[11 + k]);
        assert(p3[11 + k] == r.key[k]);
    }
    assert(body.subrange(11, 11 + klen) =~= r.key);
    assert forall|j: int| 0 <= j < 4 implies body[11 + klen + j] == vl[j] by {
        assert(body[11 + klen + j] == p4[11 + klen + j]);
        assert(p4[11 + klen + j] == vl[j]);
    }
    lemma_u32_round(vlen as u32);
    assert(le_u32(body[11 + klen], body[12 + klen], body[13 + klen], body[14 + klen])
        == vlen as u32);
    assert forall|k: int| 0 <= k < vlen implies body[15 + klen + k] == r.value[k] by {
        assert(body[15 + klen + k] == r.value[k]);
    }
    assert(body.subrange(15 + klen, blen) =~= r.value);
    match r.kind {
        RecordKind::Put => {
            assert(body[0] == 0);
        }
        RecordKind::Delete => {
            assert(body[0] == 1 && vlen == 0);
        }
    }
}

proof fn lemma_cksum_sum_diff(s1: Seq<u8>, s2: Seq<u8>, i: int)
    requires
        s1.len() == s2.len(),
        0 <= i < s1.len(),
        forall|j: int| 0 <= j < s1.len() && j != i ==> s1[j] == s2[j],
    ensures
        cksum_sum(s1) - cksum_sum(s2) == (s1[i] - s2[i]) * weight(i % 4),
    decreases s1.len(),
{
    if i == s1.len() - 1 {
        assert(s1.drop_last() =~= s2.drop_last());
        let a = s1[i] as int;
        let b = s2[i] as int;
        let w = weight(i % 4);
        assert(a * w - b * w == (a - b) * w) by (nonlinear_arith);
    } else {
        lemma_cksum_sum_diff(s1.drop_last(), s2.drop_last(), i);
        assert(s1.last() == s2.last());
    }
}

proof fn lemma_mod_neq(x: int, d: int, m: int)
    requires
        0 < d < m,
    ensures
        (x + d) % m != x % m,
{
    let r = x % m;
    vstd::arithmetic::div_mod::lemma_mod_bound(x, m);
    lemma_small_mod(d as nat, m as nat);
    lemma_add_mod_noop(x, d, m);
    if r + d < m {
        lemma_small_mod((r + d) as nat, m as nat);
    } else {
        lemma_mod_multiples_vanish(-1, r + d, m);
        lemma_small_mod((r + d - m) as nat, m as nat);
    }
}

/// The checksum detects every single-byte change.
pub proof fn lemma_cksum_flip(s1: Seq<u8>, s2: Seq<u8>, i: int)
    requires
        s1.len() == s2.len(),
        0 <= i < s1.len(),
        s1[i] != s2[i],
        forall|j: int| 0 <= j < s1.len() && j != i ==> s1[j] == s2[j],
    ensures
        cksum(s1) != cksum(s2),
{
    lemma_cksum_sum_diff(s1, s2, i);
    let a = s1[i] as int;
    let b = s2[i] as int;
    let w = weight(i % 4);
    let m = 0x1_0000_0000 as int;
    vstd::arithmetic::div_mod::lemma_mod_bound(cksum_sum(s1), m);
    vstd::arithmetic::div_mod::lemma_mod_bound(cksum_sum(s2), m);
    if a > b {
        let d = (a - b) * w;
        assert(0 < d < 0x1_0000_0000) by (nonlinear_arith)
            requires
                1 <= a - b <= 255,
                1 <= w <= 0x1000000,
                d == (a - b) * w,
        ;
        lemma_mod_neq(cksum_sum(s2), d, m);
    } else {
        let d = (b - a) * w;
        assert(0 < d < 0x1_0000_0000) by (nonlinear_arith)
            requires
                1 <= b - a <= 255,
                1 <= w <= 0x1000000,
                d == (b - a) * w,
        ;
        assert(cksum_sum(s2) - cksum_sum(s1) == d) by (nonlinear_arith)
            requires
                cksum_sum(s1) - cksum_sum(s2) == (a - b) * w,
                d == (b - a) * w,
        ;
        lemma_mod_neq(cksum_sum(s1), d, m);
    }
}

/// A strict prefix of a frame, standing at the end of the log, parses as
/// incomplete: recovery treats it as a crash mid-append, not corruption.
pub proof fn lemma_parse_prefix_incomplete(bytes: Seq<u8>, o: int, r: GRecord, plen: int)
    requires
        valid_record(r),
        0 <= o,
        0 <= plen < encoded(r).len(),
        bytes.len() == o + plen,
        bytes.subrange(o, o + plen) == encoded(r).subrange(0, plen),
    ensures
        parse_frame(bytes, o) is Incomplete,
{
    let frame = encoded(r);
    let blen = body_of(r).len() as int;
    if plen >= 24 {
        let sub = bytes.subrange(o, o + plen);
        assert forall|k: int| 0 <= k < plen implies bytes[o + k] == frame[k] by {
            assert(sub[k] == bytes[o + k]);
            assert(frame.subrange(0, plen)[k] == frame[k]);
        }
        let lb = u32_le(blen as u32);
        assert(frame[0] == lb[0] && frame[1] == lb[1] && frame[2] == lb[2] && frame[3] == lb[3]);
        lemma_u32_round(blen as u32);
        assert(le_u32(bytes[o], bytes[o + 1], bytes[o + 2], bytes[o + 3]) == blen as u32);
        assert(bytes.len() - o == plen < blen + 8);
    }
}

/// Flipping any single byte of a frame's body makes the frame parse as
/// corrupt, wherever the frame sits in the log.
pub proof fn lemma_parse_flip_corrupt(bytes: Seq<u8>, o: int, r: GRecord, q: int)
    requires
        valid_record(r),
        0 <= o,
        o + encoded(r).len() <= bytes.len(),
        4 <= q < 4 + body_of(r).len(),
        bytes[o + q] != encoded(r)[q],
        forall|k: int| 0 <= k < encoded(r).len() && k != q ==> bytes[o + k] == encoded(r)[k],
    ensures
        parse_frame(bytes, o) is Corrupt,
{
    let body = body_of(r);
    let blen = body.len() as int;
    let frame = encoded(r);
    // the length field is intact
    let lb = u32_le(blen as u32);
    assert(frame[0] == lb[0] && frame[1] == lb[1] && frame[2] == lb[2] && frame[3] == lb[3]);
    lemma_u32_round(blen as u32);
    assert(le_u32(bytes[o], bytes[o + 1], bytes[o + 2], bytes[o + 3]) == blen as u32);
    // the stored checksum is intact
    let ckb = u32_le(cksum(body));
    assert(frame[4 + blen] == ckb[0] && frame[5 + blen] == ckb[1] && frame[6 + blen] == ckb[2]
        && frame[7 + blen] == ckb[3]);
    lemma_u32_round(cksum(body));
    assert(le_u32(bytes[o + 4 + blen], bytes[o + 5 + blen], bytes[o + 6 + blen],
        bytes[o + 7 + blen]) == cksum(body));
    // the parsed body differs from the encoded body at exactly one byte
    let pbody = bytes.subrange(o + 4, o + 4 + blen);
    assert forall|k: int| 0 <= k < blen && k != q - 4 implies pbody[k] == body[k] by {
        assert(pbody[k] == bytes[o + 4 + k]);
        assert(frame[4 + k] == body[k]);
    }
    assert(pbody[q - 4] == bytes[o + q]);
    assert(frame[q] == body[q - 4]);
    lemma_cksum_flip(pbody, body, q - 4);
}

/// A successful parse is exact: the bytes of the frame are precisely the
/// encoding of the record it yields, and the record is valid.
pub proof fn lemma_parse_inverts(bytes: Seq<u8>, o: int)
    requires
        0 <= o <= bytes.len(),
    ensures
        parse_frame(bytes, o) matches FrameParse::Frame { rec, next } ==> {
            &&& valid_record(rec)
            &&& o + 24 <= next <= bytes.len()
            &&& next == o + encoded(rec).len()
            &&& bytes.subrange(o, next) == encoded(rec)
        },
{
    if parse_frame(bytes, o) is Frame {
        let n = bytes.len() as int;
        let blen = le_u32(bytes[o], bytes[o + 1], bytes[o + 2], bytes[o + 3]) as int;
        let body = bytes.subrange(o + 4, o + 4 + blen);
        let klen = le_u16(body[9], body[10]) as int;
        let vlen = blen - 15 - klen;
        let rec = parse_frame(bytes, o)->Frame_rec;
        let next = parse_frame(bytes, o)->Frame_next;
        assert(rec.key == body.subrange(11, 11 + klen));
        assert(rec.value == body.subrange(15 + klen, blen as int));
        assert(rec.sequence == le_u64(
            body[1], body[2], body[3], body[4], body[5], body[6], body[7], body[8]));
        assert(kind_byte(rec.kind) == body[0]);
        assert(valid_record(rec));
        // the body re-encodes to itself
        let sq = u64_le(rec.sequence);
        let kl = u16_le(klen as u16);
        let vl = u32_le(vlen as u32);
        lemma_u64_bytes(body[1], body[2], body[3], body[4], body[5], body[6], body[7], body[8]);
        lemma_u16_bytes(body[9], body[10]);
        lemma_u32_bytes(body[11 + klen], body[12 + klen], body[13 + klen], body[14 + klen]);
        let p1 = seq![kind_byte(rec.kind)] + sq;
        let p2 = p1 + kl;
        let p3 = p2 + rec.key;
        let p4 = p3 + vl;
        let rbody = body_of(rec);
        assert(rbody == p4 + rec.value);
        assert(rbody.len() == blen);
        assert forall|k: int| 0 <= k < blen implies rbody[k] == body[k] by {
            if k == 0 {
                assert(rbody[0] == p1[0]);
            } else if k < 9 {
                assert(rbody[k] == p1[k]);
                assert(p1[k] == sq[k - 1]);
                assert(sq[k - 1] == body[k]);
            } else if k < 11 {
                assert(rbody[k] == p2[k]);
                assert(p2[k] == kl[k - 9]);
                assert(kl[k - 9] == body[k]);
            } else if k < 11 + klen {
                assert(rbody[k] == p3[k]);
                assert(p3[k] == rec.key[k - 11]);
                assert(rec.key[k - 11] == body[k]);
            } else if k < 15 + klen {
                assert(rbody[k] == p4[k]);
                assert(p4[k] == vl[k - 11 - klen]);
                assert(vl[k - 11 - klen] == body[k]);
            } else {
                assert(rbody[k] == rec.value[k - 15 - klen]);
                assert(rec.value[k - 15 - klen] == body[k]);
            }
        }
        assert(rbody =~= body);
        // the whole frame re-encodes to the bytes it was parsed from
        let stored = le_u32(bytes[o + 4 + blen], bytes[o + 5 + blen], bytes[o + 6 + blen],
            bytes[o + 7 + blen]);
        assert(cksum(rbody) == stored);
        lemma_u32_bytes(bytes[o], bytes[o + 1], bytes[o + 2], bytes[o + 3]);
        lemma_u32_bytes(bytes[o + 4 + blen], bytes[o + 5 + blen], bytes[o + 6 + blen],
            bytes[o + 7 + blen]);
        let frame = encoded(rec);
        assert(frame.len() == blen + 8);
        let lb = u32_le(blen as u32);
        let ckb = u32_le(stored);
        assert(frame == lb + rbody + ckb);
        assert forall|k: int| 0 <= k < blen + 8 implies frame[k] == bytes[o + k] by {
            if k < 4 {
                assert(frame[k] == lb[k]);
                assert(lb[k] == bytes[o + k]);
            } else if k < 4 + blen {
                assert(frame[k] == (lb + rbody)[k]);
                assert((lb + rbody)[k] == rbody[k - 4]);
                assert(body[k - 4] == bytes[o + k]);
            } else {
                assert(frame[k] == ckb[k - 4 - blen]);
                assert(ckb[k - 4 - blen] == bytes[o + k]);
            }
        }
        assert(bytes.subrange(o, next) =~= frame);
    }
}

/// Round trip: decoding an encoded record yields that record again.  The
/// executable pair follows: `encode` produces `encoded(r)`, and `decode`
/// agrees with `parse_frame`.
pub proof fn lemma_round_trip(r: GRecord)
    requires
        valid_record(r),
    ensures
        parse_frame(encoded(r), 0) == (FrameParse::Frame {
            rec: r,
            next: encoded(r).len() as int,
        }),
{
    assert(encoded(r).subrange(0, encoded(r).len() as int) =~= encoded(r));
    lemma_parse_encoded_at(encoded(r), 0, r);
}

fn push_u16(v: &mut Vec<u8>, x: u16)
    ensures
        final(v)@ == old(v)@ + u16_le(x),
{
    v.push((x & 0xff) as u8);
    v.push(((x >> 8u16) & 0xff) as u8);
    proof {
        assert(v@ =~= old(v)@ + u16_le(x));
    }
}

fn push_u32(v: &mut Vec<u8>, x: u32)
    ensures
        final(v)@ == old(v)@ + u32_le(x),
{
    v.push((x & 0xff) as u8);
    v.push(((x >> 8u32) & 0xff) as u8);
    v.push(((x >> 16u32) & 0xff) as u8);
    v.push(((x >> 24u32) & 0xff) as u8);
    proof {
        assert(v@ =~= old(v)@ + u32_le(x));
    }
}

fn push_u64(v: &mut Vec<u8>, x: u64)
    ensures
        final(v)@ == old(v)@ + u64_le(x),
{
    v.push((x & 0xff) as u8);
    v.push(((x >> 8u64) & 0xff) as u8);
    v.push(((x >> 16u64) & 0xff) as u8);
    v.push(((x >> 24u64) & 0xff) as u8);
    v.push(((x >> 32u64) & 0xff) as u8);
    v.push(((x >> 40u64) & 0xff) as u8);
    v.push(((x >> 48u64) & 0xff) as u8);
    v.push(((x >> 56u64) & 0xff) as u8);
    proof {
        assert(v@ =~= old(v)@ + u64_le(x));
    }
}

pub fn push_bytes(v: &mut Vec<u8>, src: &Vec<u8>)
    ensures
        final(v)@ == old(v)@ + src@,
{
    let mut i: usize = 0;
    while i < src.len()
        invariant
            i <= src@.len(),
            v@ == old(v)@ + src@.subrange(0, i as int),
        decreases src@.len() - i,
    {
        v.push(src[i]);
        proof {
            assert(v@ =~= old(v)@ + src@.subrange(0, i + 1 as int));
        }
        i = i + 1;
    }
    proof {
        assert(v@ =~= old(v)@ + src@);
    }
}

/// A fresh copy of `bytes[start..end]`.
pub fn copy_range(bytes: &Vec<u8>, start: usize, end: usize) -> (out: Vec<u8>)
    requires
        start <= end <= bytes@.len(),
    ensures
        out@ == bytes@.subrange(start as int, end as int),
{
    let mut out: Vec<u8> = Vec::new();
    let mut i: usize = start;
    while i < end
        invariant
            start <= i <= end <= bytes@.len(),
            out@ == bytes@.subrange(start as int, i as int),
        decreases end - i,
    {
        out.push(bytes[i]);
        proof {
            assert(out@ =~= bytes@.subrange(start as int, i + 1 as int));
        }
        i = i + 1;
    }
    out
}

/// Serializes one record as a self-delimiting frame.
pub fn encode(rec: &Record) -> (out: Vec<u8>)
    requires
        valid_record(rec@),
    ensures
        out@ == encoded(rec@),
{
    let mut body: Vec<u8> = Vec::new();
    let kb: u8 = match rec.kind {
        RecordKind::Put => 0,
        RecordKind::Delete => 1,
    };
    body.push(kb);
    push_u64(&mut body, rec.sequence);
    push_u16(&mut body, rec.key.len() as u16);
    push_bytes(&mut body, &rec.key);
    push_u32(&mut body, rec.value.len() as u32);
    push_bytes(&mut body, &rec.value);
    proof {
        assert(body@ =~= body_of(rec@));
    }
    let ck = checksum_range(&body, 0, body.len());
    proof {
        assert(body@.subrange(0, body@.len() as int) =~= body@);
    }
    let blen = body.len() as u32;
    let mut out: Vec<u8> = Vec::new();
    push_u32(&mut out, blen);
    push_bytes(&mut out, &body);
    push_u32(&mut out, ck);
    proof {
        assert(out@ =~= encoded(rec@));
    }
    out
}

/// The outcome of decoding one frame.
pub enum Decoded {
    Frame { rec: Record, next: usize },
    Incomplete,
    Corrupt,
}

/// The decoder's result agrees with the mathematical parse.
pub open spec fn decode_matches(d: Decoded, p: FrameParse) -> bool {
    match d {
        Decoded::Frame { rec, next } => p matches FrameParse::Frame { rec: pr, next: pn }
            && rec@ == pr && next == pn,
        Decoded::Incomplete => p is Incomplete,
        Decoded::Corrupt => p is Corrupt,
    }
}

/// Parses one frame of `bytes` starting at `offset`, verifying the
/// checksum.  Returns the record and the offset just past its frame,
/// `Incomplete` for a trailing partial frame, `Corrupt` for a checksum
/// mismatch or an inconsistent body.
pub fn decode(bytes: &Vec<u8>, offset: usize) -> (d: Decoded)
    requires
        offset <= bytes@.len(),
    ensures
        decode_matches(d, parse_frame(bytes@, offset as int)),
{
    let n = bytes.len();
    if n - offset < 24 {
        return Decoded::Incomplete;
    }
    let blen32 = le32(bytes[offset], bytes[offset + 1], bytes[offset + 2], bytes[offset + 3]);
    let rem: u64 = (n - offset) as u64;
    if (blen32 as u64) + 8 > rem {
        return Decoded::Incomplete;
    }
    if blen32 < 16 {
        return Decoded::Corrupt;
    }
    let blen = blen32 as usize;
    let bstart = offset + 4;
    let bend = bstart + blen;
    let ghost gbody = bytes@.subrange(bstart as int, bend as int);
    let stored = le32(bytes[bend], bytes[bend + 1], bytes[bend + 2], bytes[bend + 3]);
    let ck = checksum_range(bytes, bstart, bend);
    if ck != stored {
        return Decoded::Corrupt;
    }
    let kb = bytes[bstart];
    let sequence = le64(
        bytes[bstart + 1],
        bytes[bstart + 2],
        bytes[bstart + 3],
        bytes[bstart + 4],
        bytes[bstart + 5],
        bytes[bstart + 6],
        bytes[bstart + 7],
        bytes[bstart + 8],
    );
    let klen16 = le16(bytes[bstart + 9], bytes[bstart + 10]);
    let klen = klen16 as usize;
    if klen < 1 || 15 + (klen as u64) > blen32 as u64 {
        return Decoded::Corrupt;
    }
    let key = copy_range(bytes, bstart + 11, bstart + 11 + klen);
    let vlen32 = le32(
        bytes[bstart + 11 + klen],
        bytes[bstart + 12 + klen],
        bytes[bstart + 13 + klen],
        bytes[bstart + 14 + klen],
    );
    if 15 + (klen as u64) + (vlen32 as u64) != blen32 as u64 {
        return Decoded::Corrupt;
    }
    let vlen = vlen32 as usize;
    let value = copy_range(bytes, bstart + 15 + klen, bstart + 15 + klen + vlen);
    let kind = if kb == 0 {
        RecordKind::Put
    } else if kb == 1 && vlen == 0 {
        RecordKind::Delete
    } else {
        return Decoded::Corrupt;
    };
    proof {
        assert(key@ =~= gbody.subrange(11, 11 + klen as int));
        assert(value@ =~= gbody.subrange(15 + klen as int, blen as int));
    }
    Decoded::Frame { rec: Record { kind, sequence, key, value }, next: bend + 4 }
}

} // verus!
