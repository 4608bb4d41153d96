//! Binary form of the MANIFEST log: a fixed 8-byte header (magic + version),
//! then records of `u32 BE length | u32 BE CRC-32 | payload`, each payload a
//! change set encoded as a run of fixed-width change entries.

use vstd::prelude::*;

use crate::manifest::{ManifestChange, Operation};

verus! {

/// First magic byte, ASCII 'b'.
pub const MAGIC_0: u8 = 0x62;
/// Second magic byte, ASCII 'd'.
pub const MAGIC_1: u8 = 0x64;
/// Third magic byte, ASCII 'g'.
pub const MAGIC_2: u8 = 0x67;
/// Fourth magic byte, ASCII 'r'.
pub const MAGIC_3: u8 = 0x72;
/// The supported on-disk format version.
pub const MAGIC_VERSION: u32 = 2;
/// Bytes of one encoded change: 8 of id, 4 of level, 1 of operation.
pub const CHANGE_SIZE: usize = 13;

/// What crc32fast::hash returns: the IEEE CRC-32 checksum of the bytes,
/// a function of the bytes alone.
pub uninterp spec fn crc32_of(data: Seq<u8>) -> u32;

/// Relies on crc32fast::hash: computes the IEEE CRC-32 checksum of the
/// bytes, which depends on the bytes alone.
#[verifier::external_body]
pub(crate) fn crc32(data: &[u8]) -> (r: u32)
    ensures
        r == crc32_of(data@),
{
    crc32fast::hash(data)
}

/// The four bytes of `x` in big-endian order.
pub open spec fn u32_be_bytes(x: u32) -> Seq<u8> {
    seq![(x >> 24) as u8, (x >> 16) as u8, (x >> 8) as u8, x as u8]
}

/// The big-endian value of a 4-byte sequence.
pub open spec fn be32(s: Seq<u8>) -> u32
    recommends
        s.len() == 4,
{
    ((s[0] as u32) << 24) | ((s[1] as u32) << 16) | ((s[2] as u32) << 8) | (s[3] as u32)
}

/// The eight bytes of `x` in big-endian order.
pub open spec fn u64_be_bytes(x: u64) -> Seq<u8> {
    seq![
        (x >> 56) as u8,
        (x >> 48) as u8,
        (x >> 40) as u8,
        (x >> 32) as u8,
        (x >> 24) as u8,
        (x >> 16) as u8,
        (x >> 8) as u8,
        x as u8,
    ]
}

/// The big-endian value of an 8-byte sequence.
pub open spec fn be64(s: Seq<u8>) -> u64
    recommends
        s.len() == 8,
{
    ((s[0] as u64) << 56) | ((s[1] as u64) << 48) | ((s[2] as u64) << 40) | ((s[3] as u64) << 32)
        | ((s[4] as u64) << 24) | ((s[5] as u64) << 16) | ((s[6] as u64) << 8) | (s[7] as u64)
}

/// Reading back the four big-endian bytes of `x` yields `x`.
pub proof fn lemma_be32_round_trip(x: u32)
    ensures
        be32(u32_be_bytes(x)) == x,
{
    assert(((((x >> 24) as u8) as u32) << 24) | ((((x >> 16) as u8) as u32) << 16) | ((((x
        >> 8) as u8) as u32) << 8) | ((x as u8) as u32) == x) by (bit_vector);
}

/// Reading back the eight big-endian bytes of `x` yields `x`.
pub proof fn lemma_be64_round_trip(x: u64)
    ensures
        be64(u64_be_bytes(x)) == x,
{
    assert(((((x >> 56) as u8) as u64) << 56) | ((((x >> 48) as u8) as u64) << 48) | ((((x
        >> 40) as u8) as u64) << 40) | ((((x >> 32) as u8) as u64) << 32) | ((((x
        >> 24) as u8) as u64) << 24) | ((((x >> 16) as u8) as u64) << 16) | ((((x
        >> 8) as u8) as u64) << 8) | ((x as u8) as u64) == x) by (bit_vector);
}

/// Appends the four big-endian bytes of `x`.
pub fn put_u32_be(out: &mut Vec<u8>, x: u32)
    ensures
        final(out)@ == old(out)@ + u32_be_bytes(x),
{
    out.push((x >> 24) as u8);
    out.push((x >> 16) as u8);
    out.push((x >> 8) as u8);
    out.push(x as u8);
    proof {
        assert(out@ =~= old(out)@ + u32_be_bytes(x));
    }
}

/// Appends the eight big-endian bytes of `x`.
pub fn put_u64_be(out: &mut Vec<u8>, x: u64)
    ensures
        final(out)@ == old(out)@ + u64_be_bytes(x),
{
    out.push((x >> 56) as u8);
    out.push((x >> 48) as u8);
    out.push((x >> 40) as u8);
    out.push((x >> 32) as u8);
    out.push((x >> 24) as u8);
    out.push((x >> 16) as u8);
    out.push((x >> 8) as u8);
    out.push(x as u8);
    proof {
        assert(out@ =~= old(out)@ + u64_be_bytes(x));
    }
}

/// Reads the big-endian u32 at position `i`.
pub fn read_u32_be(s: &Vec<u8>, i: usize) -> (r: u32)
    requires
        i + 4 <= s.len(),
    ensures
        r == be32(s@.subrange(i as int, i + 4)),
{
    let b0 = s[i] as u32;
    let b1 = s[i + 1] as u32;
    let b2 = s[i + 2] as u32;
    let b3 = s[i + 3] as u32;
    let r = (b0 << 24) | (b1 << 16) | (b2 << 8) | b3;
    proof {
        let sub = s@.subrange(i as int, i + 4);
        assert(sub[0] == s@[i as int] && sub[1] == s@[i + 1] && sub[2] == s@[i + 2] && sub[3]
            == s@[i + 3]);
    }
    r
}

/// Reads the big-endian u64 at position `i`.
pub fn read_u64_be(s: &Vec<u8>, i: usize) -> (r: u64)
    requires
        i + 8 <= s.len(),
    ensures
        r == be64(s@.subrange(i as int, i + 8)),
{
    let b0 = s[i] as u64;
    let b1 = s[i + 1] as u64;
    let b2 = s[i + 2] as u64;
    let b3 = s[i + 3] as u64;
    let b4 = s[i + 4] as u64;
    let b5 = s[i + 5] as u64;
    let b6 = s[i + 6] as u64;
    let b7 = s[i + 7] as u64;
    let r = (b0 << 56) | (b1 << 48) | (b2 << 40) | (b3 << 32) | (b4 << 24) | (b5 << 16) | (b6
        << 8) | b7;
    proof {
        let sub = s@.subrange(i as int, i + 8);
        assert(sub[0] == s@[i as int] && sub[1] == s@[i + 1] && sub[2] == s@[i + 2] && sub[3]
            == s@[i + 3] && sub[4] == s@[i + 4] && sub[5] == s@[i + 5] && sub[6] == s@[i + 6]
            && sub[7] == s@[i + 7]);
    }
    r
}

/// The byte that stands for an operation: CREATE is 0, DELETE is 1.
pub open spec fn op_code(op: Operation) -> u8 {
    match op {
        Operation::CREATE => 0,
        Operation::DELETE => 1,
    }
}

/// The 13 bytes of one change: big-endian id, big-endian level, op byte.
pub open spec fn encode_change(c: ManifestChange) -> Seq<u8> {
    u64_be_bytes(c.id) + u32_be_bytes(c.level) + seq![op_code(c.op)]
}

/// The payload of a record: the changes one after the other.
pub open spec fn encode_change_set(cs: Seq<ManifestChange>) -> Seq<u8>
    decreases cs.len(),
{
    if cs.len() == 0 {
        Seq::empty()
    } else {
        encode_change(cs[0]) + encode_change_set(cs.drop_first())
    }
}

/// The changes held in a payload, or None when the payload is not a whole
/// number of entries or an op byte is neither CREATE nor DELETE.
pub open spec fn decode_change_set(p: Seq<u8>) -> Option<Seq<ManifestChange>>
    decreases p.len(),
{
    if p.len() == 0 {
        Some(Seq::empty())
    } else if p.len() < CHANGE_SIZE {
        None
    } else if p[12] != 0 && p[12] != 1 {
        None
    } else {
        let c = ManifestChange {
            id: be64(p.subrange(0, 8)),
            level: be32(p.subrange(8, 12)),
            op: if p[12] == 0 {
                Operation::CREATE
            } else {
                Operation::DELETE
            },
        };
        match decode_change_set(p.skip(CHANGE_SIZE as int)) {
            Some(rest) => Some(seq![c] + rest),
            None => None,
        }
    }
}

/// An encoded change set is 13 bytes per change.
pub proof fn lemma_encode_change_set_len(cs: Seq<ManifestChange>)
    ensures
        encode_change_set(cs).len() == CHANGE_SIZE * cs.len(),
    decreases cs.len(),
{
    if cs.len() > 0 {
        lemma_encode_change_set_len(cs.drop_first());
    }
}

/// Decoding an encoded change set yields the change set back.
pub proof fn lemma_change_set_round_trip(cs: Seq<ManifestChange>)
    ensures
        decode_change_set(encode_change_set(cs)) == Some(cs),
    decreases cs.len(),
{
    if cs.len() == 0 {
        assert(encode_change_set(cs).len() == 0);
    } else {
        let c = cs[0];
        let p = encode_change_set(cs);
        lemma_encode_change_set_len(cs);
        lemma_encode_change_set_len(cs.drop_first());
        assert(p.len() >= CHANGE_SIZE);
        lemma_be64_round_trip(c.id);
        lemma_be32_round_trip(c.level);
        assert(p.subrange(0, 8) =~= u64_be_bytes(c.id));
        assert(p.subrange(8, 12) =~= u32_be_bytes(c.level));
        assert(p[12] == op_code(c.op));
        assert(p.skip(CHANGE_SIZE as int) =~= encode_change_set(cs.drop_first()));
        lemma_change_set_round_trip(cs.drop_first());
        let decoded_first = ManifestChange {
            id: be64(p.subrange(0, 8)),
            level: be32(p.subrange(8, 12)),
            op: if p[12] == 0 {
                Operation::CREATE
            } else {
                Operation::DELETE
            },
        };
        assert(decoded_first == c);
        assert(seq![c] + cs.drop_first() =~= cs);
    }
}

/// Builds the payload bytes of a change set.
pub fn encode_changes(cs: &Vec<ManifestChange>) -> (r: Vec<u8>)
    ensures
        r@ == encode_change_set(cs@),
{
    let mut out: Vec<u8> = Vec::new();
    let mut i: usize = 0;
    while i < cs.len()
        invariant
            i <= cs@.len(),
            out@ == encode_change_set(cs@.take(i as int)),
        decreases cs@.len() - i,
    {
        let c = cs[i];
        put_u64_be(&mut out, c.id);
        put_u32_be(&mut out, c.level);
        let ob: u8 = match c.op {
            Operation::CREATE => 0,
            Operation::DELETE => 1,
        };
        out.push(ob);
        proof {
            let pre = cs@.take(i as int);
            let now = cs@.take(i + 1);
            lemma_encode_append(pre, c);
            assert(now =~= pre.push(c));
            assert(out@ =~= encode_change_set(pre) + encode_change(c));
        }
        i = i + 1;
    }
    proof {
        assert(cs@.take(cs@.len() as int) =~= cs@);
    }
    out
}

/// Encoding a change set with one more change appends that change's bytes.
pub proof fn lemma_encode_append(cs: Seq<ManifestChange>, c: ManifestChange)
    ensures
        encode_change_set(cs.push(c)) == encode_change_set(cs) + encode_change(c),
    decreases cs.len(),
{
    if cs.len() == 0 {
        let a = encode_change(c);
        assert(cs.push(c)[0] == c);
        assert(cs.push(c).drop_first() =~= Seq::<ManifestChange>::empty());
        assert(encode_change_set(Seq::<ManifestChange>::empty()) == Seq::<u8>::empty());
        assert(encode_change_set(cs.push(c)) == a + Seq::<u8>::empty());
        assert(a + Seq::<u8>::empty() =~= a);
        assert(encode_change_set(cs) + a =~= a);
    } else {
        assert(cs.push(c)[0] == cs[0]);
        assert(cs.push(c).drop_first() =~= cs.drop_first().push(c));
        lemma_encode_append(cs.drop_first(), c);
        let a = encode_change(cs[0]);
        let b = encode_change_set(cs.drop_first());
        let d = encode_change(c);
        assert(encode_change_set(cs.push(c)) == a + (b + d));
        assert(a + (b + d) =~= (a + b) + d);
        assert(encode_change_set(cs) == a + b);
    }
}

/// Parses a payload back into its changes.
pub fn decode_changes(p: &Vec<u8>) -> (r: Option<Vec<ManifestChange>>)
    ensures
        match r {
            Some(cs) => decode_change_set(p@) == Some(cs@),
            None => decode_change_set(p@) == None::<Seq<ManifestChange>>,
        },
{
    if p.len() % CHANGE_SIZE != 0 {
        proof {
            lemma_bad_len_decodes_none(p@);
        }
        return None;
    }
    let mut out: Vec<ManifestChange> = Vec::new();
    let mut i: usize = 0;
    proof {
        assert(p@.skip(0) =~= p@);
        if decode_change_set(p@) is Some {
            assert(out@ + decode_change_set(p@).unwrap() =~= decode_change_set(p@).unwrap());
        }
    }
    while i < p.len()
        invariant
            i <= p@.len(),
            i as int % (CHANGE_SIZE as int) == 0,
            p@.len() as int % (CHANGE_SIZE as int) == 0,
            decode_change_set(p@) == match decode_change_set(p@.skip(i as int)) {
                Some(rest) => Some(out@ + rest),
                None => None::<Seq<ManifestChange>>,
            },
        decreases p@.len() - i,
    {
        proof {
            vstd::arithmetic::div_mod::lemma_sub_mod_noop(
                p@.len() as int,
                i as int,
                CHANGE_SIZE as int,
            );
            if p@.len() - i < CHANGE_SIZE {
                vstd::arithmetic::div_mod::lemma_small_mod(
                    (p@.len() - i) as nat,
                    CHANGE_SIZE as nat,
                );
            }
            assert(p@.len() - i >= CHANGE_SIZE);
        }
        let id = read_u64_be(p, i);
        let level = read_u32_be(p, i + 8);
        let ob = p[i + 12];
        let ghost tail = p@.skip(i as int);
        proof {
            assert(tail.len() >= CHANGE_SIZE);
            assert(tail.subrange(0, 8) =~= p@.subrange(i as int, i + 8));
            assert(tail.subrange(8, 12) =~= p@.subrange(i + 8, i + 12));
            assert(tail[12] == p@[i + 12]);
            assert(tail.skip(CHANGE_SIZE as int) =~= p@.skip(i + CHANGE_SIZE));
        }
        if ob != 0 && ob != 1 {
            return None;
        }
        let op = if ob == 0 {
            Operation::CREATE
        } else {
            Operation::DELETE
        };
        let c = ManifestChange { id, level, op };
        let ghost pre = out@;
        out.push(c);
        proof {
            assert(decode_change_set(tail) == match decode_change_set(tail.skip(CHANGE_SIZE as int)) {
                Some(rest) => Some(seq![c] + rest),
                None => None::<Seq<ManifestChange>>,
            });
            if decode_change_set(p@.skip(i + CHANGE_SIZE)) is Some {
                let rest = decode_change_set(p@.skip(i + CHANGE_SIZE)).unwrap();
                assert(pre + (seq![c] + rest) =~= out@ + rest);
            }
        }
        proof {
            vstd::arithmetic::div_mod::lemma_mod_multiples_vanish(1, i as int, CHANGE_SIZE as int);
        }
        i = i + CHANGE_SIZE;
    }
    proof {
        assert(p@.skip(i as int) =~= Seq::<u8>::empty());
        assert(out@ + Seq::<ManifestChange>::empty() =~= out@);
    }
    Some(out)
}

/// A payload whose length is not a whole number of entries decodes to None.
proof fn lemma_bad_len_decodes_none(p: Seq<u8>)
    requires
        p.len() as int % (CHANGE_SIZE as int) != 0,
    ensures
        decode_change_set(p) == None::<Seq<ManifestChange>>,
    decreases p.len(),
{
    if p.len() >= CHANGE_SIZE && (p[12] == 0 || p[12] == 1) {
        assert(p.skip(CHANGE_SIZE as int).len() == p.len() - CHANGE_SIZE);
        vstd::arithmetic::div_mod::lemma_mod_sub_multiples_vanish(p.len() as int, CHANGE_SIZE as int);
        lemma_bad_len_decodes_none(p.skip(CHANGE_SIZE as int));
    }
}

/// The four magic bytes that open every MANIFEST file.
pub open spec fn magic_bytes() -> Seq<u8> {
    seq![MAGIC_0, MAGIC_1, MAGIC_2, MAGIC_3]
}

/// The header of the MANIFEST file: the magic bytes and the version.
pub open spec fn header_bytes() -> Seq<u8> {
    magic_bytes() + u32_be_bytes(MAGIC_VERSION)
}

/// A payload that decodes is a whole number of entries long.
pub proof fn lemma_decode_len(p: Seq<u8>)
    ensures
        decode_change_set(p) matches Some(cs) ==> p.len() == CHANGE_SIZE * cs.len(),
    decreases p.len(),
{
    if p.len() == 0 {
    } else if p.len() < CHANGE_SIZE {
    } else if p[12] != 0 && p[12] != 1 {
    } else {
        lemma_decode_len(p.skip(CHANGE_SIZE as int));
    }
}

/// One framed record: payload length, CRC-32 of the payload, payload.
pub open spec fn record_bytes(payload: Seq<u8>) -> Seq<u8>
    recommends
        payload.len() <= u32::MAX,
{
    u32_be_bytes(payload.len() as u32) + u32_be_bytes(crc32_of(payload)) + payload
}

/// Builds the MANIFEST header.
pub fn make_header() -> (r: Vec<u8>)
    ensures
        r@ == header_bytes(),
{
    let mut out: Vec<u8> = Vec::new();
    out.push(MAGIC_0);
    out.push(MAGIC_1);
    out.push(MAGIC_2);
    out.push(MAGIC_3);
    put_u32_be(&mut out, MAGIC_VERSION);
    proof {
        assert(out@ =~= header_bytes());
    }
    out
}

/// Appends one framed record carrying `payload`.
pub fn append_record(out: &mut Vec<u8>, payload: &Vec<u8>)
    requires
        payload@.len() <= u32::MAX,
    ensures
        final(out)@ == old(out)@ + record_bytes(payload@),
{
    put_u32_be(out, payload.len() as u32);
    let c = crc32(payload.as_slice());
    put_u32_be(out, c);
    let mut i: usize = 0;
    let ghost mid = out@;
    while i < payload.len()
        invariant
            i <= payload@.len(),
            out@ == mid + payload@.take(i as int),
        decreases payload@.len() - i,
    {
        let b = payload[i];
        out.push(b);
        proof {
            assert(mid + payload@.take(i + 1) =~= (mid + payload@.take(i as int)).push(b));
        }
        i = i + 1;
    }
    proof {
        assert(payload@.take(payload@.len() as int) =~= payload@);
        assert(out@ =~= old(out)@ + record_bytes(payload@));
    }
}

} // verus!
