//! The value record stored inline in the arena: the raw bytes plus a meta
//! byte, a user-meta byte, and a 64-bit cas/version field, in a fixed
//! layout of ten header bytes followed by the value bytes.

use vstd::prelude::*;

use crate::codec::{be64, put_u64_be, read_u64_be, u64_be_bytes};

verus! {

/// Fixed bytes in front of the value bytes: meta, user meta, cas counter.
pub const VALUE_HEADER_SIZE: usize = 10;

/// A value as the memtable hands it around.
#[derive(Clone, Debug)]
pub struct ValueStruct {
    pub meta: u8,
    pub user_meta: u8,
    pub cas_counter: u64,
    pub value: Vec<u8>,
}

/// The abstract content of a ValueStruct.
pub ghost struct ValueView {
    pub meta: u8,
    pub user_meta: u8,
    pub cas_counter: u64,
    pub value: Seq<u8>,
}

impl View for ValueStruct {
    type V = ValueView;

    open spec fn view(&self) -> ValueView {
        ValueView {
            meta: self.meta,
            user_meta: self.user_meta,
            cas_counter: self.cas_counter,
            value: self.value@,
        }
    }
}

impl ValueStruct {
    /// Builds a value record.
    pub fn new(value: Vec<u8>, meta: u8, user_meta: u8, cas_counter: u64) -> (r: ValueStruct)
        ensures
            r@ == (ValueView { meta, user_meta, cas_counter, value: value@ }),
    {
        ValueStruct { meta, user_meta, cas_counter, value }
    }

    /// Bytes this value occupies in the arena.
    pub fn encoded_size(&self) -> (r: usize)
        requires
            self.value@.len() + VALUE_HEADER_SIZE <= usize::MAX,
        ensures
            r == spec_value_bytes(self@).len(),
    {
        proof {
            lemma_value_bytes_len(self@);
        }
        VALUE_HEADER_SIZE + self.value.len()
    }
}

/// The arena layout of a value: meta, user meta, big-endian cas counter,
/// then the value bytes.
pub open spec fn spec_value_bytes(v: ValueView) -> Seq<u8> {
    seq![v.meta, v.user_meta] + u64_be_bytes(v.cas_counter) + v.value
}

/// The value encoded at `off..off+size` in `data`.
pub open spec fn spec_value_at(data: Seq<u8>, off: int, size: int) -> ValueView
    recommends
        0 <= off,
        VALUE_HEADER_SIZE <= size,
        off + size <= data.len(),
{
    ValueView {
        meta: data[off],
        user_meta: data[off + 1],
        cas_counter: be64(data.subrange(off + 2, off + 10)),
        value: data.subrange(off + 10, off + size),
    }
}

/// An encoded value is ten header bytes plus the value bytes.
pub proof fn lemma_value_bytes_len(v: ValueView)
    ensures
        spec_value_bytes(v).len() == VALUE_HEADER_SIZE + v.value.len(),
{
}

/// Decoding an encoded value from anywhere in a buffer yields the value.
pub proof fn lemma_value_round_trip(data: Seq<u8>, off: int, v: ValueView)
    requires
        0 <= off,
        off + spec_value_bytes(v).len() <= data.len(),
        data.subrange(off, off + spec_value_bytes(v).len() as int) == spec_value_bytes(v),
    ensures
        spec_value_at(data, off, spec_value_bytes(v).len() as int) == v,
{
    let n = spec_value_bytes(v).len() as int;
    let sub = data.subrange(off, off + n);
    assert(sub == spec_value_bytes(v));
    assert(data[off] == sub[0]);
    assert(data[off + 1] == sub[1]);
    assert(sub[0] == v.meta && sub[1] == v.user_meta);
    assert forall|j: int| 0 <= j < 8 implies data[off + 2 + j] == u64_be_bytes(v.cas_counter)[j] by {
        assert(data[off + 2 + j] == sub[2 + j]);
        assert(sub[2 + j] == (seq![v.meta, v.user_meta] + u64_be_bytes(v.cas_counter) + v.value)[2
            + j]);
    }
    assert(data.subrange(off + 2, off + 10) =~= u64_be_bytes(v.cas_counter));
    crate::codec::lemma_be64_round_trip(v.cas_counter);
    assert forall|j: int| 0 <= j < n - 10 implies data[off + 10 + j] == v.value[j] by {
        assert(data[off + 10 + j] == sub[10 + j]);
        assert(sub[10 + j] == (seq![v.meta, v.user_meta] + u64_be_bytes(v.cas_counter) + v.value)[10
            + j]);
    }
    assert(data.subrange(off + 10, off + n) =~= v.value);
}

/// Appends the arena encoding of `v`.
pub fn append_value_bytes(out: &mut Vec<u8>, v: &ValueStruct)
    ensures
        final(out)@ == old(out)@ + spec_value_bytes(v@),
{
    out.push(v.meta);
    out.push(v.user_meta);
    put_u64_be(out, v.cas_counter);
    let mut i: usize = 0;
    let ghost mid = out@;
    while i < v.value.len()
        invariant
            i <= v.value@.len(),
            out@ == mid + v.value@.take(i as int),
        decreases v.value@.len() - i,
    {
        let b = v.value[i];
        out.push(b);
        proof {
            assert(mid + v.value@.take(i + 1) =~= (mid + v.value@.take(i as int)).push(b));
        }
        i = i + 1;
    }
    proof {
        assert(v.value@.take(v.value@.len() as int) =~= v.value@);
        assert(out@ =~= old(out)@ + spec_value_bytes(v@));
    }
}

/// Reads the value encoded at `off..off+size` out of a buffer.
pub fn read_value_bytes(data: &Vec<u8>, off: usize, size: usize) -> (r: ValueStruct)
    requires
        VALUE_HEADER_SIZE <= size,
        off + size <= data.len(),
    ensures
        r@ == spec_value_at(data@, off as int, size as int),
{
    let meta = data[off];
    let user_meta = data[off + 1];
    let cas_counter = read_u64_be(data, off + 2);
    let mut value: Vec<u8> = Vec::new();
    let mut i: usize = off + 10;
    while i < off + size
        invariant
            off + 10 <= i <= off + size,
            off + size <= data.len(),
            value@ == data@.subrange(off + 10, i as int),
        decreases off + size - i,
    {
        let b = data[i];
        value.push(b);
        proof {
            assert(data@.subrange(off + 10, i + 1) =~= data@.subrange(off + 10, i as int).push(b));
        }
        i = i + 1;
    }
    proof {
        assert(data@.subrange(off + 2, off + 10) =~= data@.subrange(off as int + 2, off as int + 10));
    }
    ValueStruct { meta, user_meta, cas_counter, value }
}

} // verus!
