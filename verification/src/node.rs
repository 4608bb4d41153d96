//! A skiplist node: immutable key offset and size, immutable tower height,
//! a packed 64-bit value slot (low 32 bits offset, next 16 bits size), and
//! a tower of next-node offsets truncated to the node's height.

use vstd::prelude::*;

verus! {

/// Tallest tower a node can have.
pub const MAX_HEIGHT: usize = 20;

/// Bytes of one tower entry.
pub const OFFSET_SIZE: usize = 4;

/// Accounted size of a full-height node: the fixed header fields plus a
/// 20-entry tower of 4-byte offsets.
pub const MAX_NODE_SIZE: usize = 96;

/// The packed value slot: size in bits 32..48, offset in bits 0..32.
pub open spec fn spec_pack_value(offset: u32, size: u16) -> u64 {
    ((size as u64) << 32) | (offset as u64)
}

/// The offset half of a packed value slot.
pub open spec fn spec_slot_offset(slot: u64) -> u32 {
    slot as u32
}

/// The size half of a packed value slot.
pub open spec fn spec_slot_size(slot: u64) -> u16 {
    (slot >> 32) as u16
}

/// Packing then unpacking a value slot loses nothing, and the reserved top
/// sixteen bits stay zero.
pub proof fn lemma_pack_value(offset: u32, size: u16)
    ensures
        spec_slot_offset(spec_pack_value(offset, size)) == offset,
        spec_slot_size(spec_pack_value(offset, size)) == size,
        spec_pack_value(offset, size) >> 48 == 0,
{
    let o = offset as u64;
    let s = size as u64;
    let packed = (s << 32) | o;
    assert(packed as u32 == o as u32 && (packed >> 32) as u16 == s as u16 && packed >> 48
        == 0) by (bit_vector)
        requires
            packed == (s << 32) | o && s < 0x10000 && o < 0x100000000;
    assert(o as u32 == offset && s as u16 == size);
}

/// One node of the skiplist.
#[derive(Debug)]
pub struct Node {
    pub key_offset: u32,
    pub key_size: u16,
    pub height: u16,
    pub value: u64,
    pub tower: Vec<u32>,
}

impl Node {
    /// Accounted size of a node: a short tower costs fewer bytes.
    pub fn size_for_height(height: usize) -> (r: usize)
        requires
            1 <= height <= MAX_HEIGHT,
        ensures
            r == MAX_NODE_SIZE - (MAX_HEIGHT - height) * OFFSET_SIZE,
            16 <= r <= MAX_NODE_SIZE,
    {
        MAX_NODE_SIZE - (MAX_HEIGHT - height) * OFFSET_SIZE
    }

    /// Packs a value offset and size into one 64-bit slot.
    pub fn encode_value(value_offset: u32, value_size: u16) -> (r: u64)
        ensures
            r == spec_pack_value(value_offset, value_size),
            spec_slot_offset(r) == value_offset,
            spec_slot_size(r) == value_size,
    {
        proof {
            lemma_pack_value(value_offset, value_size);
        }
        ((value_size as u64) << 32u64) | (value_offset as u64)
    }

    /// Unpacks a 64-bit value slot into offset and size.
    pub fn decode_value(value: u64) -> (r: (u32, u16))
        ensures
            r.0 == spec_slot_offset(value),
            r.1 == spec_slot_size(value),
    {
        (value as u32, (value >> 32u64) as u16)
    }

    /// The packed value slot, unpacked.
    pub fn get_value_offset(&self) -> (r: (u32, u16))
        ensures
            r.0 == spec_slot_offset(self.value),
            r.1 == spec_slot_size(self.value),
    {
        Node::decode_value(self.value)
    }

    /// The next-node offset at tower level `h`.
    pub fn get_next_offset(&self, h: usize) -> (r: u32)
        requires
            h < self.tower@.len(),
        ensures
            r == self.tower@[h as int],
    {
        self.tower[h]
    }

    /// Swaps the tower entry at level `h` to `val` when it still holds
    /// `old_val`; reports whether the swap happened.
    pub fn cas_next_offset(&mut self, h: usize, old_val: u32, val: u32) -> (r: bool)
        requires
            h < old(self).tower@.len(),
        ensures
            r == (old(self).tower@[h as int] == old_val),
            r ==> final(self).tower@ == old(self).tower@.update(h as int, val),
            !r ==> *final(self) == *old(self),
            final(self).key_offset == old(self).key_offset,
            final(self).key_size == old(self).key_size,
            final(self).height == old(self).height,
            final(self).value == old(self).value,
    {
        if self.tower[h] == old_val {
            self.tower[h] = val;
            true
        } else {
            false
        }
    }
}

} // verus!
