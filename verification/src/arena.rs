//! The arena behind a skiplist: one byte buffer for keys and values and a
//! node table, all addressed by 32-bit offsets. Offset 0 is the null
//! sentinel; every allocation is handed out at offset 1 or above. A bump
//! cursor accounts the bytes used; when it would pass the capacity the
//! allocation fails and nothing moves.

use vstd::prelude::*;

use crate::errors::Error;
use crate::node::{Node, MAX_HEIGHT, MAX_NODE_SIZE, OFFSET_SIZE};
use crate::value::{
    append_value_bytes, lemma_value_bytes_len, read_value_bytes, spec_value_at, spec_value_bytes,
    ValueStruct, VALUE_HEADER_SIZE,
};

verus! {

/// The arena: byte storage, node storage, and the bump accounting.
pub struct Arena {
    pub data: Vec<u8>,
    pub nodes: Vec<Node>,
    pub used: usize,
    pub cap: usize,
    pub active: bool,
}

impl Arena {
    /// The accounting never lies: bytes stored fit in what was counted,
    /// the count never passes the capacity, and offsets fit in 32 bits.
    pub open spec fn wf(self) -> bool {
        &&& 1 <= self.data@.len()
        &&& self.data@.len() <= self.used
        &&& 16 * self.nodes@.len() <= self.used
        &&& self.used <= self.cap
        &&& self.cap <= u32::MAX
    }

    /// A fresh arena of `cap` bytes; the first byte is the null sentinel.
    pub fn new(cap: usize) -> (r: Arena)
        requires
            1 <= cap <= u32::MAX,
        ensures
            r.wf(),
            r.nodes@.len() == 0,
            r.data@.len() == 1,
            r.used == 1,
            r.cap == cap,
            r.active,
    {
        let mut data: Vec<u8> = Vec::new();
        data.push(0);
        Arena { data, nodes: Vec::new(), used: 1, cap, active: true }
    }

    /// Current high-water mark of the bump cursor.
    pub fn size(&self) -> (r: u32)
        requires
            self.wf(),
        ensures
            r == self.used,
    {
        self.used as u32
    }

    /// Whether the arena is still usable (not reset).
    pub fn valid(&self) -> (r: bool)
        ensures
            r == self.active,
    {
        self.active
    }

    /// Retires the arena. Legal only once the owning skiplist's reference
    /// count has reached zero; after this nothing may use it.
    pub fn reset(&mut self)
        ensures
            !final(self).active,
    {
        self.active = false;
    }

    /// Copies key bytes into the arena; fails, moving nothing, exactly when
    /// the capacity cannot take them.
    pub fn put_key(&mut self, key: &[u8]) -> (r: Result<(u32, u16), Error>)
        requires
            old(self).wf(),
            key@.len() <= u16::MAX,
        ensures
            final(self).nodes@ == old(self).nodes@,
            final(self).cap == old(self).cap,
            final(self).active == old(self).active,
            final(self).wf(),
            match r {
                Ok((off, sz)) => {
                    &&& old(self).used + key@.len() <= old(self).cap
                    &&& off == old(self).data@.len()
                    &&& sz == key@.len()
                    &&& final(self).data@ == old(self).data@ + key@
                    &&& final(self).used == old(self).used + key@.len()
                },
                Err(e) => {
                    &&& e == Error::CapacityExhausted
                    &&& old(self).used + key@.len() > old(self).cap
                    &&& final(self).data@ == old(self).data@
                    &&& final(self).used == old(self).used
                },
            },
    {
        if key.len() > self.cap - self.used {
            return Err(Error::CapacityExhausted);
        }
        let off = self.data.len() as u32;
        let mut i: usize = 0;
        let ghost pre = self.data@;
        while i < key.len()
            invariant
                i <= key@.len(),
                self.data@ == pre + key@.take(i as int),
                self.nodes@ == old(self).nodes@,
                self.used == old(self).used,
                self.cap == old(self).cap,
                self.active == old(self).active,
            decreases key@.len() - i,
        {
            let b = key[i];
            self.data.push(b);
            proof {
                assert(pre + key@.take(i + 1) =~= (pre + key@.take(i as int)).push(b));
            }
            i = i + 1;
        }
        proof {
            assert(key@.take(key@.len() as int) =~= key@);
        }
        self.used = self.used + key.len();
        Ok((off, key.len() as u16))
    }

    /// Encodes a value record into the arena; fails, moving nothing,
    /// exactly when the capacity cannot take it.
    pub fn put_val(&mut self, v: &ValueStruct) -> (r: Result<(u32, u16), Error>)
        requires
            old(self).wf(),
            VALUE_HEADER_SIZE + v.value@.len() <= u16::MAX,
        ensures
            final(self).nodes@ == old(self).nodes@,
            final(self).cap == old(self).cap,
            final(self).active == old(self).active,
            final(self).wf(),
            match r {
                Ok((off, sz)) => {
                    &&& old(self).used + spec_value_bytes(v@).len() <= old(self).cap
                    &&& off == old(self).data@.len()
                    &&& sz == spec_value_bytes(v@).len()
                    &&& final(self).data@ == old(self).data@ + spec_value_bytes(v@)
                    &&& final(self).used == old(self).used + spec_value_bytes(v@).len()
                },
                Err(e) => {
                    &&& e == Error::CapacityExhausted
                    &&& old(self).used + spec_value_bytes(v@).len() > old(self).cap
                    &&& final(self).data@ == old(self).data@
                    &&& final(self).used == old(self).used
                },
            },
    {
        proof {
            lemma_value_bytes_len(v@);
        }
        let sz = v.encoded_size();
        if sz > self.cap - self.used {
            return Err(Error::CapacityExhausted);
        }
        let off = self.data.len() as u32;
        append_value_bytes(&mut self.data, v);
        self.used = self.used + sz;
        Ok((off, sz as u16))
    }

    /// Adds a node to the arena; a short tower costs fewer accounted bytes.
    /// Fails, moving nothing, exactly when the capacity cannot take it.
    pub fn put_node(&mut self, node: Node) -> (r: Result<u32, Error>)
        requires
            old(self).wf(),
            1 <= node.height <= MAX_HEIGHT,
        ensures
            final(self).data@ == old(self).data@,
            final(self).cap == old(self).cap,
            final(self).active == old(self).active,
            final(self).wf(),
            match r {
                Ok(off) => {
                    &&& old(self).used + MAX_NODE_SIZE - (MAX_HEIGHT - node.height as usize)
                        * OFFSET_SIZE <= old(self).cap
                    &&& off == old(self).nodes@.len() + 1
                    &&& final(self).nodes@ == old(self).nodes@.push(node)
                    &&& final(self).used == old(self).used + MAX_NODE_SIZE - (MAX_HEIGHT
                        - node.height as usize) * OFFSET_SIZE
                },
                Err(e) => {
                    &&& e == Error::CapacityExhausted
                    &&& old(self).used + MAX_NODE_SIZE - (MAX_HEIGHT - node.height as usize)
                        * OFFSET_SIZE > old(self).cap
                    &&& final(self).nodes@ == old(self).nodes@
                    &&& final(self).used == old(self).used
                },
            },
    {
        let cost = Node::size_for_height(node.height as usize);
        if cost > self.cap - self.used {
            return Err(Error::CapacityExhausted);
        }
        self.nodes.push(node);
        self.used = self.used + cost;
        Ok(self.nodes.len() as u32)
    }

    /// Read-only view of the node at `off`.
    pub fn get_node(&self, off: u32) -> (r: &Node)
        requires
            1 <= off <= self.nodes@.len(),
        ensures
            r == self.nodes@[off - 1],
    {
        &self.nodes[(off - 1) as usize]
    }

    /// A copy of the key bytes at `off..off+size`.
    pub fn get_key(&self, off: u32, size: u16) -> (r: Vec<u8>)
        requires
            off + size <= self.data.len(),
        ensures
            r@ == self.data@.subrange(off as int, off + size),
    {
        let mut out: Vec<u8> = Vec::new();
        let mut i: usize = off as usize;
        let end = off as usize + size as usize;
        while i < end
            invariant
                off <= i <= end,
                end <= self.data.len(),
                end == off + size,
                out@ == self.data@.subrange(off as int, i as int),
            decreases end - i,
        {
            let b = self.data[i];
            out.push(b);
            proof {
                assert(self.data@.subrange(off as int, i + 1) =~= self.data@.subrange(
                    off as int,
                    i as int,
                ).push(b));
            }
            i = i + 1;
        }
        out
    }

    /// The value record encoded at `off..off+size`.
    pub fn get_val(&self, off: u32, size: u16) -> (r: ValueStruct)
        requires
            VALUE_HEADER_SIZE <= size,
            off + size <= self.data.len(),
        ensures
            r@ == spec_value_at(self.data@, off as int, size as int),
    {
        read_value_bytes(&self.data, off as usize, size as usize)
    }
}

} // verus!
