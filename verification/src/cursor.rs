//! A forward cursor over the skiplist: it remembers the offset of the node
//! it stands on and walks the level-0 chain. Stepping backwards is an
//! ascending-key search, deliberately O(log n) rather than a back-pointer.

use vstd::prelude::*;

use crate::skl::SkipList;
use crate::value::ValueStruct;

verus! {

/// A cursor: the offset of the current node, or 0 when not positioned.
pub struct Cursor {
    pub cur: u32,
}

impl SkipList {
    /// Hands out a cursor, taking one more reference on the list.
    pub fn new_cursor(&mut self) -> (r: Cursor)
        requires
            old(self).refs < usize::MAX,
        ensures
            *final(self) == (SkipList { refs: (old(self).refs + 1) as usize, ..*old(self) }),
            r.cur == 0,
    {
        self.incr_ref();
        Cursor { cur: 0 }
    }
}

impl Cursor {
    /// The cursor stands on a real node of the list, or nowhere.
    pub open spec fn ok(self, s: SkipList) -> bool {
        self.cur == 0 || s.ordv().contains(self.cur)
    }

    /// Whether the cursor stands on a node.
    pub fn valid(&self) -> (r: bool)
        ensures
            r == (self.cur != 0),
    {
        self.cur != 0
    }

    /// Moves to the first node of the list.
    pub fn seek_for_first(&mut self, s: &SkipList)
        requires
            s.wf(),
        ensures
            final(self).cur == (if s.ordv().len() > 0 {
                s.ordv()[0]
            } else {
                0u32
            }),
            final(self).ok(*s),
    {
        let n = s.get_next(1, 0);
        proof {
            crate::skl::lemma_next_idx(s.nodesv(), s.ordv(), 0, 0);
            if s.ordv().len() > 0 {
                assert(s.node_ok(s.ordv()[0]));
                assert(crate::skl::next_idx(s.nodesv(), s.ordv(), 0, 0) == 0);
            }
        }
        self.cur = n;
    }

    /// Moves to the last node of the list.
    pub fn seek_for_last(&mut self, s: &SkipList)
        requires
            s.wf(),
        ensures
            final(self).cur == (if s.ordv().len() > 0 {
                s.ordv()[s.ordv().len() - 1]
            } else {
                0u32
            }),
            final(self).ok(*s),
    {
        match s.find_last() {
            Some(o) => {
                proof {
                    assert(s.ordv().contains(s.ordv()[s.ordv().len() - 1]));
                }
                self.cur = o;
            },
            None => {
                self.cur = 0;
            },
        }
    }

    /// Moves to the first node whose key is at or above `key` and hands
    /// back its value; leaves the cursor unpositioned past the end.
    pub fn seek(&mut self, s: &SkipList, key: &[u8]) -> (r: Option<ValueStruct>)
        requires
            s.wf(),
            key@.len() >= 1,
        ensures
            ({
                let g = s.geq_pos(key@);
                let len = s.ordv().len() as int;
                &&& final(self).cur == (if g < len {
                    s.ordv()[g]
                } else {
                    0u32
                })
                &&& final(self).ok(*s)
                &&& (match r {
                    Some(v) => g < len && v@ == s.val_of(s.ordv()[g]),
                    None => g >= len,
                })
            }),
    {
        proof {
            crate::skl::lemma_first_geq(s.datav(), s.nodesv(), s.ordv(), key@);
        }
        let (n, _found) = s.find_near(key, false, true);
        match n {
            Some(o) => {
                self.cur = o;
                proof {
                    let g = s.geq_pos(key@);
                    assert(s.ordv().contains(s.ordv()[g]));
                    assert(s.node_ok(s.ordv()[g]));
                }
                let nd = s.arena.get_node(o);
                let (vo, vs) = nd.get_value_offset();
                Some(s.arena.get_val(vo, vs))
            },
            None => {
                self.cur = 0;
                None
            },
        }
    }

    /// Moves to the last node whose key is at or below `key` and hands back
    /// its value; leaves the cursor unpositioned before the start.
    pub fn seek_for_prev(&mut self, s: &SkipList, key: &[u8]) -> (r: Option<ValueStruct>)
        requires
            s.wf(),
            key@.len() >= 1,
        ensures
            ({
                let g = s.geq_pos(key@);
                let len = s.ordv().len() as int;
                let exact = g < len && s.key_of(s.ordv()[g]) == key@;
                let target: int = if exact {
                    g
                } else {
                    g - 1
                };
                &&& final(self).cur == (if target >= 0 {
                    s.ordv()[target]
                } else {
                    0u32
                })
                &&& final(self).ok(*s)
                &&& (match r {
                    Some(v) => target >= 0 && v@ == s.val_of(s.ordv()[target]),
                    None => target < 0,
                })
            }),
    {
        proof {
            crate::skl::lemma_first_geq(s.datav(), s.nodesv(), s.ordv(), key@);
        }
        let (n, _found) = s.find_near(key, true, true);
        match n {
            Some(o) => {
                self.cur = o;
                proof {
                    let g = s.geq_pos(key@);
                    let exact = g < s.ordv().len() && s.key_of(s.ordv()[g]) == key@;
                    let target: int = if exact {
                        g
                    } else {
                        g - 1
                    };
                    assert(s.ordv().contains(s.ordv()[target]));
                    assert(s.node_ok(s.ordv()[target]));
                }
                let nd = s.arena.get_node(o);
                let (vo, vs) = nd.get_value_offset();
                Some(s.arena.get_val(vo, vs))
            },
            None => {
                self.cur = 0;
                None
            },
        }
    }

    /// Steps to the next node in key order; past the last node the cursor
    /// becomes unpositioned.
    pub fn next(&mut self, s: &SkipList)
        requires
            s.wf(),
            old(self).cur != 0,
            old(self).ok(*s),
        ensures
            ({
                let p = s.pos_of(old(self).cur);
                let len = s.ordv().len() as int;
                &&& final(self).cur == (if p + 1 < len {
                    s.ordv()[p + 1]
                } else {
                    0u32
                })
                &&& final(self).ok(*s)
            }),
    {
        proof {
            let p = s.pos_of(self.cur);
            assert(s.ordv()[p] == self.cur);
            assert(s.node_ok(self.cur));
            crate::skl::lemma_next_idx(s.nodesv(), s.ordv(), p + 1, 0);
            if p + 1 < s.ordv().len() {
                assert(s.node_ok(s.ordv()[p + 1]));
                assert(crate::skl::next_idx(s.nodesv(), s.ordv(), p + 1, 0) == p + 1);
            }
        }
        self.cur = s.get_next(self.cur, 0);
    }

    /// Steps to the previous node in key order, by an ascending search from
    /// the top; before the first node the cursor becomes unpositioned.
    pub fn prev(&mut self, s: &SkipList)
        requires
            s.wf(),
            old(self).cur != 0,
            old(self).ok(*s),
        ensures
            ({
                let p = s.pos_of(old(self).cur);
                &&& final(self).cur == (if p > 0 {
                    s.ordv()[p - 1]
                } else {
                    0u32
                })
                &&& final(self).ok(*s)
            }),
    {
        let k = self.key(s);
        proof {
            crate::skl::lemma_first_geq(s.datav(), s.nodesv(), s.ordv(), k@);
            let p = s.pos_of(self.cur);
            assert(s.ordv()[p] == self.cur);
            assert(s.key_of(s.ordv()[p]) == k@);
            assert(s.geq_pos(k@) == p);
        }
        let (n, _found) = s.find_near(k.as_slice(), true, false);
        match n {
            Some(o) => {
                proof {
                    let p = s.pos_of(old(self).cur);
                    assert(s.ordv().contains(s.ordv()[p - 1]));
                }
                self.cur = o;
            },
            None => {
                self.cur = 0;
            },
        }
    }

    /// The key of the node the cursor stands on.
    pub fn key(&self, s: &SkipList) -> (r: Vec<u8>)
        requires
            s.wf(),
            self.cur != 0,
            self.ok(*s),
        ensures
            r@ == s.key_of(self.cur),
            r@.len() >= 1,
    {
        proof {
            let p = s.pos_of(self.cur);
            assert(s.ordv()[p] == self.cur);
            assert(s.node_ok(self.cur));
        }
        let nd = s.arena.get_node(self.cur);
        s.arena.get_key(nd.key_offset, nd.key_size)
    }

    /// The value of the node the cursor stands on.
    pub fn value(&self, s: &SkipList) -> (r: ValueStruct)
        requires
            s.wf(),
            self.cur != 0,
            self.ok(*s),
        ensures
            r@ == s.val_of(self.cur),
    {
        proof {
            let p = s.pos_of(self.cur);
            assert(s.ordv()[p] == self.cur);
            assert(s.node_ok(self.cur));
        }
        let nd = s.arena.get_node(self.cur);
        let (vo, vs) = nd.get_value_offset();
        s.arena.get_val(vo, vs)
    }

    /// Releases the cursor's reference on the list and unpositions it.
    pub fn close(&mut self, s: &mut SkipList)
        requires
            old(s).refs >= 1,
        ensures
            final(self).cur == 0,
            final(s).refs == old(s).refs - 1,
            final(s).refs == 0 ==> !final(s).arena.active,
    {
        s.decr_ref();
        self.cur = 0;
    }
}

} // verus!
