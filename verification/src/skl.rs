//! The skiplist memtable: an ordered map over an arena, every node placed
//! by 32-bit offsets and linked through truncated towers of next-offsets.
//! The ghost order `ord` lists the node offsets ascending by key; every
//! tower entry provably points to the next node of sufficient height, which
//! is what makes the level-descending searches correct.

use vstd::prelude::*;

use crate::arena::Arena;
use crate::errors::Error;
use crate::node::{spec_slot_offset, spec_slot_size, Node, MAX_HEIGHT, MAX_NODE_SIZE, OFFSET_SIZE};
use crate::value::{spec_value_at, spec_value_bytes, ValueStruct, ValueView, VALUE_HEADER_SIZE};

verus! {

/// A fresh uniform draw at or below this grows the tower one more level:
/// a third of the 32-bit range, giving geometric heights with p = 1/3.
pub const HEIGHT_INCREASE: u32 = u32::MAX / 3;

/// Strict lexicographic order on byte strings.
pub open spec fn lex_lt(a: Seq<u8>, b: Seq<u8>) -> bool
    decreases a.len(),
{
    if b.len() == 0 {
        false
    } else if a.len() == 0 {
        true
    } else if a[0] < b[0] {
        true
    } else if a[0] > b[0] {
        false
    } else {
        lex_lt(a.drop_first(), b.drop_first())
    }
}

/// Any two byte strings compare: below, above, or equal.
pub proof fn lemma_lex_total(a: Seq<u8>, b: Seq<u8>)
    ensures
        lex_lt(a, b) || lex_lt(b, a) || a == b,
    decreases a.len(),
{
    if b.len() == 0 {
        if a.len() == 0 {
            assert(a =~= b);
        }
    } else if a.len() == 0 {
    } else if a[0] < b[0] {
    } else if a[0] > b[0] {
    } else {
        lemma_lex_total(a.drop_first(), b.drop_first());
        if a.drop_first() == b.drop_first() {
            assert(a.drop_first().len() == a.len() - 1);
            assert(b.drop_first().len() == b.len() - 1);
            assert(a.len() == b.len());
            assert forall|j: int| 0 <= j < a.len() implies a[j] == b[j] by {
                if j > 0 {
                    assert(a.drop_first()[j - 1] == b.drop_first()[j - 1]);
                }
            }
            assert(a =~= b);
        }
    }
}

/// No byte string is below itself.
pub proof fn lemma_lex_irrefl(a: Seq<u8>)
    ensures
        !lex_lt(a, a),
    decreases a.len(),
{
    if a.len() > 0 {
        lemma_lex_irrefl(a.drop_first());
    }
}

/// The lexicographic order is transitive.
pub proof fn lemma_lex_trans(a: Seq<u8>, b: Seq<u8>, c: Seq<u8>)
    requires
        lex_lt(a, b),
        lex_lt(b, c),
    ensures
        lex_lt(a, c),
    decreases a.len(),
{
    if c.len() == 0 {
    } else if b.len() == 0 {
    } else if a.len() == 0 {
    } else {
        if a[0] == b[0] && b[0] == c[0] {
            lemma_lex_trans(a.drop_first(), b.drop_first(), c.drop_first());
        }
    }
}

/// Equal prefixes up to `i` and a first difference (or exhaustion of `a`)
/// at `i` decide the order.
pub proof fn lemma_lex_from_prefix(a: Seq<u8>, b: Seq<u8>, i: int)
    requires
        0 <= i <= a.len(),
        i <= b.len(),
        a.take(i) == b.take(i),
        (i < a.len() && i < b.len() && a[i] < b[i]) || (i == a.len() && i < b.len()),
    ensures
        lex_lt(a, b),
    decreases i,
{
    if i == 0 {
    } else {
        assert(a.take(i)[0] == b.take(i)[0]);
        assert(a.take(i)[0] == a[0] && b.take(i)[0] == b[0]);
        assert(a[0] == b[0]);
        assert(a.drop_first().take(i - 1) =~= b.drop_first().take(i - 1)) by {
            assert forall|j: int| 0 <= j < i - 1 implies a.drop_first()[j] == b.drop_first()[j] by {
                assert(a.take(i)[j + 1] == b.take(i)[j + 1]);
                assert(a.take(i)[j + 1] == a[j + 1] && b.take(i)[j + 1] == b[j + 1]);
                assert(a.drop_first()[j] == a[j + 1] && b.drop_first()[j] == b[j + 1]);
            }
        }
        lemma_lex_from_prefix(a.drop_first(), b.drop_first(), i - 1);
    }
}

/// Equal prefixes of equal full length mean equal strings.
pub proof fn lemma_eq_from_prefix(a: Seq<u8>, b: Seq<u8>)
    requires
        a.len() == b.len(),
        a.take(a.len() as int) == b.take(b.len() as int),
    ensures
        a == b,
{
    assert(a =~= b) by {
        assert forall|j: int| 0 <= j < a.len() implies a[j] == b[j] by {
            assert(a.take(a.len() as int)[j] == b.take(b.len() as int)[j]);
        }
    }
}

/// The node stored at offset `off` (offsets start at 1).
pub open spec fn node_at(nodes: Seq<Node>, off: u32) -> Node {
    nodes[off - 1]
}

/// The tower height of the node at `off`.
pub open spec fn height_of(nodes: Seq<Node>, off: u32) -> int {
    node_at(nodes, off).height as int
}

/// The key bytes of the node at `off`.
pub open spec fn key_at(data: Seq<u8>, nodes: Seq<Node>, off: u32) -> Seq<u8> {
    let n = node_at(nodes, off);
    data.subrange(n.key_offset as int, n.key_offset + n.key_size)
}

/// The first position at or after `i` whose node rises above `lvl`, or the
/// length when none does.
pub open spec fn next_idx(nodes: Seq<Node>, ord: Seq<u32>, i: int, lvl: int) -> int
    decreases ord.len() - i,
{
    if i < 0 || i >= ord.len() {
        ord.len() as int
    } else if height_of(nodes, ord[i]) > lvl {
        i
    } else {
        next_idx(nodes, ord, i + 1, lvl)
    }
}

/// The offset of the node at `next_idx`, or the null offset 0.
pub open spec fn next_from(nodes: Seq<Node>, ord: Seq<u32>, i: int, lvl: int) -> u32 {
    let j = next_idx(nodes, ord, i, lvl);
    if j < ord.len() {
        ord[j]
    } else {
        0
    }
}

/// What next_idx promises: it is the first qualifying position.
pub proof fn lemma_next_idx(nodes: Seq<Node>, ord: Seq<u32>, i: int, lvl: int)
    requires
        0 <= i <= ord.len(),
    ensures
        i <= next_idx(nodes, ord, i, lvl) <= ord.len(),
        forall|q: int|
            i <= q < next_idx(nodes, ord, i, lvl) ==> height_of(nodes, #[trigger] ord[q]) <= lvl,
        next_idx(nodes, ord, i, lvl) < ord.len() ==> height_of(
            nodes,
            ord[next_idx(nodes, ord, i, lvl)],
        ) > lvl,
    decreases ord.len() - i,
{
    if i < ord.len() && height_of(nodes, ord[i]) <= lvl {
        lemma_next_idx(nodes, ord, i + 1, lvl);
    }
}

/// next_idx reads only the heights of the nodes along the order.
pub proof fn lemma_next_idx_heights(
    nodes_a: Seq<Node>,
    nodes_b: Seq<Node>,
    ord: Seq<u32>,
    i: int,
    lvl: int,
)
    requires
        0 <= i <= ord.len(),
        forall|q: int|
            i <= q < ord.len() ==> height_of(nodes_a, #[trigger] ord[q]) == height_of(
                nodes_b,
                ord[q],
            ),
    ensures
        next_idx(nodes_a, ord, i, lvl) == next_idx(nodes_b, ord, i, lvl),
    decreases ord.len() - i,
{
    if i < ord.len() && height_of(nodes_a, ord[i]) <= lvl {
        lemma_next_idx_heights(nodes_a, nodes_b, ord, i + 1, lvl);
    }
}

/// The first position the search key could sit at: positions before it hold
/// strictly smaller keys, positions at or after it hold keys not below the
/// search key.
pub open spec fn first_geq_from(
    data: Seq<u8>,
    nodes: Seq<Node>,
    ord: Seq<u32>,
    k: Seq<u8>,
    i: int,
) -> int
    decreases ord.len() - i,
{
    if i < 0 || i >= ord.len() {
        ord.len() as int
    } else if !lex_lt(key_at(data, nodes, ord[i]), k) {
        i
    } else {
        first_geq_from(data, nodes, ord, k, i + 1)
    }
}

/// The position where key `k` would sit.
pub open spec fn first_geq(data: Seq<u8>, nodes: Seq<Node>, ord: Seq<u32>, k: Seq<u8>) -> int {
    first_geq_from(data, nodes, ord, k, 0)
}

/// The tower entry of the order's `i`-th node at level `lvl` points to the
/// next node of the order that rises above `lvl`.
pub open spec fn tower_ok_at(nodes: Seq<Node>, ord: Seq<u32>, i: int, lvl: int) -> bool {
    node_at(nodes, ord[i]).tower@[lvl] == next_from(nodes, ord, i + 1, lvl)
}

/// The head's tower entry at level `lvl` points to the first node of the
/// order that rises above `lvl`.
pub open spec fn head_tower_ok(nodes: Seq<Node>, ord: Seq<u32>, lvl: int) -> bool {
    node_at(nodes, 1).tower@[lvl] == next_from(nodes, ord, 0, lvl)
}

/// Keys ascending along the order.
pub open spec fn keys_sorted(data: Seq<u8>, nodes: Seq<Node>, ord: Seq<u32>) -> bool {
    forall|i: int, j: int|
        0 <= i < j < ord.len() ==> lex_lt(
            key_at(data, nodes, #[trigger] ord[i]),
            key_at(data, nodes, #[trigger] ord[j]),
        )
}

/// On a sorted order, first_geq splits the keys: strictly smaller before
/// it, not smaller from it on, and an equal key can only sit exactly there.
pub proof fn lemma_first_geq(data: Seq<u8>, nodes: Seq<Node>, ord: Seq<u32>, k: Seq<u8>)
    requires
        keys_sorted(data, nodes, ord),
    ensures
        0 <= first_geq(data, nodes, ord, k) <= ord.len(),
        forall|q: int|
            0 <= q < first_geq(data, nodes, ord, k) ==> lex_lt(
                key_at(data, nodes, #[trigger] ord[q]),
                k,
            ),
        forall|q: int|
            first_geq(data, nodes, ord, k) <= q < ord.len() ==> !lex_lt(
                key_at(data, nodes, #[trigger] ord[q]),
                k,
            ),
        forall|q: int|
            0 <= q < ord.len() && key_at(data, nodes, #[trigger] ord[q]) == k ==> q == first_geq(
                data,
                nodes,
                ord,
                k,
            ),
{
    lemma_first_geq_from(data, nodes, ord, k, 0);
    let g = first_geq(data, nodes, ord, k);
    assert forall|q: int|
        g <= q < ord.len() implies !lex_lt(key_at(data, nodes, #[trigger] ord[q]), k) by {
        if q > g {
            if lex_lt(key_at(data, nodes, ord[q]), k) {
                lemma_lex_trans(key_at(data, nodes, ord[g]), key_at(data, nodes, ord[q]), k);
            }
        }
    }
    assert forall|q: int|
        0 <= q < ord.len() && key_at(data, nodes, #[trigger] ord[q]) == k implies q == g by {
        if q < g {
            lemma_lex_irrefl(k);
        } else if q > g {
            assert(lex_lt(key_at(data, nodes, ord[g]), key_at(data, nodes, ord[q])));
            assert(!lex_lt(key_at(data, nodes, ord[g]), k));
        }
    }
}

/// The recursion behind lemma_first_geq.
proof fn lemma_first_geq_from(data: Seq<u8>, nodes: Seq<Node>, ord: Seq<u32>, k: Seq<u8>, i: int)
    requires
        0 <= i <= ord.len(),
    ensures
        i <= first_geq_from(data, nodes, ord, k, i) <= ord.len(),
        forall|q: int|
            i <= q < first_geq_from(data, nodes, ord, k, i) ==> lex_lt(
                key_at(data, nodes, #[trigger] ord[q]),
                k,
            ),
        first_geq_from(data, nodes, ord, k, i) < ord.len() ==> !lex_lt(
            key_at(data, nodes, ord[first_geq_from(data, nodes, ord, k, i)]),
            k,
        ),
    decreases ord.len() - i,
{
    if i < ord.len() && lex_lt(key_at(data, nodes, ord[i]), k) {
        lemma_first_geq_from(data, nodes, ord, k, i + 1);
    }
}

/// The skiplist: arena-backed nodes, a current height, a reference count,
/// and the ghost key-ascending order of all inserted nodes. Offset 1 is the
/// head sentinel, never part of the order.
pub struct SkipList {
    pub arena: Arena,
    pub height: usize,
    pub refs: usize,
    pub ord: Ghost<Seq<u32>>,
}

impl SkipList {
    /// The node offsets in key order.
    pub open spec fn ordv(self) -> Seq<u32> {
        self.ord@
    }

    /// The node storage.
    pub open spec fn nodesv(self) -> Seq<Node> {
        self.arena.nodes@
    }

    /// The byte storage.
    pub open spec fn datav(self) -> Seq<u8> {
        self.arena.data@
    }

    /// The key of the node at `off`.
    pub open spec fn key_of(self, off: u32) -> Seq<u8> {
        key_at(self.datav(), self.nodesv(), off)
    }

    /// The decoded value of the node at `off`.
    pub open spec fn val_of(self, off: u32) -> ValueView {
        let n = node_at(self.nodesv(), off);
        spec_value_at(
            self.datav(),
            spec_slot_offset(n.value) as int,
            spec_slot_size(n.value) as int,
        )
    }

    /// A sound member of the order: tower as tall as the height says, the
    /// height within the observed list height, and key and value ranges
    /// inside the byte storage.
    pub open spec fn node_ok(self, off: u32) -> bool {
        &&& 1 <= off <= self.nodesv().len()
        &&& {
            let n = node_at(self.nodesv(), off);
            &&& n.tower@.len() == n.height
            &&& 1 <= n.height <= self.height
            &&& n.key_offset + n.key_size <= self.datav().len()
            &&& n.key_size >= 1
            &&& spec_slot_size(n.value) >= VALUE_HEADER_SIZE
            &&& spec_slot_offset(n.value) + spec_slot_size(n.value) <= self.datav().len()
        }
    }

    /// The whole structure invariant.
    pub open spec fn wf(self) -> bool {
        &&& self.arena.wf()
        &&& self.nodesv().len() >= 1
        &&& node_at(self.nodesv(), 1).height == MAX_HEIGHT
        &&& node_at(self.nodesv(), 1).tower@.len() == MAX_HEIGHT
        &&& node_at(self.nodesv(), 1).key_size == 0
        &&& node_at(self.nodesv(), 1).key_offset == 0
        &&& 1 <= self.height <= MAX_HEIGHT
        &&& self.ordv().no_duplicates()
        &&& (forall|o: u32| self.ordv().contains(o) <==> 2 <= o <= self.nodesv().len())
        &&& (forall|i: int| 0 <= i < self.ordv().len() ==> self.node_ok(#[trigger] self.ordv()[i]))
        &&& keys_sorted(self.datav(), self.nodesv(), self.ordv())
        &&& (forall|lvl: int|
            0 <= lvl < MAX_HEIGHT ==> #[trigger] head_tower_ok(self.nodesv(), self.ordv(), lvl))
        &&& (forall|i: int, lvl: int|
            0 <= i < self.ordv().len() && 0 <= lvl < height_of(self.nodesv(), self.ordv()[i])
                ==> #[trigger] tower_ok_at(self.nodesv(), self.ordv(), i, lvl))
    }

    /// Where key `k` would sit in the order.
    pub open spec fn geq_pos(self, k: Seq<u8>) -> int {
        first_geq(self.datav(), self.nodesv(), self.ordv(), k)
    }

    /// Whether some node holds key `k`.
    pub open spec fn spec_has_key(self, k: Seq<u8>) -> bool {
        exists|i: int|
            0 <= i < self.ordv().len() && self.key_of(#[trigger] self.ordv()[i]) == k
    }

    /// The value stored for key `k`.
    pub open spec fn spec_get(self, k: Seq<u8>) -> Option<ValueView> {
        if self.spec_has_key(k) {
            let i = choose|i: int|
                0 <= i < self.ordv().len() && self.key_of(#[trigger] self.ordv()[i]) == k;
            Some(self.val_of(self.ordv()[i]))
        } else {
            None
        }
    }

    /// On a well-formed list, key `k` is present exactly when the node at
    /// its insertion position carries it, and the stored value is that
    /// node's.
    pub proof fn lemma_get_at_geq(self, k: Seq<u8>)
        requires
            self.wf(),
        ensures
            0 <= self.geq_pos(k) <= self.ordv().len(),
            self.spec_has_key(k) <==> (self.geq_pos(k) < self.ordv().len() && self.key_of(
                self.ordv()[self.geq_pos(k)],
            ) == k),
            self.spec_has_key(k) ==> self.spec_get(k) == Some(
                self.val_of(self.ordv()[self.geq_pos(k)]),
            ),
    {
        lemma_first_geq(self.datav(), self.nodesv(), self.ordv(), k);
        let g = self.geq_pos(k);
        if self.spec_has_key(k) {
            let i = choose|i: int|
                0 <= i < self.ordv().len() && self.key_of(#[trigger] self.ordv()[i]) == k;
            assert(i == g);
        }
    }

    /// The current list height.
    pub fn get_height(&self) -> (r: usize)
        ensures
            r == self.height,
    {
        self.height
    }

    /// The successor of the node at `off` (1 for the head) at tower level
    /// `level`, or 0 at the end of that level's chain.
    pub(crate) fn get_next(&self, off: u32, level: usize) -> (r: u32)
        requires
            self.wf(),
            off == 1 || self.ordv().contains(off),
            off == 1 || level < height_of(self.nodesv(), off),
            off == 1 ==> level < MAX_HEIGHT,
        ensures
            ({
                let p = if off == 1 {
                    -1
                } else {
                    self.ordv().index_of(off)
                };
                r == next_from(self.nodesv(), self.ordv(), p + 1, level as int)
            }),
            r != 0 ==> self.ordv().contains(r) && level < height_of(self.nodesv(), r),
    {
        proof {
            if off != 1 {
                let i = self.ordv().index_of(off);
                assert(0 <= i < self.ordv().len() && self.ordv()[i] == off);
                assert(self.node_ok(self.ordv()[i]));
                assert(tower_ok_at(self.nodesv(), self.ordv(), i, level as int));
            } else {
                assert(head_tower_ok(self.nodesv(), self.ordv(), level as int));
            }
            let p: int = if off == 1 {
                -1
            } else {
                self.ordv().index_of(off)
            };
            lemma_next_idx(self.nodesv(), self.ordv(), p + 1, level as int);
            let j = next_idx(self.nodesv(), self.ordv(), p + 1, level as int);
            if j < self.ordv().len() {
                assert(self.ordv().contains(self.ordv()[j]));
                assert(self.node_ok(self.ordv()[j]));
            }
        }
        let node = self.arena.get_node(off);
        node.get_next_offset(level)
    }

    /// Three-way comparison of a search key against the key of the node at
    /// `off`: negative below, zero equal, positive above.
    fn compare_key(&self, key: &[u8], off: u32) -> (c: i32)
        requires
            self.wf(),
            self.ordv().contains(off),
        ensures
            c == -1 || c == 0 || c == 1,
            (c == -1) <==> lex_lt(key@, self.key_of(off)),
            (c == 0) <==> key@ == self.key_of(off),
            (c == 1) <==> lex_lt(self.key_of(off), key@),
    {
        proof {
            let i = self.ordv().index_of(off);
            assert(self.ordv()[i] == off);
            assert(self.node_ok(self.ordv()[i]));
            lemma_lex_total(key@, self.key_of(off));
            lemma_lex_irrefl(key@);
            if lex_lt(key@, self.key_of(off)) && lex_lt(self.key_of(off), key@) {
                lemma_lex_trans(key@, self.key_of(off), key@);
            }
        }
        let node = self.arena.get_node(off);
        let ko = node.key_offset as usize;
        let ks = node.key_size as usize;
        let ghost nk = self.key_of(off);
        let mut i: usize = 0;
        while i < key.len() && i < ks
            invariant
                self.wf(),
                i <= key@.len(),
                i <= ks,
                ks == node_at(self.nodesv(), off).key_size,
                ko == node_at(self.nodesv(), off).key_offset,
                ko + ks <= self.datav().len(),
                nk == self.key_of(off),
                nk.len() == ks,
                key@.take(i as int) == nk.take(i as int),
            decreases key@.len() - i,
        {
            let a = key[i];
            let b = self.arena.data[ko + i];
            proof {
                assert(nk[i as int] == self.datav()[ko + i]);
            }
            if a < b {
                proof {
                    lemma_lex_from_prefix(key@, nk, i as int);
                    lemma_lex_irrefl(key@);
                    if lex_lt(nk, key@) {
                        lemma_lex_trans(key@, nk, key@);
                    }
                }
                return -1;
            }
            if a > b {
                proof {
                    lemma_lex_from_prefix(nk, key@, i as int);
                    lemma_lex_irrefl(nk);
                    if lex_lt(key@, nk) {
                        lemma_lex_trans(nk, key@, nk);
                    }
                }
                return 1;
            }
            proof {
                assert(key@.take(i + 1) =~= key@.take(i as int).push(a));
                assert(nk.take(i + 1) =~= nk.take(i as int).push(b));
            }
            i = i + 1;
        }
        if key.len() == ks {
            proof {
                lemma_eq_from_prefix(key@, nk);
                lemma_lex_irrefl(key@);
            }
            0
        } else if key.len() < ks {
            proof {
                lemma_lex_from_prefix(key@, nk, key@.len() as int);
                lemma_lex_irrefl(key@);
                if lex_lt(nk, key@) {
                    lemma_lex_trans(key@, nk, key@);
                }
            }
            -1
        } else {
            proof {
                lemma_lex_from_prefix(nk, key@, ks as int);
                lemma_lex_irrefl(nk);
                if lex_lt(key@, nk) {
                    lemma_lex_trans(nk, key@, nk);
                }
            }
            1
        }
    }

    /// Finds the node nearest to `key`. With `less` false it is the
    /// leftmost node at or above the key (above only, without
    /// `allow_equal`); with `less` true the rightmost node at or below it
    /// (below only, without `allow_equal`). The flag reports an exact match
    /// handed back.
    pub fn find_near(&self, key: &[u8], less: bool, allow_equal: bool) -> (r: (Option<u32>, bool))
        requires
            self.wf(),
            key@.len() >= 1,
        ensures
            ({
                let g = self.geq_pos(key@);
                let len = self.ordv().len() as int;
                let exact = g < len && self.key_of(self.ordv()[g]) == key@;
                &&& r.1 == (exact && allow_equal)
                &&& r.0 == (if exact && allow_equal {
                    Some(self.ordv()[g])
                } else if !less {
                    let t = if exact {
                        g + 1
                    } else {
                        g
                    };
                    if t < len {
                        Some(self.ordv()[t])
                    } else {
                        None
                    }
                } else {
                    if g > 0 {
                        Some(self.ordv()[g - 1])
                    } else {
                        None
                    }
                })
            }),
            r.0 is Some ==> self.ordv().contains(r.0.unwrap()),
    {
        proof {
            lemma_first_geq(self.datav(), self.nodesv(), self.ordv(), key@);
        }
        let ghost g = self.geq_pos(key@);
        let mut x: u32 = 1;
        let ghost mut px: int = -1;
        let mut level: usize = self.get_height() - 1;
        loop
            invariant
                self.wf(),
                key@.len() >= 1,
                g == self.geq_pos(key@),
                level < MAX_HEIGHT,
                x == 1 ==> px == -1,
                x != 1 ==> 0 <= px < self.ordv().len() && self.ordv()[px] == x && lex_lt(
                    self.key_of(x),
                    key@,
                ),
                x != 1 ==> level < height_of(self.nodesv(), x),
                px < g,
            decreases level, g - px,
        {
            let next = self.get_next(x, level);
            proof {
                lemma_next_idx(self.nodesv(), self.ordv(), px + 1, level as int);
                lemma_first_geq(self.datav(), self.nodesv(), self.ordv(), key@);
            }
            if next == 0 {
                proof {
                    assert(next_idx(self.nodesv(), self.ordv(), px + 1, level as int)
                        == self.ordv().len());
                }
                if level > 0 {
                    level = level - 1;
                } else {
                    proof {
                        // every node past px has height at least one, so px
                        // is the last position, and every key is below the
                        // search key
                        if px + 1 < self.ordv().len() {
                            assert(self.node_ok(self.ordv()[px + 1]));
                            assert(height_of(self.nodesv(), self.ordv()[px + 1]) <= 0);
                            assert(false);
                        }
                        assert(g == px + 1);
                    }
                    if !less {
                        return (None, false);
                    }
                    if x == 1 {
                        return (None, false);
                    }
                    return (Some(x), false);
                }
            } else {
                let ghost pn = next_idx(self.nodesv(), self.ordv(), px + 1, level as int);
                proof {
                    assert(self.ordv()[pn] == next);
                }
                let c = self.compare_key(key, next);
                if c == 1 {
                    // key of next below the search key: move right
                    proof {
                        assert(pn < g);
                    }
                    x = next;
                    proof {
                        px = pn;
                    }
                } else if c == 0 {
                    // exact key found at position pn == g
                    proof {
                        assert(pn == g);
                    }
                    if allow_equal {
                        return (Some(next), true);
                    }
                    if !less {
                        let nn = self.get_next(next, 0);
                        proof {
                            lemma_next_idx(self.nodesv(), self.ordv(), g + 1, 0);
                            if g + 1 < self.ordv().len() {
                                assert(self.node_ok(self.ordv()[g + 1]));
                                assert(next_idx(self.nodesv(), self.ordv(), g + 1, 0) == g + 1);
                            }
                        }
                        if nn == 0 {
                            return (None, false);
                        }
                        return (Some(nn), false);
                    }
                    if level > 0 {
                        level = level - 1;
                    } else {
                        proof {
                            if px + 1 < g {
                                assert(self.node_ok(self.ordv()[px + 1]));
                                assert(height_of(self.nodesv(), self.ordv()[px + 1]) <= 0);
                                assert(false);
                            }
                            assert(px == g - 1);
                        }
                        if x == 1 {
                            return (None, false);
                        }
                        return (Some(x), false);
                    }
                } else {
                    // key of next above the search key
                    proof {
                        assert(pn >= g) by {
                            if pn < g {
                                assert(lex_lt(self.key_of(self.ordv()[pn]), key@));
                            }
                        }
                    }
                    if level > 0 {
                        level = level - 1;
                    } else {
                        proof {
                            if px + 1 < pn {
                                assert(self.node_ok(self.ordv()[px + 1]));
                                assert(height_of(self.nodesv(), self.ordv()[px + 1]) <= 0);
                                assert(false);
                            }
                            assert(pn == px + 1);
                            assert(pn == g);
                        }
                        if !less {
                            return (Some(next), false);
                        }
                        if x == 1 {
                            return (None, false);
                        }
                        return (Some(x), false);
                    }
                }
            }
        }
    }

    /// The value stored for `key`, or None when the key is absent.
    pub fn get(&self, key: &[u8]) -> (r: Option<ValueStruct>)
        requires
            self.wf(),
            key@.len() >= 1,
        ensures
            match r {
                Some(v) => self.spec_get(key@) == Some(v@),
                None => self.spec_get(key@) == None::<ValueView>,
            },
    {
        proof {
            self.lemma_get_at_geq(key@);
        }
        let (node, found) = self.find_near(key, false, true);
        if !found {
            return None;
        }
        let off = match node {
            Some(o) => o,
            None => {
                proof {
                    assert(false);
                }
                0
            },
        };
        proof {
            let i = self.ordv().index_of(off);
            assert(self.ordv()[i] == off);
            assert(self.node_ok(self.ordv()[i]));
        }
        let n = self.arena.get_node(off);
        let (vo, vs) = n.get_value_offset();
        Some(self.arena.get_val(vo, vs))
    }

    /// The last node of the list, or None when the list is empty.
    pub(crate) fn find_last(&self) -> (r: Option<u32>)
        requires
            self.wf(),
        ensures
            match r {
                Some(o) => self.ordv().len() > 0 && o == self.ordv()[self.ordv().len() - 1],
                None => self.ordv().len() == 0,
            },
    {
        let mut x: u32 = 1;
        let ghost mut px: int = -1;
        let mut level: usize = self.get_height() - 1;
        loop
            invariant
                self.wf(),
                level < MAX_HEIGHT,
                x == 1 ==> px == -1,
                x != 1 ==> 0 <= px < self.ordv().len() && self.ordv()[px] == x,
                x != 1 ==> level < height_of(self.nodesv(), x),
                forall|q: int|
                    px < q < self.ordv().len() ==> height_of(self.nodesv(), #[trigger] self.ordv()[q])
                        <= level + 1,
            decreases level, self.ordv().len() - px,
        {
            let next = self.get_next(x, level);
            proof {
                lemma_next_idx(self.nodesv(), self.ordv(), px + 1, level as int);
            }
            if next != 0 {
                x = next;
                proof {
                    px = next_idx(self.nodesv(), self.ordv(), px + 1, level as int);
                }
            } else if level == 0 {
                proof {
                    if px + 1 < self.ordv().len() {
                        assert(self.node_ok(self.ordv()[px + 1]));
                        assert(height_of(self.nodesv(), self.ordv()[px + 1]) <= 0);
                        assert(false);
                    }
                }
                if x == 1 {
                    return None;
                }
                return Some(x);
            } else {
                level = level - 1;
            }
        }
    }

    /// Whether the list holds no keys at all.
    pub fn empty(&self) -> (r: bool)
        requires
            self.wf(),
        ensures
            r == (self.ordv().len() == 0),
    {
        self.find_last().is_none()
    }

    /// Bytes used inside the internal arena.
    pub fn mem_size(&self) -> (r: u32)
        requires
            self.wf(),
        ensures
            r == self.arena.used,
    {
        self.arena.size()
    }

    /// Whether the backing arena is still usable.
    pub fn valid(&self) -> (r: bool)
        ensures
            r == self.arena.active,
    {
        self.arena.valid()
    }

    /// Takes one more reference.
    pub fn incr_ref(&mut self)
        requires
            old(self).refs < usize::MAX,
        ensures
            *final(self) == (SkipList { refs: (old(self).refs + 1) as usize, ..*old(self) }),
    {
        self.refs = self.refs + 1;
    }

    /// Releases one reference; the last one retires the arena.
    pub fn decr_ref(&mut self)
        requires
            old(self).refs >= 1,
        ensures
            final(self).refs == old(self).refs - 1,
            final(self).refs > 0 ==> *final(self) == (SkipList {
                refs: (old(self).refs - 1) as usize,
                ..*old(self)
            }),
            final(self).refs == 0 ==> !final(self).arena.active,
    {
        self.refs = self.refs - 1;
        if self.refs == 0 {
            self.arena.reset();
        }
    }

    /// Releases the caller's reference.
    pub fn close(&mut self)
        requires
            old(self).refs >= 1,
        ensures
            final(self).refs == old(self).refs - 1,
    {
        self.decr_ref();
    }

    /// A fresh empty skiplist over an arena of `arena_size` bytes.
    pub fn new(arena_size: usize) -> (r: SkipList)
        requires
            MAX_NODE_SIZE < arena_size <= u32::MAX,
        ensures
            r.wf(),
            r.ordv().len() == 0,
            r.refs == 1,
            r.height == 1,
            r.arena.active,
            r.arena.cap == arena_size,
            r.arena.used == 1 + MAX_NODE_SIZE,
            forall|k: Seq<u8>| r.spec_get(k) == None::<ValueView>,
            forall|k: Seq<u8>| !r.spec_has_key(k),
    {
        let mut arena = Arena::new(arena_size);
        let mut tower: Vec<u32> = Vec::new();
        let mut i: usize = 0;
        while i < MAX_HEIGHT
            invariant
                i <= MAX_HEIGHT,
                tower@.len() == i,
                forall|j: int| 0 <= j < i ==> tower@[j] == 0,
            decreases MAX_HEIGHT - i,
        {
            tower.push(0);
            i = i + 1;
        }
        let head = Node {
            key_offset: 0,
            key_size: 0,
            height: MAX_HEIGHT as u16,
            value: 0,
            tower,
        };
        let off = match arena.put_node(head) {
            Ok(o) => o,
            Err(_) => {
                proof {
                    assert(false);
                }
                0
            },
        };
        let r = SkipList { arena, height: 1, refs: 1, ord: Ghost(Seq::empty()) };
        proof {
            assert(r.wf()) by {
                assert forall|lvl: int|
                    0 <= lvl < MAX_HEIGHT implies #[trigger] head_tower_ok(
                    r.nodesv(),
                    r.ordv(),
                    lvl,
                ) by {
                    assert(node_at(r.nodesv(), 1).tower@[lvl] == 0);
                }
            }
            assert forall|k: Seq<u8>| r.spec_get(k) == None::<ValueView> by {
                assert(!r.spec_has_key(k));
            }
        }
        r
    }
}


/// The spliced-in offset is invisible above its height: searches at such
/// levels see the old order.
pub proof fn lemma_next_insert_high(
    nodes: Seq<Node>,
    ord: Seq<u32>,
    p: int,
    o: u32,
    i: int,
    lvl: int,
)
    requires
        0 <= p <= ord.len(),
        0 <= i <= p,
        height_of(nodes, o) <= lvl,
    ensures
        next_from(nodes, ord.insert(p, o), i, lvl) == next_from(nodes, ord, i, lvl),
    decreases p - i,
{
    let ord2 = ord.insert(p, o);
    if i < p {
        assert(ord2[i] == ord[i]);
        if height_of(nodes, ord[i]) <= lvl {
            lemma_next_insert_high(nodes, ord, p, o, i + 1, lvl);
        } else {
            assert(next_idx(nodes, ord2, i, lvl) == i);
            assert(next_idx(nodes, ord, i, lvl) == i);
        }
    } else {
        assert(ord2[p] == o);
        lemma_next_insert_suffix(nodes, ord, p, o, p, lvl);
    }
}

/// Past the insertion point the new order only shifts positions by one.
pub proof fn lemma_next_insert_suffix(
    nodes: Seq<Node>,
    ord: Seq<u32>,
    p: int,
    o: u32,
    i: int,
    lvl: int,
)
    requires
        0 <= p <= ord.len(),
        p <= i <= ord.len(),
    ensures
        next_from(nodes, ord.insert(p, o), i + 1, lvl) == next_from(nodes, ord, i, lvl),
    decreases ord.len() - i,
{
    let ord2 = ord.insert(p, o);
    if i < ord.len() {
        assert(ord2[i + 1] == ord[i]);
        if height_of(nodes, ord[i]) <= lvl {
            lemma_next_insert_suffix(nodes, ord, p, o, i + 1, lvl);
        }
    }
}

/// Before the insertion point, a search that already resolves below it is
/// untouched by the insertion.
pub proof fn lemma_next_insert_prefix(
    nodes: Seq<Node>,
    ord: Seq<u32>,
    p: int,
    o: u32,
    i: int,
    lvl: int,
)
    requires
        0 <= p <= ord.len(),
        0 <= i <= ord.len(),
        i <= next_idx(nodes, ord, i, lvl) < p,
    ensures
        next_from(nodes, ord.insert(p, o), i, lvl) == next_from(nodes, ord, i, lvl),
        next_idx(nodes, ord.insert(p, o), i, lvl) == next_idx(nodes, ord, i, lvl),
    decreases ord.len() - i,
{
    let ord2 = ord.insert(p, o);
    lemma_next_idx(nodes, ord, i, lvl);
    assert(i < ord.len());
    assert(ord2[i] == ord[i]);
    if height_of(nodes, ord[i]) <= lvl {
        lemma_next_idx(nodes, ord, i + 1, lvl);
        assert(next_idx(nodes, ord, i + 1, lvl) == next_idx(nodes, ord, i, lvl));
        lemma_next_insert_prefix(nodes, ord, p, o, i + 1, lvl);
    }
}

/// When nothing between `i` and the insertion point rises above `lvl` and
/// the inserted node does, the search from `i` lands on it.
pub proof fn lemma_next_insert_crossing(
    nodes: Seq<Node>,
    ord: Seq<u32>,
    p: int,
    o: u32,
    i: int,
    lvl: int,
)
    requires
        0 <= p <= ord.len(),
        0 <= i <= p,
        forall|q: int| i <= q < p ==> height_of(nodes, #[trigger] ord[q]) <= lvl,
        height_of(nodes, o) > lvl,
    ensures
        next_from(nodes, ord.insert(p, o), i, lvl) == o,
        next_idx(nodes, ord.insert(p, o), i, lvl) == p,
    decreases p - i,
{
    let ord2 = ord.insert(p, o);
    if i < p {
        assert(ord2[i] == ord[i]);
        lemma_next_insert_crossing(nodes, ord, p, o, i + 1, lvl);
    } else {
        assert(ord2[p] == o);
    }
}

/// A stretch of nodes at or below `lvl` can be skipped without changing the
/// search's answer.
pub proof fn lemma_next_idx_skip(nodes: Seq<Node>, ord: Seq<u32>, i: int, j: int, lvl: int)
    requires
        0 <= i <= j <= ord.len(),
        forall|q: int| i <= q < j ==> height_of(nodes, #[trigger] ord[q]) <= lvl,
    ensures
        next_idx(nodes, ord, i, lvl) == next_idx(nodes, ord, j, lvl),
    decreases j - i,
{
    if i < j {
        lemma_next_idx_skip(nodes, ord, i + 1, j, lvl);
    }
}

/// Writes one tower entry of one node, touching nothing else.
fn set_tower_entry(arena: &mut Arena, idx: usize, level: usize, val: u32)
    requires
        idx < old(arena).nodes@.len(),
        level < old(arena).nodes@[idx as int].tower@.len(),
    ensures
        final(arena).nodes@.len() == old(arena).nodes@.len(),
        final(arena).nodes@[idx as int].tower@ == old(arena).nodes@[idx as int].tower@.update(
            level as int,
            val,
        ),
        forall|q: int|
            0 <= q < old(arena).nodes@.len() && q != idx ==> final(arena).nodes@[q] == old(
                arena,
            ).nodes@[q],
        final(arena).nodes@[idx as int].key_offset == old(arena).nodes@[idx as int].key_offset,
        final(arena).nodes@[idx as int].key_size == old(arena).nodes@[idx as int].key_size,
        final(arena).nodes@[idx as int].height == old(arena).nodes@[idx as int].height,
        final(arena).nodes@[idx as int].value == old(arena).nodes@[idx as int].value,
        final(arena).data@ == old(arena).data@,
        final(arena).used == old(arena).used,
        final(arena).cap == old(arena).cap,
        final(arena).active == old(arena).active,
{
    let nref = vstd::std_specs::vec::vec_index_mut(&mut arena.nodes, idx);
    let tref = vstd::std_specs::vec::vec_index_mut(&mut nref.tower, level);
    *tref = val;
}

/// Rewrites the packed value slot of one node, touching nothing else.
fn set_node_value(arena: &mut Arena, idx: usize, slot: u64)
    requires
        idx < old(arena).nodes@.len(),
    ensures
        final(arena).nodes@.len() == old(arena).nodes@.len(),
        final(arena).nodes@[idx as int].value == slot,
        forall|q: int|
            0 <= q < old(arena).nodes@.len() && q != idx ==> final(arena).nodes@[q] == old(
                arena,
            ).nodes@[q],
        final(arena).nodes@[idx as int].key_offset == old(arena).nodes@[idx as int].key_offset,
        final(arena).nodes@[idx as int].key_size == old(arena).nodes@[idx as int].key_size,
        final(arena).nodes@[idx as int].height == old(arena).nodes@[idx as int].height,
        final(arena).nodes@[idx as int].tower@ == old(arena).nodes@[idx as int].tower@,
        final(arena).data@ == old(arena).data@,
        final(arena).used == old(arena).used,
        final(arena).cap == old(arena).cap,
        final(arena).active == old(arena).active,
{
    let nref = vstd::std_specs::vec::vec_index_mut(&mut arena.nodes, idx);
    nref.value = slot;
}


/// A valid splice at `lvl`: `b` is the last node of level-`lvl`'s chain
/// whose key is below the search key (or the head), and `n` is its chain
/// successor, the first chain node at or past the key's position.
pub open spec fn splice_ok(s: SkipList, k: Seq<u8>, b: u32, n: u32, lvl: int) -> bool {
    let g = s.geq_pos(k);
    let pb = s.pos_of(b);
    &&& (b == 1 || (s.ordv().contains(b) && lex_lt(s.key_of(b), k)))
    &&& (b == 1 ==> pb == -1)
    &&& (b != 1 ==> 0 <= pb < s.ordv().len() && s.ordv()[pb] == b && lvl < height_of(
        s.nodesv(),
        b,
    ))
    &&& pb < g
    &&& (forall|q: int| pb < q < g ==> height_of(s.nodesv(), #[trigger] s.ordv()[q]) <= lvl)
    &&& n == next_from(s.nodesv(), s.ordv(), pb + 1, lvl)
}

/// Relies on rand::random: a fresh uniform 32-bit draw. Nothing is assumed
/// of the value returned.
#[verifier::external_body]
fn random_u32() -> u32 {
    rand::random::<u32>()
}

impl SkipList {
    /// The position of a node in the order; the head counts as -1.
    pub open spec fn pos_of(self, off: u32) -> int {
        if off == 1 {
            -1
        } else {
            self.ordv().index_of(off)
        }
    }

    /// Arena bytes one put takes: the encoded value, and for a fresh key
    /// also the key bytes and a node of the drawn height.
    pub open spec fn spec_put_space(self, k: Seq<u8>, v: ValueView, h: int) -> int {
        if self.spec_has_key(k) {
            spec_value_bytes(v).len() as int
        } else {
            spec_value_bytes(v).len() + k.len() + (MAX_NODE_SIZE - (MAX_HEIGHT - h) * OFFSET_SIZE)
        }
    }

    /// Walks right from `before` along level `lvl` until the next node's
    /// key reaches the search key. Reports the exact node when the chain
    /// holds the key, else the splice to insert into.
    fn find_splice_for_level(&self, key: &[u8], before: u32, level: usize) -> (r: (u32, u32, bool))
        requires
            self.wf(),
            key@.len() >= 1,
            level < MAX_HEIGHT,
            before == 1 || (self.ordv().contains(before) && lex_lt(self.key_of(before), key@)
                && level < height_of(self.nodesv(), before)),
        ensures
            ({
                let g = self.geq_pos(key@);
                let len = self.ordv().len() as int;
                let exact_in_chain = g < len && self.key_of(self.ordv()[g]) == key@ && height_of(
                    self.nodesv(),
                    self.ordv()[g],
                ) > level;
                &&& r.2 == exact_in_chain
                &&& (r.2 ==> r.0 == r.1 && r.1 == self.ordv()[g])
                &&& (!r.2 ==> splice_ok(*self, key@, r.0, r.1, level as int))
            }),
    {
        proof {
            lemma_first_geq(self.datav(), self.nodesv(), self.ordv(), key@);
        }
        let ghost g = self.geq_pos(key@);
        let mut x: u32 = before;
        let ghost mut px: int = self.pos_of(before);
        proof {
            if before != 1 {
                let i = self.ordv().index_of(before);
                assert(0 <= i < self.ordv().len() && self.ordv()[i] == before);
            }
        }
        loop
            invariant
                self.wf(),
                key@.len() >= 1,
                g == self.geq_pos(key@),
                level < MAX_HEIGHT,
                x == 1 ==> px == -1,
                x != 1 ==> 0 <= px < self.ordv().len() && self.ordv()[px] == x && lex_lt(
                    self.key_of(x),
                    key@,
                ) && level < height_of(self.nodesv(), x),
                px < g,
                x == 1 || self.ordv().contains(x),
                px == self.pos_of(x),
            decreases g - px,
        {
            proof {
                lemma_first_geq(self.datav(), self.nodesv(), self.ordv(), key@);
            }
            let next = self.get_next(x, level);
            proof {
                lemma_next_idx(self.nodesv(), self.ordv(), px + 1, level as int);
            }
            if next == 0 {
                proof {
                    // the whole tail of the order sits at or below this
                    // level, so in particular the key's position does
                    assert(next_idx(self.nodesv(), self.ordv(), px + 1, level as int)
                        == self.ordv().len());
                }
                return (x, 0, false);
            }
            let ghost pn = next_idx(self.nodesv(), self.ordv(), px + 1, level as int);
            proof {
                assert(self.ordv()[pn] == next);
                let i = self.ordv().index_of(next);
                if i != pn {
                    assert(self.ordv()[i] == self.ordv()[pn]);
                }
                assert(self.pos_of(next) == pn);
            }
            let c = self.compare_key(key, next);
            if c == 0 {
                proof {
                    assert(pn == g);
                }
                return (next, next, true);
            }
            if c == -1 {
                proof {
                    assert(!lex_lt(self.key_of(next), key@)) by {
                        lemma_lex_irrefl(key@);
                        if lex_lt(self.key_of(next), key@) {
                            lemma_lex_trans(key@, self.key_of(next), key@);
                        }
                    }
                    assert(pn >= g) by {
                        if pn < g {
                            assert(lex_lt(self.key_of(self.ordv()[pn]), key@));
                        }
                    }
                    // the key's node, if present, sits strictly between the
                    // walk position and the chain successor, below the level
                    if g < self.ordv().len() && self.key_of(self.ordv()[g]) == key@ {
                        if pn == g {
                            assert(lex_lt(key@, self.key_of(next)));
                            lemma_lex_irrefl(key@);
                        }
                        assert(px < g < pn);
                        assert(height_of(self.nodesv(), self.ordv()[g]) <= level as int);
                    }
                }
                return (x, next, false);
            }
            proof {
                assert(pn < g) by {
                    if pn >= g {
                        assert(!lex_lt(self.key_of(self.ordv()[pn]), key@));
                    }
                }
            }
            x = next;
            proof {
                px = pn;
            }
        }
    }

    /// Draws a tower height: starting at one, each uniform draw at or below
    /// the growth threshold adds a level, up to the maximum.
    pub fn random_height() -> (h: usize)
        ensures
            1 <= h <= MAX_HEIGHT,
    {
        let mut h: usize = 1;
        loop
            invariant
                1 <= h <= MAX_HEIGHT,
            decreases MAX_HEIGHT - h,
        {
            if h >= MAX_HEIGHT {
                return h;
            }
            let r = random_u32();
            if r > HEIGHT_INCREASE {
                return h;
            }
            h = h + 1;
        }
    }

    /// Rewrites the value slot of the node at `off` to a fresh copy of `v`
    /// in the arena; fails, changing nothing, exactly when the arena cannot
    /// take the value bytes.
    fn overwrite_value(&mut self, off: u32, v: &ValueStruct) -> (r: Result<(), Error>)
        requires
            old(self).wf(),
            VALUE_HEADER_SIZE + v.value@.len() <= u16::MAX,
            old(self).ordv().contains(off),
        ensures
            final(self).wf(),
            final(self).refs == old(self).refs,
            final(self).height == old(self).height,
            final(self).arena.cap == old(self).arena.cap,
            final(self).arena.active == old(self).arena.active,
            final(self).ordv() == old(self).ordv(),
            final(self).nodesv().len() == old(self).nodesv().len(),
            forall|o: u32|
                1 <= o <= old(self).nodesv().len() ==> final(self).key_of(o) == old(self).key_of(
                    o,
                ) && height_of(final(self).nodesv(), o) == height_of(old(self).nodesv(), o),
            match r {
                Ok(()) => {
                    &&& old(self).arena.used + spec_value_bytes(v@).len() <= old(self).arena.cap
                    &&& final(self).val_of(off) == v@
                    &&& forall|o: u32|
                        old(self).ordv().contains(o) && o != off ==> final(self).val_of(o) == old(
                            self,
                        ).val_of(o)
                },
                Err(e) => {
                    &&& e == Error::CapacityExhausted
                    &&& old(self).arena.used + spec_value_bytes(v@).len() > old(self).arena.cap
                    &&& final(self).datav() == old(self).datav()
                    &&& final(self).nodesv() == old(self).nodesv()
                    &&& final(self).arena.used == old(self).arena.used
                },
            },
    {
        proof {
            let i = old(self).ordv().index_of(off);
            assert(old(self).ordv()[i] == off);
            assert(old(self).node_ok(off));
        }
        let ghost pre = *self;
        let (vo, vs) = match self.arena.put_val(v) {
            Err(e) => {
                return Err(e);
            },
            Ok(p) => p,
        };
        let slot = Node::encode_value(vo, vs);
        set_node_value(&mut self.arena, (off - 1) as usize, slot);
        proof {
            crate::value::lemma_value_bytes_len(v@);
            let post = *self;
            // keys and heights of every node are untouched, and old byte
            // ranges keep their content under the extension
            assert forall|o: u32| 1 <= o <= pre.nodesv().len() implies post.key_of(o)
                == pre.key_of(o) && height_of(post.nodesv(), o) == height_of(
                pre.nodesv(),
                o,
            ) by {
                if o != off {
                    assert(node_at(post.nodesv(), o) == node_at(pre.nodesv(), o));
                }
                if o == 1 {
                    assert(post.key_of(o) =~= pre.key_of(o));
                } else {
                    assert(pre.ordv().contains(o));
                    let i = pre.ordv().index_of(o);
                    assert(pre.ordv()[i] == o);
                    assert(pre.node_ok(o));
                    assert(post.key_of(o) =~= pre.key_of(o));
                }
            }
            assert forall|o: u32|
                pre.ordv().contains(o) && o != off implies post.val_of(o) == pre.val_of(o) by {
                let i = pre.ordv().index_of(o);
                assert(pre.ordv()[i] == o);
                assert(pre.node_ok(o));
                assert(node_at(post.nodesv(), o) == node_at(pre.nodesv(), o));
                let n = node_at(pre.nodesv(), o);
                let so = spec_slot_offset(n.value) as int;
                let ss = spec_slot_size(n.value) as int;
                assert(post.datav().subrange(so, so + ss) =~= pre.datav().subrange(so, so + ss));
                assert(post.datav().subrange(so + 2, so + 10) =~= pre.datav().subrange(
                    so + 2,
                    so + 10,
                ));
                assert(post.datav().subrange(so + 10, so + ss) =~= pre.datav().subrange(
                    so + 10,
                    so + ss,
                ));
                assert(post.datav()[so] == pre.datav()[so]);
                assert(post.datav()[so + 1] == pre.datav()[so + 1]);
            }
            // the new slot decodes to the value just written
            assert(post.datav().subrange(vo as int, vo + spec_value_bytes(v@).len())
                =~= spec_value_bytes(v@));
            crate::value::lemma_value_round_trip(post.datav(), vo as int, v@);
            assert(post.val_of(off) == v@);
            // the structure is untouched: same order, keys, heights, towers
            assert(post.wf()) by {
                assert forall|q: int|
                    0 <= q < post.ordv().len() implies post.node_ok(
                    #[trigger] post.ordv()[q],
                ) by {
                    assert(pre.node_ok(pre.ordv()[q]));
                    if post.ordv()[q] != off {
                        assert(node_at(post.nodesv(), post.ordv()[q]) == node_at(
                            pre.nodesv(),
                            pre.ordv()[q],
                        ));
                    }
                }
                assert(keys_sorted(post.datav(), post.nodesv(), post.ordv())) by {
                    assert forall|i: int, j: int|
                        0 <= i < j < post.ordv().len() implies lex_lt(
                        key_at(post.datav(), post.nodesv(), #[trigger] post.ordv()[i]),
                        key_at(post.datav(), post.nodesv(), #[trigger] post.ordv()[j]),
                    ) by {
                        assert(pre.ordv().contains(pre.ordv()[i]));
                        assert(pre.ordv().contains(pre.ordv()[j]));
                        assert(post.key_of(post.ordv()[i]) == pre.key_of(pre.ordv()[i]));
                        assert(post.key_of(post.ordv()[j]) == pre.key_of(pre.ordv()[j]));
                    }
                }
                assert forall|q: int|
                    0 <= q < post.ordv().len() implies height_of(
                    post.nodesv(),
                    #[trigger] post.ordv()[q],
                ) == height_of(pre.nodesv(), pre.ordv()[q]) by {
                    assert(pre.ordv().contains(pre.ordv()[q]));
                }
                assert forall|lvl: int|
                    0 <= lvl < MAX_HEIGHT implies #[trigger] head_tower_ok(
                    post.nodesv(),
                    post.ordv(),
                    lvl,
                ) by {
                    assert(head_tower_ok(pre.nodesv(), pre.ordv(), lvl));
                    lemma_next_idx_heights(pre.nodesv(), post.nodesv(), pre.ordv(), 0, lvl);
                    assert(node_at(post.nodesv(), 1).tower@ == node_at(pre.nodesv(), 1).tower@);
                }
                assert forall|i: int, lvl: int|
                    0 <= i < post.ordv().len() && 0 <= lvl < height_of(
                        post.nodesv(),
                        post.ordv()[i],
                    ) implies #[trigger] tower_ok_at(post.nodesv(), post.ordv(), i, lvl) by {
                    assert(tower_ok_at(pre.nodesv(), pre.ordv(), i, lvl));
                    lemma_next_idx_heights(pre.nodesv(), post.nodesv(), pre.ordv(), i + 1, lvl);
                    assert(node_at(post.nodesv(), post.ordv()[i]).tower@ == node_at(
                        pre.nodesv(),
                        pre.ordv()[i],
                    ).tower@);
                }
            }
        }
        Ok(())
    }
}


impl SkipList {
    /// Inserts or overwrites `key` with a tower of the given height; fails,
    /// changing nothing, exactly when the arena cannot take the bytes the
    /// put needs.
    #[verifier::rlimit(100)]
    pub fn put_with_height(&mut self, key: &[u8], v: &ValueStruct, h: usize) -> (r: Result<
        (),
        Error,
    >)
        requires
            old(self).wf(),
            old(self).arena.active,
            1 <= key@.len() <= u16::MAX,
            VALUE_HEADER_SIZE + v.value@.len() <= u16::MAX,
            1 <= h <= MAX_HEIGHT,
        ensures
            final(self).wf(),
            final(self).refs == old(self).refs,
            final(self).arena.active,
            final(self).arena.cap == old(self).arena.cap,
            match r {
                Ok(()) => {
                    &&& old(self).arena.used + old(self).spec_put_space(key@, v@, h as int) <= old(
                        self,
                    ).arena.cap
                    &&& final(self).spec_has_key(key@)
                    &&& final(self).spec_get(key@) == Some(v@)
                    &&& (forall|x: Seq<u8>|
                        x != key@ ==> final(self).spec_get(x) == old(self).spec_get(x))
                    &&& (forall|x: Seq<u8>|
                        x != key@ ==> (final(self).spec_has_key(x) <==> old(self).spec_has_key(
                            x,
                        )))
                    &&& final(self).ordv().len() == old(self).ordv().len() + (if old(
                        self,
                    ).spec_has_key(key@) {
                        0int
                    } else {
                        1int
                    })
                },
                Err(e) => {
                    &&& e == Error::CapacityExhausted
                    &&& old(self).arena.used + old(self).spec_put_space(key@, v@, h as int) > old(
                        self,
                    ).arena.cap
                    &&& final(self).datav() == old(self).datav()
                    &&& final(self).nodesv() == old(self).nodesv()
                    &&& final(self).ordv() == old(self).ordv()
                    &&& final(self).height == old(self).height
                    &&& final(self).arena.used == old(self).arena.used
                },
            },
    {
        proof {
            lemma_first_geq(self.datav(), self.nodesv(), self.ordv(), key@);
            self.lemma_get_at_geq(key@);
        }
        let ghost s0 = *self;
        let ghost g = self.geq_pos(key@);
        let mut prevs: Vec<u32> = Vec::new();
        let mut nexts: Vec<u32> = Vec::new();
        let mut t: usize = 0;
        while t < MAX_HEIGHT
            invariant
                t <= MAX_HEIGHT,
                prevs@.len() == t,
                nexts@.len() == t,
                forall|l: int| 0 <= l < t ==> #[trigger] prevs@[l] == 1,
                forall|l: int| 0 <= l < t ==> #[trigger] nexts@[l] == 0,
            decreases MAX_HEIGHT - t,
        {
            prevs.push(1);
            nexts.push(0);
            t = t + 1;
        }
        let lh = self.get_height();
        let mut x: u32 = 1;
        let mut level: usize = lh;
        while level > 0
            invariant
                self.wf(),
                *self == s0,
                s0 == *old(self),
                s0.wf(),
                s0.arena.active,
                key@.len() >= 1,
                VALUE_HEADER_SIZE + v.value@.len() <= u16::MAX,
                g == s0.geq_pos(key@),
                prevs@.len() == MAX_HEIGHT,
                nexts@.len() == MAX_HEIGHT,
                lh == s0.height,
                level <= lh,
                x == 1 || (s0.ordv().contains(x) && lex_lt(s0.key_of(x), key@) && (level as int)
                    <= height_of(s0.nodesv(), x)),
                forall|l: int|
                    level <= l < lh ==> splice_ok(s0, key@, #[trigger] prevs@[l], nexts@[l], l),
                forall|l: int| lh <= l < MAX_HEIGHT ==> #[trigger] prevs@[l] == 1,
                forall|l: int| lh <= l < MAX_HEIGHT ==> #[trigger] nexts@[l] == 0,
                level == 0 ==> !(g < s0.ordv().len() && s0.key_of(s0.ordv()[g]) == key@),
            decreases level,
        {
            level = level - 1;
            let (b, n, eq) = self.find_splice_for_level(key, x, level);
            if eq {
                proof {
                    lemma_first_geq(self.datav(), self.nodesv(), self.ordv(), key@);
                    self.lemma_get_at_geq(key@);
                    assert(s0.spec_has_key(key@));
                }
                let res = self.overwrite_value(n, v);
                proof {
                    let post = *self;
                    if res is Ok {
                        // same order and keys, so the same position holds
                        // the key, now mapped to the fresh value
                        assert forall|q: int|
                            0 <= q < post.ordv().len() implies post.key_of(
                            #[trigger] post.ordv()[q],
                        ) == s0.key_of(s0.ordv()[q]) by {
                            assert(s0.ordv().contains(s0.ordv()[q]));
                            assert(s0.node_ok(s0.ordv()[q]));
                        }
                        assert(post.spec_has_key(key@)) by {
                            assert(post.key_of(post.ordv()[g]) == key@);
                        }
                        post.lemma_get_at_geq(key@);
                        lemma_first_geq(post.datav(), post.nodesv(), post.ordv(), key@);
                        assert(post.geq_pos(key@) == g) by {
                            assert(post.key_of(post.ordv()[g]) == key@);
                        }
                        assert(post.spec_get(key@) == Some(v@));
                        assert forall|xx: Seq<u8>| xx != key@ implies (post.spec_has_key(xx)
                            <==> s0.spec_has_key(xx)) by {
                            if post.spec_has_key(xx) {
                                let i = choose|i: int|
                                    0 <= i < post.ordv().len() && post.key_of(
                                        #[trigger] post.ordv()[i],
                                    ) == xx;
                                assert(s0.key_of(s0.ordv()[i]) == xx);
                            }
                            if s0.spec_has_key(xx) {
                                let i = choose|i: int|
                                    0 <= i < s0.ordv().len() && s0.key_of(
                                        #[trigger] s0.ordv()[i],
                                    ) == xx;
                                assert(post.key_of(post.ordv()[i]) == xx);
                            }
                        }
                        assert forall|xx: Seq<u8>| xx != key@ implies post.spec_get(xx)
                            == s0.spec_get(xx) by {
                            if post.spec_has_key(xx) {
                                let i = choose|i: int|
                                    0 <= i < post.ordv().len() && post.key_of(
                                        #[trigger] post.ordv()[i],
                                    ) == xx;
                                assert(s0.key_of(s0.ordv()[i]) == xx);
                                post.lemma_get_at_geq(xx);
                                s0.lemma_get_at_geq(xx);
                                lemma_first_geq(post.datav(), post.nodesv(), post.ordv(), xx);
                                lemma_first_geq(s0.datav(), s0.nodesv(), s0.ordv(), xx);
                                let gp = post.geq_pos(xx);
                                assert(gp == i);
                                assert(s0.geq_pos(xx) == i);
                                assert(post.ordv()[i] != n) by {
                                    if post.ordv()[i] == n {
                                        assert(s0.key_of(n) == key@);
                                    }
                                }
                                assert(post.val_of(post.ordv()[i]) == s0.val_of(s0.ordv()[i]));
                            }
                        }
                    }
                }
                return res;
            }
            prevs.set(level, b);
            nexts.set(level, n);
            x = b;
            proof {
                if x != 1 {
                    assert(splice_ok(s0, key@, b, n, level as int));
                }
            }
        }
        proof {
            assert(!s0.spec_has_key(key@)) by {
                s0.lemma_get_at_geq(key@);
            }
            lemma_first_geq(s0.datav(), s0.nodesv(), s0.ordv(), key@);
            // above the old list height every chain is empty, so the head
            // is the splice at those levels
            assert forall|l: int|
                lh <= l < MAX_HEIGHT implies splice_ok(
                s0,
                key@,
                #[trigger] prevs@[l],
                nexts@[l],
                l,
            ) by {
                assert(prevs@[l] == 1 && nexts@[l] == 0);
                lemma_next_idx(s0.nodesv(), s0.ordv(), 0, l);
                let q = next_idx(s0.nodesv(), s0.ordv(), 0, l);
                if q < s0.ordv().len() {
                    assert(s0.node_ok(s0.ordv()[q]));
                    assert(height_of(s0.nodesv(), s0.ordv()[q]) <= s0.height);
                    assert(false);
                }
                assert forall|qq: int| -1 < qq < g implies height_of(
                    s0.nodesv(),
                    #[trigger] s0.ordv()[qq],
                ) <= l by {
                    assert(s0.node_ok(s0.ordv()[qq]));
                }
            }
            assert forall|l: int|
                0 <= l < h implies splice_ok(s0, key@, #[trigger] prevs@[l], nexts@[l], l) by {
                if l < lh {
                } else {
                }
            }
        }
        // the key is fresh: reserve all the space this put needs, then
        // allocate value, key and node, none of which can fail any more
        let node_cost = Node::size_for_height(h);
        let vsize = v.encoded_size();
        if vsize + key.len() + node_cost > self.arena.cap - self.arena.used {
            proof {
                crate::value::lemma_value_bytes_len(v@);
            }
            return Err(Error::CapacityExhausted);
        }
        proof {
            crate::value::lemma_value_bytes_len(v@);
        }
        let (vo, vs) = match self.arena.put_val(v) {
            Ok(p) => p,
            Err(_) => {
                proof {
                    assert(false);
                }
                (0, 0)
            },
        };
        let (ko, ks) = match self.arena.put_key(key) {
            Ok(p) => p,
            Err(_) => {
                proof {
                    assert(false);
                }
                (0, 0)
            },
        };
        let slot = Node::encode_value(vo, vs);
        let mut tower: Vec<u32> = Vec::new();
        let mut ti: usize = 0;
        while ti < h
            invariant
                ti <= h,
                tower@.len() == ti,
            decreases h - ti,
        {
            tower.push(0);
            ti = ti + 1;
        }
        let new_node = Node { key_offset: ko, key_size: ks, height: h as u16, value: slot, tower };
        let new_off = match self.arena.put_node(new_node) {
            Ok(o) => o,
            Err(_) => {
                proof {
                    assert(false);
                }
                0
            },
        };
        if h > self.height {
            self.height = h;
        }
        let ghost smid = *self;
        let new_idx = (new_off - 1) as usize;
        proof {
            // over the grown arena the old nodes keep their keys, heights
            // and towers, and the new node's key reads back as the put key
            assert(smid.arena.nodes@.len() == s0.nodesv().len() + 1);
            assert(new_off == s0.nodesv().len() + 1);
            assert forall|o: u32| 1 <= o <= s0.nodesv().len() implies node_at(smid.nodesv(), o)
                == node_at(s0.nodesv(), o) by {}
            assert forall|o: u32|
                s0.ordv().contains(o) || o == 1 implies smid.key_of(o) == s0.key_of(o) by {
                if o == 1 {
                    assert(smid.key_of(o) =~= s0.key_of(o));
                } else {
                    let i = s0.ordv().index_of(o);
                    assert(s0.ordv()[i] == o);
                    assert(s0.node_ok(o));
                    assert(smid.key_of(o) =~= s0.key_of(o));
                }
            }
            assert(smid.key_of(new_off) =~= key@);
        }
        let mut j: usize = 0;
        while j < h
            invariant
                0 < h <= MAX_HEIGHT,
                j <= h,
                self.height == smid.height,
                self.refs == smid.refs,
                self.arena.data@ == smid.arena.data@,
                self.arena.used == smid.arena.used,
                self.arena.cap == smid.arena.cap,
                self.arena.active == smid.arena.active,
                self.arena.wf(),
                self.ord@ == smid.ord@,
                self.arena.nodes@.len() == smid.arena.nodes@.len(),
                new_off == smid.arena.nodes@.len(),
                new_idx == new_off - 1,
                new_off >= 2,
                prevs@.len() == MAX_HEIGHT,
                nexts@.len() == MAX_HEIGHT,
                h <= smid.height,
                node_at(smid.nodesv(), new_off).tower@.len() == h,
                forall|l: int| 0 <= l < h ==> splice_ok(s0, key@, #[trigger] prevs@[l], nexts@[l], l),
                s0.wf(),
                s0 == *old(self),
                smid.ord@ == s0.ord@,
                g == s0.geq_pos(key@),
                0 <= g <= s0.ordv().len(),
                !s0.spec_has_key(key@),
                1 <= key@.len() <= u16::MAX,
                smid.arena.nodes@.len() == s0.nodesv().len() + 1,
                new_off == s0.nodesv().len() + 1,
                forall|o: u32|
                    1 <= o <= s0.nodesv().len() ==> node_at(smid.nodesv(), o) == node_at(
                        s0.nodesv(),
                        o,
                    ),
                smid.datav() == s0.datav() + spec_value_bytes(v@) + key@,
                node_at(smid.nodesv(), new_off).height == h,
                node_at(smid.nodesv(), new_off).key_offset == s0.datav().len()
                    + spec_value_bytes(v@).len(),
                node_at(smid.nodesv(), new_off).key_size == key@.len(),
                spec_slot_offset(node_at(smid.nodesv(), new_off).value) == s0.datav().len(),
                spec_slot_size(node_at(smid.nodesv(), new_off).value) == spec_value_bytes(
                    v@,
                ).len(),
                s0.height <= smid.height <= MAX_HEIGHT,
                smid.height == s0.height || smid.height == h,
                smid.arena.active,
                smid.refs == s0.refs,
                forall|q: int|
                    0 <= q < self.arena.nodes@.len() ==> {
                        let a = #[trigger] self.arena.nodes@[q];
                        let b = smid.arena.nodes@[q];
                        a.key_offset == b.key_offset && a.key_size == b.key_size && a.height
                            == b.height && a.value == b.value && a.tower@.len() == b.tower@.len()
                    },
                forall|q: int, l: int|
                    0 <= q < self.arena.nodes@.len() && 0 <= l
                        < self.arena.nodes@[q].tower@.len() && !(l < j && (q == new_idx as int || q
                        == prevs@[l] - 1)) ==> #[trigger] self.arena.nodes@[q].tower@[l]
                        == smid.arena.nodes@[q].tower@[l],
                forall|l: int|
                    0 <= l < j ==> #[trigger] self.arena.nodes@[new_idx as int].tower@[l]
                        == nexts@[l],
                forall|l: int|
                    0 <= l < j ==> #[trigger] self.arena.nodes@[prevs@[l] - 1].tower@[l]
                        == new_off,
            decreases h - j,
        {
            let nx = nexts[j];
            let pv = prevs[j];
            proof {
                assert(splice_ok(s0, key@, prevs@[j as int], nexts@[j as int], j as int));
                if pv != 1 {
                    let pb = s0.ordv().index_of(pv);
                    assert(s0.ordv()[pb] == pv);
                    assert(s0.node_ok(pv));
                    assert((j as int) < height_of(s0.nodesv(), pv));
                    assert(2 <= pv <= s0.nodesv().len());
                    assert(node_at(smid.nodesv(), pv) == node_at(s0.nodesv(), pv));
                }
            }
            set_tower_entry(&mut self.arena, new_idx, j, nx);
            set_tower_entry(&mut self.arena, (pv - 1) as usize, j, new_off);
            j = j + 1;
        }
        let ghost ord2 = s0.ordv().insert(g, new_off);
        self.ord = Ghost(ord2);
        proof {
            lemma_put_insert_wf(s0, smid, *self, key@, v@, prevs@, nexts@, g, new_off, h as int);
        }
        Ok(())
    }

    /// Inserts or overwrites `key`, drawing the tower height at random.
    /// Fails, changing nothing, only when the arena is too full; with room
    /// for a full-height node it always succeeds.
    pub fn put(&mut self, key: &[u8], v: ValueStruct) -> (r: Result<(), Error>)
        requires
            old(self).wf(),
            old(self).arena.active,
            1 <= key@.len() <= u16::MAX,
            VALUE_HEADER_SIZE + v.value@.len() <= u16::MAX,
        ensures
            final(self).wf(),
            final(self).refs == old(self).refs,
            final(self).arena.active,
            final(self).arena.cap == old(self).arena.cap,
            match r {
                Ok(()) => {
                    &&& final(self).spec_has_key(key@)
                    &&& final(self).spec_get(key@) == Some(v@)
                    &&& (forall|x: Seq<u8>|
                        x != key@ ==> final(self).spec_get(x) == old(self).spec_get(x))
                    &&& (forall|x: Seq<u8>|
                        x != key@ ==> (final(self).spec_has_key(x) <==> old(self).spec_has_key(
                            x,
                        )))
                    &&& final(self).ordv().len() == old(self).ordv().len() + (if old(
                        self,
                    ).spec_has_key(key@) {
                        0int
                    } else {
                        1int
                    })
                },
                Err(e) => {
                    &&& e == Error::CapacityExhausted
                    &&& final(self).datav() == old(self).datav()
                    &&& final(self).nodesv() == old(self).nodesv()
                    &&& final(self).ordv() == old(self).ordv()
                    &&& final(self).height == old(self).height
                    &&& final(self).arena.used == old(self).arena.used
                },
            },
            old(self).arena.used + spec_value_bytes(v@).len() + key@.len() + MAX_NODE_SIZE <= old(
                self,
            ).arena.cap ==> r is Ok,
    {
        let h = Self::random_height();
        self.put_with_height(key, &v, h)
    }
}


/// After a fresh node is allocated and linked into every level of its
/// tower, the list is well formed again over the order with the node at the
/// key's position, and holds exactly the old entries plus the new one.
#[verifier::rlimit(100)]
proof fn lemma_put_insert_wf(
    s0: SkipList,
    smid: SkipList,
    post: SkipList,
    k: Seq<u8>,
    v: ValueView,
    prevs: Seq<u32>,
    nexts: Seq<u32>,
    g: int,
    new_off: u32,
    h: int,
)
    requires
        s0.wf(),
        !s0.spec_has_key(k),
        g == s0.geq_pos(k),
        1 <= k.len() <= u16::MAX,
        1 <= h <= MAX_HEIGHT,
        // the allocation step: one node appended, value bytes then key
        // bytes appended to the data
        smid.nodesv().len() == s0.nodesv().len() + 1,
        new_off == s0.nodesv().len() + 1,
        forall|o: u32|
            1 <= o <= s0.nodesv().len() ==> node_at(smid.nodesv(), o) == node_at(s0.nodesv(), o),
        smid.datav() == s0.datav() + spec_value_bytes(v) + k,
        ({
            let nn = node_at(smid.nodesv(), new_off);
            &&& nn.height == h
            &&& nn.tower@.len() == h
            &&& nn.key_offset == s0.datav().len() + spec_value_bytes(v).len()
            &&& nn.key_size == k.len()
            &&& spec_slot_offset(nn.value) == s0.datav().len()
            &&& spec_slot_size(nn.value) == spec_value_bytes(v).len()
        }),
        smid.ord@ == s0.ord@,
        s0.height <= smid.height <= MAX_HEIGHT,
        h <= smid.height,
        smid.height == s0.height || smid.height == h,
        // the link step: towers written at the spliced positions, nothing
        // else moved
        post.arena.data@ == smid.datav(),
        post.arena.used == smid.arena.used,
        post.arena.cap == smid.arena.cap,
        post.arena.active == smid.arena.active,
        post.arena.wf(),
        post.height == smid.height,
        post.ord@ == s0.ordv().insert(g, new_off),
        post.nodesv().len() == smid.nodesv().len(),
        forall|q: int|
            0 <= q < post.nodesv().len() ==> {
                let a = #[trigger] post.nodesv()[q];
                let b = smid.nodesv()[q];
                a.key_offset == b.key_offset && a.key_size == b.key_size && a.height == b.height
                    && a.value == b.value && a.tower@.len() == b.tower@.len()
            },
        prevs.len() == MAX_HEIGHT,
        nexts.len() == MAX_HEIGHT,
        forall|q: int, l: int|
            0 <= q < post.nodesv().len() && 0 <= l < post.nodesv()[q].tower@.len() && !(l < h && (q
                == new_off - 1 || q == prevs[l] - 1)) ==> #[trigger] post.nodesv()[q].tower@[l]
                == smid.nodesv()[q].tower@[l],
        forall|l: int|
            0 <= l < h ==> #[trigger] post.nodesv()[new_off - 1].tower@[l] == nexts[l],
        forall|l: int| 0 <= l < h ==> #[trigger] post.nodesv()[prevs[l] - 1].tower@[l] == new_off,
        forall|l: int| 0 <= l < h ==> splice_ok(s0, k, #[trigger] prevs[l], nexts[l], l),
    ensures
        post.wf(),
        post.spec_has_key(k),
        post.spec_get(k) == Some(v),
        forall|x: Seq<u8>| x != k ==> post.spec_get(x) == s0.spec_get(x),
        forall|x: Seq<u8>| x != k ==> (post.spec_has_key(x) <==> s0.spec_has_key(x)),
        post.ordv().len() == s0.ordv().len() + 1,
{
    let ord1 = s0.ordv();
    let ord2 = post.ordv();
    let nodes2 = post.nodesv();
    let n1 = s0.nodesv().len() as int;
    let len1 = ord1.len() as int;
    lemma_first_geq(s0.datav(), s0.nodesv(), ord1, k);
    assert(0 <= g <= len1);
    assert(ord2.len() == len1 + 1);
    // index mapping across the insertion
    assert forall|i2: int| 0 <= i2 < ord2.len() implies #[trigger] ord2[i2] == (if i2 < g {
        ord1[i2]
    } else if i2 == g {
        new_off
    } else {
        ord1[i2 - 1]
    }) by {}
    // every old offset names the same node, with the same key
    assert forall|o: u32| 1 <= o <= n1 implies node_at(nodes2, o).key_offset == node_at(
        s0.nodesv(),
        o,
    ).key_offset && node_at(nodes2, o).key_size == node_at(s0.nodesv(), o).key_size && node_at(
        nodes2,
        o,
    ).height == node_at(s0.nodesv(), o).height && node_at(nodes2, o).value == node_at(
        s0.nodesv(),
        o,
    ).value && node_at(nodes2, o).tower@.len() == node_at(s0.nodesv(), o).tower@.len() by {
        assert(node_at(smid.nodesv(), o) == node_at(s0.nodesv(), o));
    }
    assert(height_of(nodes2, new_off) == h);
    assert(node_at(nodes2, new_off).tower@.len() == h);
    assert forall|o: u32|
        ord1.contains(o) || o == 1 implies key_at(post.datav(), nodes2, o) == key_at(
        s0.datav(),
        s0.nodesv(),
        o,
    ) by {
        if o == 1 {
            assert(key_at(post.datav(), nodes2, o) =~= key_at(s0.datav(), s0.nodesv(), o));
        } else {
            let i = ord1.index_of(o);
            assert(ord1[i] == o);
            assert(s0.node_ok(o));
            assert(key_at(post.datav(), nodes2, o) =~= key_at(s0.datav(), s0.nodesv(), o));
        }
    }
    assert(key_at(post.datav(), nodes2, new_off) =~= k);
    // heights along the old order agree between the old and new node table
    assert forall|q: int| 0 <= q < len1 implies height_of(nodes2, #[trigger] ord1[q]) == height_of(
        s0.nodesv(),
        ord1[q],
    ) by {
        assert(ord1.contains(ord1[q]));
    }
    // membership and uniqueness of the new order
    assert(!ord1.contains(new_off));
    assert(ord2.no_duplicates()) by {
        assert forall|a: int, b: int| 0 <= a < b < ord2.len() implies ord2[a] != ord2[b] by {
            if a < g && b < g {
            } else if a < g && b == g {
                assert(ord1.contains(ord1[a]));
            } else if b == g {
            } else if a == g {
                assert(ord1.contains(ord1[b - 1]));
            } else if a < g {
            } else {
            }
        }
    }
    assert forall|o: u32| ord2.contains(o) <==> 2 <= o <= nodes2.len() by {
        if ord2.contains(o) {
            let i2 = choose|i2: int| 0 <= i2 < ord2.len() && ord2[i2] == o;
            if i2 == g {
            } else {
                let i1 = if i2 < g {
                    i2
                } else {
                    i2 - 1
                };
                assert(ord1.contains(ord1[i1]));
            }
        }
        if 2 <= o <= nodes2.len() {
            if o == new_off {
                assert(ord2[g] == o);
                assert(ord2.contains(o));
            } else {
                assert(ord1.contains(o));
                let i1 = choose|i1: int| 0 <= i1 < ord1.len() && ord1[i1] == o;
                if i1 < g {
                    assert(ord2[i1] == o);
                } else {
                    assert(ord2[i1 + 1] == o);
                }
                assert(ord2.contains(o));
            }
        }
    }
    // soundness of every member
    assert forall|i2: int| 0 <= i2 < ord2.len() implies post.node_ok(#[trigger] ord2[i2]) by {
        if i2 == g {
            assert(2 <= new_off <= nodes2.len());
        } else {
            let i1 = if i2 < g {
                i2
            } else {
                i2 - 1
            };
            assert(ord1.contains(ord1[i1]));
            assert(s0.node_ok(ord1[i1]));
        }
    }
    // keys stay sorted around the fresh key
    assert(keys_sorted(post.datav(), nodes2, ord2)) by {
        assert forall|a: int, b: int| 0 <= a < b < ord2.len() implies lex_lt(
            key_at(post.datav(), nodes2, #[trigger] ord2[a]),
            key_at(post.datav(), nodes2, #[trigger] ord2[b]),
        ) by {
            let ka = key_at(post.datav(), nodes2, ord2[a]);
            let kb = key_at(post.datav(), nodes2, ord2[b]);
            if a == g {
                let b1 = b - 1;
                assert(ord1.contains(ord1[b1]));
                assert(kb == key_at(s0.datav(), s0.nodesv(), ord1[b1]));
                assert(!lex_lt(kb, k));
                assert(kb != k) by {
                    if kb == k {
                        assert(s0.spec_has_key(k)) by {
                            assert(s0.key_of(ord1[b1]) == k);
                        }
                    }
                }
                lemma_lex_total(k, kb);
            } else if b == g {
                let a1 = a;
                assert(ord1.contains(ord1[a1]));
                assert(ka == key_at(s0.datav(), s0.nodesv(), ord1[a1]));
                assert(lex_lt(ka, k));
            } else {
                let a1 = if a < g {
                    a
                } else {
                    a - 1
                };
                let b1 = if b < g {
                    b
                } else {
                    b - 1
                };
                assert(ord1.contains(ord1[a1]) && ord1.contains(ord1[b1]));
                assert(ka == key_at(s0.datav(), s0.nodesv(), ord1[a1]));
                assert(kb == key_at(s0.datav(), s0.nodesv(), ord1[b1]));
                assert(a1 < b1);
            }
        }
    }
    // towers of the head
    assert forall|lvl: int|
        0 <= lvl < MAX_HEIGHT implies #[trigger] head_tower_ok(nodes2, ord2, lvl) by {
        assert(head_tower_ok(s0.nodesv(), ord1, lvl));
        lemma_next_idx_heights(s0.nodesv(), nodes2, ord1, 0, lvl);
        if lvl < h && prevs[lvl] == 1 {
            assert(splice_ok(s0, k, prevs[lvl], nexts[lvl], lvl));
            assert(post.nodesv()[0].tower@[lvl] == new_off);
            assert forall|q: int| 0 <= q < g implies height_of(nodes2, #[trigger] ord1[q])
                <= lvl by {
                assert(height_of(s0.nodesv(), ord1[q]) <= lvl);
            }
            lemma_next_insert_crossing(nodes2, ord1, g, new_off, 0, lvl);
        } else if lvl < h {
            let b = prevs[lvl];
            assert(splice_ok(s0, k, b, nexts[lvl], lvl));
            let pb = s0.pos_of(b);
            assert(0 <= pb < len1 && ord1[pb] == b);
            assert(post.nodesv()[0].tower@[lvl] == smid.nodesv()[0].tower@[lvl]) by {
                assert(prevs[lvl] - 1 != 0);
            }
            assert(node_at(nodes2, 1).tower@[lvl] == node_at(s0.nodesv(), 1).tower@[lvl]) by {
                assert(node_at(smid.nodesv(), 1) == node_at(s0.nodesv(), 1));
            }
            lemma_next_idx(nodes2, ord1, 0, lvl);
            assert(next_idx(nodes2, ord1, 0, lvl) <= pb) by {
                if next_idx(nodes2, ord1, 0, lvl) > pb {
                    assert(height_of(nodes2, ord1[pb]) <= lvl);
                    assert(height_of(s0.nodesv(), ord1[pb]) > lvl);
                }
            }
            lemma_next_insert_prefix(nodes2, ord1, g, new_off, 0, lvl);
        } else {
            assert(node_at(nodes2, 1).tower@[lvl] == node_at(s0.nodesv(), 1).tower@[lvl]) by {
                assert(node_at(smid.nodesv(), 1) == node_at(s0.nodesv(), 1));
            }
            lemma_next_insert_high(nodes2, ord1, g, new_off, 0, lvl);
        }
    }
    // towers of every member
    assert forall|i2: int, lvl: int|
        0 <= i2 < ord2.len() && 0 <= lvl < height_of(nodes2, ord2[i2]) implies #[trigger] tower_ok_at(
        nodes2,
        ord2,
        i2,
        lvl,
    ) by {
        if i2 == g {
            // the fresh node: its tower was written from the splices
            assert(lvl < h);
            assert(post.nodesv()[new_off - 1].tower@[lvl] == nexts[lvl]);
            let b = prevs[lvl];
            assert(splice_ok(s0, k, b, nexts[lvl], lvl));
            let pb = s0.pos_of(b);
            assert(nexts[lvl] == next_from(s0.nodesv(), ord1, pb + 1, lvl));
            lemma_next_idx_heights(s0.nodesv(), nodes2, ord1, pb + 1, lvl);
            assert(nexts[lvl] == next_from(nodes2, ord1, pb + 1, lvl));
            assert forall|q: int| pb + 1 <= q < g implies height_of(nodes2, #[trigger] ord1[q])
                <= lvl by {
                assert(height_of(s0.nodesv(), ord1[q]) <= lvl);
            }
            lemma_next_idx_skip(nodes2, ord1, pb + 1, g, lvl);
            assert(nexts[lvl] == next_from(nodes2, ord1, g, lvl));
            lemma_next_insert_suffix(nodes2, ord1, g, new_off, g, lvl);
        } else {
            let i1 = if i2 < g {
                i2
            } else {
                i2 - 1
            };
            let m = ord1[i1];
            assert(ord1.contains(m));
            assert(s0.node_ok(m));
            assert(m != new_off);
            assert(height_of(nodes2, m) == height_of(s0.nodesv(), m));
            assert(tower_ok_at(s0.nodesv(), ord1, i1, lvl));
            lemma_next_idx_heights(s0.nodesv(), nodes2, ord1, i1 + 1, lvl);
            let i = ord1.index_of(m);
            if i != i1 {
                assert(ord1[i] == ord1[i1]);
            }
            if lvl < h && m == prevs[lvl] {
                assert(splice_ok(s0, k, m, nexts[lvl], lvl));
                assert(s0.pos_of(m) == i1);
                assert(i1 < g);
                assert(i2 == i1);
                assert(post.nodesv()[prevs[lvl] - 1].tower@[lvl] == new_off);
                assert(node_at(nodes2, ord2[i2]).tower@[lvl] == new_off);
                assert forall|q: int| i1 + 1 <= q < g implies height_of(
                    nodes2,
                    #[trigger] ord1[q],
                ) <= lvl by {
                    assert(height_of(s0.nodesv(), ord1[q]) <= lvl);
                }
                lemma_next_insert_crossing(nodes2, ord1, g, new_off, i1 + 1, lvl);
            } else {
                // this entry was not rewritten
                assert(node_at(nodes2, m).tower@[lvl] == node_at(s0.nodesv(), m).tower@[lvl]) by {
                    assert(post.nodesv()[m - 1].tower@.len() == node_at(nodes2, m).tower@.len());
                    if lvl < h {
                        assert(m - 1 != new_off - 1);
                        if m == prevs[lvl] {
                            assert(false);
                        }
                        assert(m - 1 != prevs[lvl] - 1) by {
                            if prevs[lvl] == 1 {
                                assert(m >= 2);
                            } else {
                                assert(s0.ordv().contains(prevs[lvl]));
                            }
                        }
                    }
                    assert(post.nodesv()[m - 1].tower@[lvl] == smid.nodesv()[m - 1].tower@[lvl]);
                    assert(node_at(smid.nodesv(), m) == node_at(s0.nodesv(), m));
                }
                assert(node_at(nodes2, m).tower@[lvl] == next_from(nodes2, ord1, i1 + 1, lvl));
                if i1 >= g {
                    lemma_next_insert_suffix(nodes2, ord1, g, new_off, i1 + 1, lvl);
                    assert(i2 == i1 + 1);
                } else {
                    assert(i2 == i1);
                    if lvl >= h {
                        lemma_next_insert_high(nodes2, ord1, g, new_off, i1 + 1, lvl);
                    } else {
                        let b = prevs[lvl];
                        assert(splice_ok(s0, k, b, nexts[lvl], lvl));
                        let pb = s0.pos_of(b);
                        let q = next_idx(nodes2, ord1, i1 + 1, lvl);
                        lemma_next_idx(nodes2, ord1, i1 + 1, lvl);
                        assert(q < g) by {
                            if q >= g {
                                if b == 1 {
                                    assert(pb == -1);
                                    assert(pb < i1 < g);
                                    assert(height_of(s0.nodesv(), ord1[i1]) <= lvl);
                                } else {
                                    assert(0 <= pb < len1 && ord1[pb] == b);
                                    if pb > i1 {
                                        assert(height_of(nodes2, ord1[pb]) <= lvl);
                                        assert(height_of(s0.nodesv(), ord1[pb]) > lvl);
                                    } else if pb == i1 {
                                        assert(m == b);
                                    } else {
                                        assert(pb < i1 < g);
                                        assert(height_of(s0.nodesv(), ord1[i1]) <= lvl);
                                    }
                                }
                                assert(false);
                            }
                        }
                        lemma_next_insert_prefix(nodes2, ord1, g, new_off, i1 + 1, lvl);
                    }
                }
            }
        }
    }
    assert(post.wf());
    // the new entry reads back, and nothing else moved
    assert(post.spec_has_key(k)) by {
        assert(post.key_of(ord2[g]) == k);
    }
    lemma_first_geq(post.datav(), nodes2, ord2, k);
    post.lemma_get_at_geq(k);
    assert(post.geq_pos(k) == g) by {
        assert(post.key_of(ord2[g]) == k);
    }
    assert(post.val_of(new_off) == v) by {
        let nn = node_at(nodes2, new_off);
        let so = spec_slot_offset(nn.value) as int;
        assert(post.datav().subrange(so, so + spec_value_bytes(v).len()) =~= spec_value_bytes(v));
        crate::value::lemma_value_round_trip(post.datav(), so, v);
    }
    assert(post.spec_get(k) == Some(v));
    assert forall|o: u32| ord1.contains(o) implies post.val_of(o) == s0.val_of(o) by {
        let i = ord1.index_of(o);
        assert(ord1[i] == o);
        assert(s0.node_ok(o));
        let n = node_at(s0.nodesv(), o);
        let so = spec_slot_offset(n.value) as int;
        let ss = spec_slot_size(n.value) as int;
        assert(node_at(nodes2, o).value == n.value);
        assert(node_at(nodes2, o).key_offset == n.key_offset);
        assert(post.datav().subrange(so, so + ss) =~= s0.datav().subrange(so, so + ss));
        assert(post.datav().subrange(so + 2, so + 10) =~= s0.datav().subrange(so + 2, so + 10));
        assert(post.datav().subrange(so + 10, so + ss) =~= s0.datav().subrange(so + 10, so + ss));
        assert(post.datav()[so] == s0.datav()[so]);
        assert(post.datav()[so + 1] == s0.datav()[so + 1]);
    }
    assert forall|x: Seq<u8>| x != k implies (post.spec_has_key(x) <==> s0.spec_has_key(x)) by {
        if post.spec_has_key(x) {
            let i2 = choose|i2: int|
                0 <= i2 < ord2.len() && post.key_of(#[trigger] ord2[i2]) == x;
            assert(i2 != g);
            let i1 = if i2 < g {
                i2
            } else {
                i2 - 1
            };
            assert(ord1.contains(ord1[i1]));
            assert(s0.key_of(ord1[i1]) == x);
            assert(s0.spec_has_key(x));
        }
        if s0.spec_has_key(x) {
            let i1 = choose|i1: int|
                0 <= i1 < ord1.len() && s0.key_of(#[trigger] ord1[i1]) == x;
            let i2 = if i1 < g {
                i1
            } else {
                i1 + 1
            };
            assert(ord2[i2] == ord1[i1]);
            assert(ord1.contains(ord1[i1]));
            assert(post.key_of(ord2[i2]) == x);
            assert(post.spec_has_key(x));
        }
    }
    assert forall|x: Seq<u8>| x != k implies post.spec_get(x) == s0.spec_get(x) by {
        if post.spec_has_key(x) {
            post.lemma_get_at_geq(x);
            s0.lemma_get_at_geq(x);
            lemma_first_geq(post.datav(), nodes2, ord2, x);
            lemma_first_geq(s0.datav(), s0.nodesv(), ord1, x);
            let gp = post.geq_pos(x);
            let gs = s0.geq_pos(x);
            assert(post.key_of(ord2[gp]) == x);
            assert(gp != g);
            let i1 = if gp < g {
                gp
            } else {
                gp - 1
            };
            assert(ord2[gp] == ord1[i1]);
            assert(ord1.contains(ord1[i1]));
            assert(s0.key_of(ord1[i1]) == x);
            assert(i1 == gs);
            assert(post.val_of(ord2[gp]) == s0.val_of(ord1[gs]));
        }
    }
}


/// However the keys were put in, walking the nodes from first to last
/// visits strictly ascending keys, and looking any visited key up yields
/// exactly the value stored at its node — the latest one put for it.
pub proof fn lemma_iteration_sorted(s: SkipList, i: int, j: int)
    requires
        s.wf(),
        0 <= i < j < s.ordv().len(),
    ensures
        lex_lt(s.key_of(s.ordv()[i]), s.key_of(s.ordv()[j])),
        s.spec_get(s.key_of(s.ordv()[i])) == Some(s.val_of(s.ordv()[i])),
        s.spec_get(s.key_of(s.ordv()[j])) == Some(s.val_of(s.ordv()[j])),
{
    lemma_key_lookup(s, i);
    lemma_key_lookup(s, j);
}

/// The key stored at any node looks up to that node's value.
pub proof fn lemma_key_lookup(s: SkipList, i: int)
    requires
        s.wf(),
        0 <= i < s.ordv().len(),
    ensures
        s.spec_get(s.key_of(s.ordv()[i])) == Some(s.val_of(s.ordv()[i])),
{
    let k = s.key_of(s.ordv()[i]);
    lemma_first_geq(s.datav(), s.nodesv(), s.ordv(), k);
    s.lemma_get_at_geq(k);
    assert(s.spec_has_key(k)) by {
        assert(s.key_of(s.ordv()[i]) == k);
    }
    assert(s.geq_pos(k) == i);
}

} // verus!
