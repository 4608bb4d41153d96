//! In-memory model of the MANIFEST: which tables are live and at which LSM
//! level, kept as an id-sorted association list plus per-level id sets, with
//! counters of applied creations and deletions.

use vstd::prelude::*;

use crate::errors::Error;

verus! {

/// What one change does: creates a table or deletes one.
#[allow(non_camel_case_types)]
#[derive(Clone, Copy, Debug, PartialEq, Eq, Structural)]
pub enum Operation {
    CREATE,
    DELETE,
}

/// One table creation or deletion, the unit of the MANIFEST log.
#[derive(Clone, Copy, Debug, PartialEq, Eq, Structural)]
pub struct ManifestChange {
    pub id: u64,
    pub level: u32,
    pub op: Operation,
}

/// Step-by-step construction of a ManifestChange.
#[derive(Debug)]
pub struct ManifestChangeBuilder {
    pub id: u64,
    pub level: u32,
    pub op: Operation,
}

impl ManifestChangeBuilder {
    /// Starts a change for table `id`, at level 0, creating by default.
    pub fn new(id: u64) -> (r: ManifestChangeBuilder)
        ensures
            r.id == id,
            r.level == 0,
            r.op == Operation::CREATE,
    {
        ManifestChangeBuilder { id, level: 0, op: Operation::CREATE }
    }

    /// Sets the level the change speaks of.
    pub fn with_level(self, level: u32) -> (r: ManifestChangeBuilder)
        ensures
            r.id == self.id,
            r.level == level,
            r.op == self.op,
    {
        ManifestChangeBuilder { id: self.id, level, op: self.op }
    }

    /// Sets the operation of the change.
    pub fn with_op(self, op: Operation) -> (r: ManifestChangeBuilder)
        ensures
            r.id == self.id,
            r.level == self.level,
            r.op == op,
    {
        ManifestChangeBuilder { id: self.id, level: self.level, op }
    }

    /// Finishes the change.
    pub fn build(self) -> (r: ManifestChange)
        ensures
            r == (ManifestChange { id: self.id, level: self.level, op: self.op }),
    {
        ManifestChange { id: self.id, level: self.level, op: self.op }
    }
}

/// Information about one live table: the level it sits at.
#[derive(Default, Clone, Copy, Debug, PartialEq, Eq, Structural)]
pub struct TableManifest {
    pub level: u8,
}

/// The set of table ids live at one LSM level, kept sorted.
#[derive(Default, Clone, Debug)]
pub struct LevelManifest {
    pub tables: Vec<u64>,
}

impl LevelManifest {
    /// The ids live at this level, in ascending order.
    pub fn tables(&self) -> (r: &Vec<u64>)
        ensures
            r@ == self.tables@,
    {
        &self.tables
    }
}

/// The abstract content of a Manifest: the id-to-level mapping and the two
/// counters of applied changes.
pub ghost struct ManifestView {
    pub tables: Map<u64, u8>,
    pub creations: nat,
    pub deletions: nat,
}

/// True when some entry of `s` carries table id `id`.
pub open spec fn has_id(s: Seq<(u64, TableManifest)>, id: u64) -> bool {
    exists|i: int| 0 <= i < s.len() && (#[trigger] s[i]).0 == id
}

/// The index of the entry carrying `id`.
pub open spec fn idx_of_id(s: Seq<(u64, TableManifest)>, id: u64) -> int {
    choose|i: int| 0 <= i < s.len() && (#[trigger] s[i]).0 == id
}

/// The id-to-level map held by an association list.
pub open spec fn tables_map(s: Seq<(u64, TableManifest)>) -> Map<u64, u8> {
    Map::new(|id: u64| has_id(s, id), |id: u64| s[idx_of_id(s, id)].1.level)
}

/// Entries strictly ascending by table id.
pub open spec fn tables_sorted(s: Seq<(u64, TableManifest)>) -> bool {
    forall|i: int, j: int| 0 <= i < j < s.len() ==> (#[trigger] s[i]).0 < (#[trigger] s[j]).0
}

/// Ids strictly ascending.
pub open spec fn ids_sorted(s: Seq<u64>) -> bool {
    forall|i: int, j: int| 0 <= i < j < s.len() ==> #[trigger] s[i] < #[trigger] s[j]
}

/// True when `s` has an entry for `id` at level `l`.
pub open spec fn entry_live_at(s: Seq<(u64, TableManifest)>, id: u64, l: int) -> bool {
    exists|i: int| 0 <= i < s.len() && #[trigger] s[i] == (id, TableManifest { level: l as u8 })
        && l < 256
}

/// In a sorted list, the entry at index `i` decides the map at its id.
pub proof fn lemma_map_at(s: Seq<(u64, TableManifest)>, i: int)
    requires
        tables_sorted(s),
        0 <= i < s.len(),
    ensures
        tables_map(s).contains_key(s[i].0),
        tables_map(s)[s[i].0] == s[i].1.level,
{
    assert(has_id(s, s[i].0));
    let j = idx_of_id(s, s[i].0);
    assert(0 <= j < s.len() && s[j].0 == s[i].0);
    if i < j {
        assert(s[i].0 < s[j].0);
    } else if j < i {
        assert(s[j].0 < s[i].0);
    }
}

/// What one change does to the abstract state, or why it is corrupt.
pub open spec fn spec_apply_change(v: ManifestView, c: ManifestChange) -> Result<
    ManifestView,
    Error,
> {
    match c.op {
        Operation::CREATE => {
            if c.level > 255 {
                Err(Error::LevelTooLarge(c.id))
            } else if v.tables.contains_key(c.id) {
                Err(Error::TableExists(c.id))
            } else {
                Ok(
                    ManifestView {
                        tables: v.tables.insert(c.id, c.level as u8),
                        creations: v.creations + 1,
                        deletions: v.deletions,
                    },
                )
            }
        },
        Operation::DELETE => {
            if !v.tables.contains_key(c.id) {
                Err(Error::TableAbsent(c.id))
            } else if v.tables[c.id] as u32 != c.level {
                Err(Error::LevelMismatch(c.id))
            } else {
                Ok(
                    ManifestView {
                        tables: v.tables.remove(c.id),
                        creations: v.creations,
                        deletions: v.deletions + 1,
                    },
                )
            }
        },
    }
}

/// What a whole change set does: each change in order, all or nothing.
pub open spec fn spec_apply_change_set(v: ManifestView, cs: Seq<ManifestChange>) -> Result<
    ManifestView,
    Error,
>
    decreases cs.len(),
{
    if cs.len() == 0 {
        Ok(v)
    } else {
        match spec_apply_change(v, cs[0]) {
            Err(e) => Err(e),
            Ok(v2) => spec_apply_change_set(v2, cs.drop_first()),
        }
    }
}

/// The state with no tables and no applied changes.
pub open spec fn empty_view() -> ManifestView {
    ManifestView { tables: Map::empty(), creations: 0, deletions: 0 }
}

/// Applying one more change at the end composes with applying the rest.
pub proof fn lemma_apply_set_push(v: ManifestView, cs: Seq<ManifestChange>, c: ManifestChange)
    ensures
        spec_apply_change_set(v, cs.push(c)) == (match spec_apply_change_set(v, cs) {
            Ok(v2) => spec_apply_change(v2, c),
            Err(e) => Err(e),
        }),
    decreases cs.len(),
{
    if cs.len() == 0 {
        assert(cs.push(c)[0] == c);
        assert(cs.push(c).drop_first() =~= Seq::<ManifestChange>::empty());
        match spec_apply_change(v, c) {
            Ok(v2) => {
                assert(spec_apply_change_set(v2, Seq::<ManifestChange>::empty())
                    == Ok::<ManifestView, Error>(v2));
            },
            Err(_e) => {},
        }
    } else {
        assert(cs.push(c)[0] == cs[0]);
        assert(cs.push(c).drop_first() =~= cs.drop_first().push(c));
        match spec_apply_change(v, cs[0]) {
            Ok(v2) => {
                lemma_apply_set_push(v2, cs.drop_first(), c);
            },
            Err(_e) => {},
        }
    }
}

/// Each applied change bumps exactly one counter, and neither shrinks.
pub proof fn lemma_apply_set_counts(v: ManifestView, cs: Seq<ManifestChange>)
    ensures
        spec_apply_change_set(v, cs) matches Ok(v2) ==> {
            &&& v2.creations + v2.deletions == v.creations + v.deletions + cs.len()
            &&& v.creations <= v2.creations <= v.creations + cs.len()
            &&& v.deletions <= v2.deletions <= v.deletions + cs.len()
        },
    decreases cs.len(),
{
    if cs.len() > 0 {
        match spec_apply_change(v, cs[0]) {
            Ok(v2) => {
                lemma_apply_set_counts(v2, cs.drop_first());
            },
            Err(_e) => {},
        }
    }
}

/// The state the MANIFEST file describes: all live LSM tables and what level
/// they are at, replayed from a sequence of atomically applied change sets.
pub struct Manifest {
    pub levels: Vec<LevelManifest>,
    pub tables: Vec<(u64, TableManifest)>,
    pub creations: usize,
    pub deletions: usize,
}

impl View for Manifest {
    type V = ManifestView;

    open spec fn view(&self) -> ManifestView {
        ManifestView {
            tables: tables_map(self.tables@),
            creations: self.creations as nat,
            deletions: self.deletions as nat,
        }
    }
}

impl Manifest {
    /// Internal consistency: entries sorted by id, every live id in exactly
    /// the level set its entry names, and the counters balancing the number
    /// of live tables.
    pub open spec fn wf(self) -> bool {
        &&& tables_sorted(self.tables@)
        &&& (forall|l: int|
            0 <= l < self.levels@.len() ==> ids_sorted((#[trigger] self.levels@[l]).tables@))
        &&& (forall|l: int, k: int|
            0 <= l < self.levels@.len() && 0 <= k < self.levels@[l].tables@.len()
                ==> entry_live_at(self.tables@, #[trigger] self.levels@[l].tables@[k], l))
        &&& (forall|i: int|
            0 <= i < self.tables@.len() ==> {
                let e = #[trigger] self.tables@[i];
                &&& (e.1.level as int) < self.levels@.len()
                &&& self.levels@[e.1.level as int].tables@.contains(e.0)
            })
        &&& self.deletions <= self.creations
        &&& self.creations - self.deletions == self.tables@.len()
    }

    /// A fresh manifest: no tables, no applied changes.
    pub fn new() -> (r: Manifest)
        ensures
            r.wf(),
            r@.tables == Map::<u64, u8>::empty(),
            r@.creations == 0,
            r@.deletions == 0,
    {
        let r = Manifest { levels: Vec::new(), tables: Vec::new(), creations: 0, deletions: 0 };
        proof {
            assert(r@.tables =~= Map::<u64, u8>::empty());
        }
        r
    }

    /// Number of creations applied since the last rewrite.
    pub fn creations(&self) -> (r: usize)
        ensures
            r == self@.creations,
    {
        self.creations
    }

    /// Number of deletions applied since the last rewrite.
    pub fn deletions(&self) -> (r: usize)
        ensures
            r == self@.deletions,
    {
        self.deletions
    }

    /// Number of live tables.
    pub fn table_count(&self) -> (r: usize)
        ensures
            r == self.tables@.len(),
            self.wf() ==> r == self@.creations - self@.deletions,
    {
        self.tables.len()
    }

    /// The level a table is live at, or None when it is not live.
    pub fn table_level(&self, id: u64) -> (r: Option<u8>)
        requires
            self.wf(),
        ensures
            match r {
                Some(l) => self@.tables.contains_key(id) && self@.tables[id] == l,
                None => !self@.tables.contains_key(id),
            },
    {
        match find_table(&self.tables, id) {
            Some(i) => {
                proof {
                    lemma_map_at(self.tables@, i as int);
                }
                Some(self.tables[i].1.level)
            },
            None => None,
        }
    }

    /// The set of ids live at `level`, or None when the level was never used.
    pub fn level_tables(&self, level: usize) -> (r: Option<&LevelManifest>)
        ensures
            match r {
                Some(lm) => level < self.levels@.len() && lm.tables@ == self.levels@[
                    level as int
                ].tables@,
                None => level >= self.levels@.len(),
            },
    {
        if level < self.levels.len() {
            Some(&self.levels[level])
        } else {
            None
        }
    }

    /// A snapshot of the live tables as CREATE changes, ascending by id.
    pub fn as_changes(&self) -> (r: Vec<ManifestChange>)
        ensures
            r@ == snapshot_changes(self.tables@),
    {
        let mut out: Vec<ManifestChange> = Vec::new();
        let mut i: usize = 0;
        while i < self.tables.len()
            invariant
                i <= self.tables@.len(),
                out@ == snapshot_changes(self.tables@.take(i as int)),
            decreases self.tables@.len() - i,
        {
            let (id, tm) = self.tables[i];
            out.push(ManifestChange { id, level: tm.level as u32, op: Operation::CREATE });
            proof {
                assert(snapshot_changes(self.tables@.take(i + 1)) =~= snapshot_changes(
                    self.tables@.take(i as int),
                ).push(ManifestChange { id, level: tm.level as u32, op: Operation::CREATE }));
            }
            i = i + 1;
        }
        proof {
            assert(self.tables@.take(self.tables@.len() as int) =~= self.tables@);
        }
        out
    }

    /// A deep copy, used to apply a change set all or nothing.
    pub(crate) fn duplicate(&self) -> (r: Manifest)
        ensures
            same_state(r, *self),
    {
        let mut tables: Vec<(u64, TableManifest)> = Vec::new();
        let mut i: usize = 0;
        while i < self.tables.len()
            invariant
                i <= self.tables@.len(),
                tables@ == self.tables@.take(i as int),
            decreases self.tables@.len() - i,
        {
            tables.push(self.tables[i]);
            proof {
                assert(self.tables@.take(i + 1) =~= self.tables@.take(i as int).push(
                    self.tables@[i as int],
                ));
            }
            i = i + 1;
        }
        let mut levels: Vec<LevelManifest> = Vec::new();
        let mut l: usize = 0;
        while l < self.levels.len()
            invariant
                l <= self.levels@.len(),
                levels@.len() == l,
                forall|x: int|
                    0 <= x < l ==> (#[trigger] levels@[x]).tables@ == self.levels@[x].tables@,
            decreases self.levels@.len() - l,
        {
            let mut ids: Vec<u64> = Vec::new();
            let src = &self.levels[l];
            let mut k: usize = 0;
            while k < src.tables.len()
                invariant
                    k <= src.tables@.len(),
                    ids@ == src.tables@.take(k as int),
                decreases src.tables@.len() - k,
            {
                ids.push(src.tables[k]);
                proof {
                    assert(src.tables@.take(k + 1) =~= src.tables@.take(k as int).push(
                        src.tables@[k as int],
                    ));
                }
                k = k + 1;
            }
            proof {
                assert(src.tables@.take(src.tables@.len() as int) =~= src.tables@);
            }
            levels.push(LevelManifest { tables: ids });
            l = l + 1;
        }
        proof {
            assert(self.tables@.take(self.tables@.len() as int) =~= self.tables@);
        }
        Manifest { levels, tables, creations: self.creations, deletions: self.deletions }
    }
}

/// The snapshot of an association list as CREATE changes, entry by entry.
pub open spec fn snapshot_changes(s: Seq<(u64, TableManifest)>) -> Seq<ManifestChange> {
    s.map_values(
        |e: (u64, TableManifest)|
            ManifestChange { id: e.0, level: e.1.level as u32, op: Operation::CREATE },
    )
}

/// Equal observable content: same entries, same level sets, same counters.
pub open spec fn same_state(a: Manifest, b: Manifest) -> bool {
    &&& a.tables@ == b.tables@
    &&& a.levels@.len() == b.levels@.len()
    &&& (forall|l: int|
        0 <= l < a.levels@.len() ==> (#[trigger] a.levels@[l]).tables@ == b.levels@[l].tables@)
    &&& a.creations == b.creations
    &&& a.deletions == b.deletions
}

/// Equal observable content means equal views and equal well-formedness.
pub proof fn lemma_same_state(a: Manifest, b: Manifest)
    requires
        same_state(a, b),
    ensures
        a@ == b@,
        a.wf() <==> b.wf(),
{
    assert(a@.tables =~= b@.tables);
    if a.wf() {
        lemma_same_state_wf(a, b);
    }
    if b.wf() {
        lemma_same_state_wf(b, a);
    }
}

/// Well-formedness carries over to a manifest with the same content.
proof fn lemma_same_state_wf(a: Manifest, b: Manifest)
    requires
        same_state(a, b) || same_state(b, a),
    ensures
        a.wf() ==> b.wf(),
{
    assert(a.tables@ == b.tables@ && a.levels@.len() == b.levels@.len() && a.creations
        == b.creations && a.deletions == b.deletions);
    assert(forall|l: int|
        0 <= l < a.levels@.len() ==> (#[trigger] a.levels@[l]).tables@ == b.levels@[l].tables@);
    if a.wf() {
        assert forall|l: int|
            0 <= l < b.levels@.len() implies ids_sorted((#[trigger] b.levels@[l]).tables@) by {
            assert(b.levels@[l].tables@ == a.levels@[l].tables@);
        }
        assert forall|l: int, k: int|
            0 <= l < b.levels@.len() && 0 <= k < b.levels@[l].tables@.len() implies entry_live_at(
            b.tables@,
            #[trigger] b.levels@[l].tables@[k],
            l,
        ) by {
            assert(b.levels@[l].tables@ == a.levels@[l].tables@);
        }
        assert forall|i: int| 0 <= i < b.tables@.len() implies {
            let e = #[trigger] b.tables@[i];
            &&& (e.1.level as int) < b.levels@.len()
            &&& b.levels@[e.1.level as int].tables@.contains(e.0)
        } by {
            let e = b.tables@[i];
            assert(a.tables@[i] == e);
            assert((e.1.level as int) < a.levels@.len());
            assert(b.levels@[e.1.level as int].tables@ == a.levels@[e.1.level as int].tables@);
        }
    }
}

/// The index holding `id`, or None when `id` is not live.
fn find_table(tables: &Vec<(u64, TableManifest)>, id: u64) -> (r: Option<usize>)
    ensures
        match r {
            Some(i) => i < tables@.len() && tables@[i as int].0 == id,
            None => !has_id(tables@, id),
        },
{
    let mut i: usize = 0;
    while i < tables.len()
        invariant
            i <= tables@.len(),
            forall|j: int| 0 <= j < i ==> (#[trigger] tables@[j]).0 != id,
        decreases tables@.len() - i,
    {
        if tables[i].0 == id {
            return Some(i);
        }
        i = i + 1;
    }
    None
}

/// The index of `id` in a sorted id list, or None when absent.
fn find_id(v: &Vec<u64>, id: u64) -> (r: Option<usize>)
    ensures
        match r {
            Some(i) => i < v@.len() && v@[i as int] == id,
            None => !v@.contains(id),
        },
{
    let mut i: usize = 0;
    while i < v.len()
        invariant
            i <= v@.len(),
            forall|j: int| 0 <= j < i ==> #[trigger] v@[j] != id,
        decreases v@.len() - i,
    {
        if v[i] == id {
            return Some(i);
        }
        i = i + 1;
    }
    proof {
        assert forall|j: int| 0 <= j < v@.len() implies #[trigger] v@[j] != id by {}
        assert(!v@.contains(id));
    }
    None
}

/// Inserts a fresh id into a sorted id list, keeping it sorted.
fn insert_id_sorted(v: &mut Vec<u64>, id: u64)
    requires
        ids_sorted(old(v)@),
        !old(v)@.contains(id),
    ensures
        ids_sorted(final(v)@),
        final(v)@.len() == old(v)@.len() + 1,
        forall|x: u64| final(v)@.contains(x) <==> (old(v)@.contains(x) || x == id),
{
    let mut p: usize = 0;
    while p < v.len() && v[p] < id
        invariant
            p <= v@.len(),
            forall|j: int| 0 <= j < p ==> #[trigger] v@[j] < id,
        decreases v@.len() - p,
    {
        p = p + 1;
    }
    proof {
        if p < v@.len() {
            assert(v@[p as int] != id) by {
                assert(v@.contains(v@[p as int]) == false || true);
                if v@[p as int] == id {
                    assert(v@.contains(id));
                }
            }
            assert(v@[p as int] > id);
        }
    }
    let ghost oldv = v@;
    v.insert(p, id);
    proof {
        let newv = v@;
        assert forall|i: int, j: int| 0 <= i < j < newv.len() implies #[trigger] newv[i]
            < #[trigger] newv[j] by {
            if j < p {
            } else if i < p && j == p {
            } else if i < p && j > p {
                assert(newv[j] == oldv[j - 1]);
                if j - 1 == p as int {
                } else {
                    assert(oldv[p as int] <= oldv[j - 1] || oldv[p as int] > oldv[j - 1]);
                    assert((p as int) < j - 1);
                }
            } else if i == p {
                assert(newv[j] == oldv[j - 1]);
                assert(j - 1 >= p);
                if j - 1 == p {
                    assert(newv[j] == oldv[p as int]);
                } else {
                    assert(oldv[p as int] < oldv[j - 1]);
                }
            } else {
                assert(newv[i] == oldv[i - 1] && newv[j] == oldv[j - 1]);
            }
        }
        assert forall|x: u64| final(v)@.contains(x) <==> (oldv.contains(x) || x == id) by {
            if newv.contains(x) {
                let i = choose|i: int| 0 <= i < newv.len() && newv[i] == x;
                if i < p {
                    assert(oldv[i] == x);
                    assert(oldv.contains(x));
                } else if i == p {
                } else {
                    assert(oldv[i - 1] == x);
                    assert(oldv.contains(x));
                }
            }
            if oldv.contains(x) {
                let i = choose|i: int| 0 <= i < oldv.len() && oldv[i] == x;
                if i < p {
                    assert(newv[i] == x);
                } else {
                    assert(newv[i + 1] == x);
                }
                assert(newv.contains(x));
            }
            if x == id {
                assert(newv[p as int] == x);
                assert(newv.contains(x));
            }
        }
    }
}

/// Removes one id from a sorted id list.
fn remove_id_sorted(v: &mut Vec<u64>, i: usize)
    requires
        ids_sorted(old(v)@),
        i < old(v)@.len(),
    ensures
        ids_sorted(final(v)@),
        final(v)@.len() == old(v)@.len() - 1,
        forall|x: u64|
            final(v)@.contains(x) <==> (old(v)@.contains(x) && x != old(v)@[i as int]),
{
    let ghost oldv = v@;
    let ghost id = v@[i as int];
    v.remove(i);
    proof {
        let newv = v@;
        assert forall|a: int, b: int| 0 <= a < b < newv.len() implies #[trigger] newv[a]
            < #[trigger] newv[b] by {
            let a2 = if a < i { a } else { a + 1 };
            let b2 = if b < i { b } else { b + 1 };
            assert(newv[a] == oldv[a2] && newv[b] == oldv[b2]);
        }
        assert forall|x: u64| newv.contains(x) <==> (oldv.contains(x) && x != id) by {
            if newv.contains(x) {
                let j = choose|j: int| 0 <= j < newv.len() && newv[j] == x;
                let j2 = if j < i { j } else { j + 1 };
                assert(oldv[j2] == x);
                assert(oldv.contains(x));
                if j2 < i {
                    assert(oldv[j2] < oldv[i as int]);
                } else if j2 > i {
                    assert(oldv[i as int] < oldv[j2]);
                }
            }
            if oldv.contains(x) && x != id {
                let j = choose|j: int| 0 <= j < oldv.len() && oldv[j] == x;
                if j < i {
                    assert(newv[j] == x);
                    assert(newv.contains(x));
                } else {
                    assert(j != i);
                    assert(newv[j - 1] == x);
                    assert(newv.contains(x));
                }
            }
        }
    }
}

/// Inserts a fresh entry into the sorted association list.
fn insert_table_sorted(tables: &mut Vec<(u64, TableManifest)>, id: u64, tm: TableManifest)
    requires
        tables_sorted(old(tables)@),
        !has_id(old(tables)@, id),
    ensures
        tables_sorted(final(tables)@),
        final(tables)@.len() == old(tables)@.len() + 1,
        tables_map(final(tables)@) == tables_map(old(tables)@).insert(id, tm.level),
        forall|x: u64| has_id(final(tables)@, x) <==> (has_id(old(tables)@, x) || x == id),
        forall|x: u64, l: int|
            entry_live_at(final(tables)@, x, l) <==> (entry_live_at(old(tables)@, x, l) || ((
            x,
            TableManifest { level: l as u8 },
            ) == (id, tm) && l < 256)),
{
    let mut p: usize = 0;
    while p < tables.len() && tables[p].0 < id
        invariant
            p <= tables@.len(),
            forall|j: int| 0 <= j < p ==> (#[trigger] tables@[j]).0 < id,
        decreases tables@.len() - p,
    {
        p = p + 1;
    }
    proof {
        if p < tables@.len() {
            if tables@[p as int].0 == id {
                assert(has_id(tables@, id));
            }
            assert(tables@[p as int].0 > id);
        }
    }
    let ghost oldt = tables@;
    tables.insert(p, (id, tm));
    proof {
        let newt = tables@;
        assert forall|a: int, b: int| 0 <= a < b < newt.len() implies (#[trigger] newt[a]).0 < (
        #[trigger] newt[b]).0 by {
            if b < p {
            } else if a < p && b == p {
            } else if a < p && b > p {
                assert(newt[b] == oldt[b - 1]);
                assert(b - 1 >= p);
                if b - 1 > p {
                    assert(oldt[p as int].0 < oldt[b - 1].0);
                }
            } else if a == p {
                assert(newt[b] == oldt[b - 1]);
                if b - 1 > p {
                    assert(oldt[p as int].0 < oldt[b - 1].0);
                }
            } else {
                assert(newt[a] == oldt[a - 1] && newt[b] == oldt[b - 1]);
            }
        }
        assert forall|x: u64| has_id(newt, x) <==> (has_id(oldt, x) || x == id) by {
            if has_id(newt, x) {
                let i = idx_of_id(newt, x);
                if i < p {
                    assert(oldt[i].0 == x);
                    assert(has_id(oldt, x));
                } else if i > p {
                    assert(oldt[i - 1].0 == x);
                    assert(has_id(oldt, x));
                }
            }
            if has_id(oldt, x) {
                let i = idx_of_id(oldt, x);
                if i < p {
                    assert(newt[i].0 == x);
                } else {
                    assert(newt[i + 1].0 == x);
                }
                assert(has_id(newt, x));
            }
            if x == id {
                assert(newt[p as int].0 == x);
                assert(has_id(newt, x));
            }
        }
        assert forall|x: u64, l: int|
            entry_live_at(newt, x, l) <==> (entry_live_at(oldt, x, l) || ((
            x,
            TableManifest { level: l as u8 },
            ) == (id, tm) && l < 256)) by {
            if entry_live_at(newt, x, l) {
                let i = choose|i: int|
                    0 <= i < newt.len() && #[trigger] newt[i] == (
                    x,
                    TableManifest { level: l as u8 },
                    ) && l < 256;
                if i < p {
                    assert(oldt[i] == newt[i]);
                    assert(entry_live_at(oldt, x, l));
                } else if i > p {
                    assert(oldt[i - 1] == newt[i]);
                    assert(entry_live_at(oldt, x, l));
                }
            }
            if entry_live_at(oldt, x, l) {
                let i = choose|i: int|
                    0 <= i < oldt.len() && #[trigger] oldt[i] == (
                    x,
                    TableManifest { level: l as u8 },
                    ) && l < 256;
                if i < p {
                    assert(newt[i] == oldt[i]);
                } else {
                    assert(newt[i + 1] == oldt[i]);
                }
                assert(entry_live_at(newt, x, l));
            }
            if (x, TableManifest { level: l as u8 }) == (id, tm) && l < 256 {
                assert(newt[p as int] == (x, TableManifest { level: l as u8 }));
                assert(entry_live_at(newt, x, l));
            }
        }
        assert forall|k: u64| true implies #[trigger] tables_map(newt).contains_key(k)
            == tables_map(oldt).insert(id, tm.level).contains_key(k) by {
            assert(tables_map(newt).contains_key(k) == has_id(newt, k));
            assert(tables_map(oldt).contains_key(k) == has_id(oldt, k));
        }
        assert forall|k: u64| tables_map(newt).contains_key(k) implies #[trigger] tables_map(
            newt,
        )[k] == tables_map(oldt).insert(id, tm.level)[k] by {
            if k == id {
                lemma_map_at(newt, p as int);
            } else {
                let i = idx_of_id(oldt, k);
                assert(oldt[i].0 == k);
                if i < p {
                    assert(newt[i] == oldt[i]);
                    lemma_map_at(newt, i);
                    lemma_map_at(oldt, i);
                } else {
                    assert(newt[i + 1] == oldt[i]);
                    lemma_map_at(newt, i + 1);
                    lemma_map_at(oldt, i);
                }
            }
        }
        assert(tables_map(newt) =~= tables_map(oldt).insert(id, tm.level));
    }
}

/// Removes the entry at index `i` from the sorted association list.
fn remove_table_at(tables: &mut Vec<(u64, TableManifest)>, i: usize)
    requires
        tables_sorted(old(tables)@),
        i < old(tables)@.len(),
    ensures
        tables_sorted(final(tables)@),
        final(tables)@.len() == old(tables)@.len() - 1,
        tables_map(final(tables)@) == tables_map(old(tables)@).remove(old(tables)@[i as int].0),
        forall|x: u64|
            has_id(final(tables)@, x) <==> (has_id(old(tables)@, x) && x != old(
                tables,
            )@[i as int].0),
        forall|x: u64, l: int|
            entry_live_at(final(tables)@, x, l) <==> (entry_live_at(old(tables)@, x, l) && x
                != old(tables)@[i as int].0),
{
    let ghost oldt = tables@;
    let ghost id = tables@[i as int].0;
    tables.remove(i);
    proof {
        let newt = tables@;
        assert forall|a: int, b: int| 0 <= a < b < newt.len() implies (#[trigger] newt[a]).0 < (
        #[trigger] newt[b]).0 by {
            let a2 = if a < i { a } else { a + 1 };
            let b2 = if b < i { b } else { b + 1 };
            assert(newt[a] == oldt[a2] && newt[b] == oldt[b2]);
        }
        assert forall|x: u64| has_id(newt, x) <==> (has_id(oldt, x) && x != id) by {
            if has_id(newt, x) {
                let j = idx_of_id(newt, x);
                let j2 = if j < i { j } else { j + 1 };
                assert(oldt[j2].0 == x);
                assert(has_id(oldt, x));
                if j2 < i {
                    assert(oldt[j2].0 < oldt[i as int].0);
                } else if j2 > i {
                    assert(oldt[i as int].0 < oldt[j2].0);
                }
            }
            if has_id(oldt, x) && x != id {
                let j = idx_of_id(oldt, x);
                assert(j != i);
                if j < i {
                    assert(newt[j].0 == x);
                    assert(has_id(newt, x));
                } else {
                    assert(newt[j - 1].0 == x);
                    assert(has_id(newt, x));
                }
            }
        }
        assert forall|x: u64, l: int|
            entry_live_at(newt, x, l) <==> (entry_live_at(oldt, x, l) && x != id) by {
            if entry_live_at(newt, x, l) {
                let j = choose|j: int|
                    0 <= j < newt.len() && #[trigger] newt[j] == (
                    x,
                    TableManifest { level: l as u8 },
                    ) && l < 256;
                let j2 = if j < i { j } else { j + 1 };
                assert(oldt[j2] == newt[j]);
                assert(entry_live_at(oldt, x, l));
                if j2 < i {
                    assert(oldt[j2].0 < oldt[i as int].0);
                } else if j2 > i {
                    assert(oldt[i as int].0 < oldt[j2].0);
                }
            }
            if entry_live_at(oldt, x, l) && x != id {
                let j = choose|j: int|
                    0 <= j < oldt.len() && #[trigger] oldt[j] == (
                    x,
                    TableManifest { level: l as u8 },
                    ) && l < 256;
                assert(oldt[j].0 == x);
                if j < i {
                    assert(newt[j] == oldt[j]);
                    assert(entry_live_at(newt, x, l));
                } else {
                    assert(j != i);
                    assert(newt[j - 1] == oldt[j]);
                    assert(entry_live_at(newt, x, l));
                }
            }
        }
        assert forall|k: u64| tables_map(newt).contains_key(k) implies #[trigger] tables_map(
            newt,
        )[k] == tables_map(oldt).remove(id)[k] by {
            let j = idx_of_id(newt, k);
            let j2 = if j < i { j } else { j + 1 };
            assert(newt[j] == oldt[j2]);
            lemma_map_at(newt, j);
            lemma_map_at(oldt, j2);
            if j2 < i {
                assert(oldt[j2].0 < oldt[i as int].0);
            } else if j2 > i {
                assert(oldt[i as int].0 < oldt[j2].0);
            }
        }
        assert(tables_map(newt) =~= tables_map(oldt).remove(id));
    }
}

/// Applies one change to the manifest, or reports why it is corrupt and
/// leaves the manifest as it was.
pub fn apply_manifest_change(build: &mut Manifest, tc: &ManifestChange) -> (r: Result<(), Error>)
    requires
        old(build).wf(),
        old(build).creations < usize::MAX,
        old(build).deletions < usize::MAX,
    ensures
        final(build).wf(),
        match r {
            Ok(()) => spec_apply_change(old(build)@, *tc) == Ok::<ManifestView, Error>(
                final(build)@,
            ),
            Err(e) => spec_apply_change(old(build)@, *tc) == Err::<ManifestView, Error>(e)
                && same_state(*final(build), *old(build)),
        },
        final(build).creations + final(build).deletions <= old(build).creations + old(
            build,
        ).deletions + 1,
{
    match tc.op {
        Operation::CREATE => {
            if tc.level > 255 {
                return Err(Error::LevelTooLarge(tc.id));
            }
            if let Some(_i) = find_table(&build.tables, tc.id) {
                proof {
                    lemma_map_at(build.tables@, _i as int);
                }
                return Err(Error::TableExists(tc.id));
            }
            let lvl = tc.level as u8;
            let tm = TableManifest { level: lvl };
            while build.levels.len() <= lvl as usize
                invariant
                    old(build).wf(),
                    build.tables@ == old(build).tables@,
                    build.creations == old(build).creations,
                    build.deletions == old(build).deletions,
                    build.levels@.len() >= old(build).levels@.len(),
                    forall|l: int|
                        0 <= l < old(build).levels@.len() ==> (#[trigger] build.levels@[l]).tables@
                            == old(build).levels@[l].tables@,
                    forall|l: int|
                        old(build).levels@.len() <= l < build.levels@.len() ==> (
                        #[trigger] build.levels@[l]).tables@ == Seq::<u64>::empty(),
                decreases 256 - build.levels@.len(),
            {
                build.levels.push(LevelManifest { tables: Vec::new() });
            }
            proof {
                assert(build.wf()) by {
                    assert forall|l: int, k: int|
                        0 <= l < build.levels@.len() && 0 <= k
                            < build.levels@[l].tables@.len() implies entry_live_at(
                        build.tables@,
                        #[trigger] build.levels@[l].tables@[k],
                        l,
                    ) by {
                        if l < old(build).levels@.len() {
                            assert(build.levels@[l].tables@ == old(build).levels@[l].tables@);
                        } else {
                            assert(build.levels@[l].tables@.len() == 0);
                        }
                    }
                }
            }
            let ghost mid = *build;
            let ghost oldt = build.tables@;
            insert_id_sorted(&mut build.levels[lvl as usize].tables, tc.id);
            proof {
                if has_id(oldt, tc.id) {
                    let w = idx_of_id(oldt, tc.id);
                    lemma_map_at(oldt, w);
                }
                assert(!mid.levels@[lvl as int].tables@.contains(tc.id)) by {
                    if mid.levels@[lvl as int].tables@.contains(tc.id) {
                        let k = choose|k: int|
                            0 <= k < mid.levels@[lvl as int].tables@.len()
                                && mid.levels@[lvl as int].tables@[k] == tc.id;
                        assert(entry_live_at(oldt, tc.id, lvl as int));
                        let w = choose|w: int|
                            0 <= w < oldt.len() && #[trigger] oldt[w] == (
                            tc.id,
                            TableManifest { level: lvl },
                            ) && (lvl as int) < 256;
                        assert(has_id(oldt, tc.id));
                    }
                }
            }
            insert_table_sorted(&mut build.tables, tc.id, tm);
            build.creations = build.creations + 1;
            proof {
                let newm = *build;
                assert(newm.wf()) by {
                    assert forall|l: int, k: int|
                        0 <= l < newm.levels@.len() && 0 <= k
                            < newm.levels@[l].tables@.len() implies entry_live_at(
                        newm.tables@,
                        #[trigger] newm.levels@[l].tables@[k],
                        l,
                    ) by {
                        let x = newm.levels@[l].tables@[k];
                        if l == lvl as int {
                            if x == tc.id {
                                assert(entry_live_at(newm.tables@, x, l));
                            } else {
                                assert(newm.levels@[l].tables@.contains(x));
                                assert(mid.levels@[l].tables@.contains(x));
                                let k2 = choose|k2: int|
                                    0 <= k2 < mid.levels@[l].tables@.len()
                                        && mid.levels@[l].tables@[k2] == x;
                                assert(entry_live_at(mid.tables@, x, l));
                            }
                        } else {
                            assert(newm.levels@[l].tables@ == mid.levels@[l].tables@);
                            assert(entry_live_at(mid.tables@, x, l));
                        }
                    }
                    assert forall|i: int| 0 <= i < newm.tables@.len() implies {
                        let e = #[trigger] newm.tables@[i];
                        &&& (e.1.level as int) < newm.levels@.len()
                        &&& newm.levels@[e.1.level as int].tables@.contains(e.0)
                    } by {
                        let e = newm.tables@[i];
                        assert(has_id(newm.tables@, e.0));
                        if e.0 == tc.id {
                            assert(entry_live_at(newm.tables@, tc.id, lvl as int));
                            let w = choose|w: int|
                                0 <= w < newm.tables@.len() && #[trigger] newm.tables@[w] == (
                                tc.id,
                                tm,
                                ) && (lvl as int) < 256;
                            if w != i {
                                assert(newm.tables@[w].0 < newm.tables@[i].0 || newm.tables@[i].0
                                    < newm.tables@[w].0);
                            }
                            assert(e == (tc.id, tm));
                            assert(newm.levels@[lvl as int].tables@.contains(tc.id));
                        } else {
                            assert(has_id(mid.tables@, e.0));
                            let w = idx_of_id(mid.tables@, e.0);
                            assert(entry_live_at(mid.tables@, e.0, mid.tables@[w].1.level as int));
                            let w2 = choose|w2: int|
                                0 <= w2 < newm.tables@.len() && #[trigger] newm.tables@[w2] == (
                                e.0,
                                mid.tables@[w].1,
                                );
                            if w2 != i {
                                assert(newm.tables@[w2].0 < newm.tables@[i].0 || newm.tables@[i].0
                                    < newm.tables@[w2].0);
                            }
                            assert(e == (e.0, mid.tables@[w].1));
                            assert(mid.levels@[e.1.level as int].tables@.contains(e.0));
                            if e.1.level == lvl {
                                assert(newm.levels@[e.1.level as int].tables@.contains(e.0));
                            } else {
                                assert(newm.levels@[e.1.level as int].tables@ == mid.levels@[
                                    e.1.level as int
                                ].tables@);
                            }
                        }
                    }
                }
            }
            Ok(())
        },
        Operation::DELETE => {
            match find_table(&build.tables, tc.id) {
                None => Err(Error::TableAbsent(tc.id)),
                Some(i) => {
                    proof {
                        lemma_map_at(build.tables@, i as int);
                    }
                    let lvl = build.tables[i].1.level;
                    if lvl as u32 != tc.level {
                        return Err(Error::LevelMismatch(tc.id));
                    }
                    let ghost pre = *build;
                    let id = tc.id;
                    // The entry's level set holds the id, by well-formedness.
                    assert(pre.levels@[lvl as int].tables@.contains(id));
                    let j = match find_id(&build.levels[lvl as usize].tables, id) {
                        Some(j) => j,
                        None => {
                            proof {
                                assert(false);
                            }
                            0
                        },
                    };
                    remove_id_sorted(&mut build.levels[lvl as usize].tables, j);
                    remove_table_at(&mut build.tables, i);
                    build.deletions = build.deletions + 1;
                    proof {
                        let newm = *build;
                        assert(newm.wf()) by {
                            assert forall|l: int, k: int|
                                0 <= l < newm.levels@.len() && 0 <= k
                                    < newm.levels@[l].tables@.len() implies entry_live_at(
                                newm.tables@,
                                #[trigger] newm.levels@[l].tables@[k],
                                l,
                            ) by {
                                let x = newm.levels@[l].tables@[k];
                                if l == lvl as int {
                                    assert(newm.levels@[l].tables@.contains(x));
                                    assert(pre.levels@[l].tables@.contains(x) && x != id);
                                    let k2 = choose|k2: int|
                                        0 <= k2 < pre.levels@[l].tables@.len()
                                            && pre.levels@[l].tables@[k2] == x;
                                    assert(entry_live_at(pre.tables@, x, l));
                                } else {
                                    assert(newm.levels@[l].tables@ == pre.levels@[l].tables@);
                                    assert(entry_live_at(pre.tables@, x, l));
                                    assert(x != id) by {
                                        if x == id {
                                            let w = choose|w: int|
                                                0 <= w < pre.tables@.len()
                                                    && #[trigger] pre.tables@[w] == (
                                                id,
                                                TableManifest { level: l as u8 },
                                                ) && l < 256;
                                            if w != i {
                                                assert(pre.tables@[w].0 < pre.tables@[i as int].0
                                                    || pre.tables@[i as int].0
                                                    < pre.tables@[w].0);
                                            }
                                            assert(l as u8 == lvl);
                                        }
                                    }
                                }
                            }
                            assert forall|x: int| 0 <= x < newm.tables@.len() implies {
                                let e = #[trigger] newm.tables@[x];
                                &&& (e.1.level as int) < newm.levels@.len()
                                &&& newm.levels@[e.1.level as int].tables@.contains(e.0)
                            } by {
                                let e = newm.tables@[x];
                                assert(has_id(newm.tables@, e.0));
                                assert(has_id(pre.tables@, e.0) && e.0 != id);
                                let w = idx_of_id(pre.tables@, e.0);
                                assert(entry_live_at(
                                    pre.tables@,
                                    e.0,
                                    pre.tables@[w].1.level as int,
                                ));
                                let w2 = choose|w2: int|
                                    0 <= w2 < newm.tables@.len() && #[trigger] newm.tables@[w2]
                                        == (e.0, pre.tables@[w].1);
                                if w2 != x {
                                    assert(newm.tables@[w2].0 < newm.tables@[x].0
                                        || newm.tables@[x].0 < newm.tables@[w2].0);
                                }
                                assert(e == (e.0, pre.tables@[w].1));
                                assert(pre.levels@[e.1.level as int].tables@.contains(e.0));
                                if e.1.level == lvl {
                                    assert(newm.levels@[e.1.level as int].tables@.contains(e.0));
                                } else {
                                    assert(newm.levels@[e.1.level as int].tables@ == pre.levels@[
                                        e.1.level as int
                                    ].tables@);
                                }
                            }
                        }
                        assert(final(build)@.tables =~= old(build)@.tables.remove(id));
                    }
                    Ok(())
                },
            }
        },
    }
}

/// Applies a whole change set atomically: on any error the manifest is left
/// exactly as it was and the error of the first offending change is returned.
pub fn apply_manifest_change_set(build: &mut Manifest, cs: &Vec<ManifestChange>) -> (r: Result<
    (),
    Error,
>)
    requires
        old(build).wf(),
        old(build).creations + cs@.len() < usize::MAX,
        old(build).deletions + cs@.len() < usize::MAX,
    ensures
        final(build).wf(),
        match r {
            Ok(()) => spec_apply_change_set(old(build)@, cs@) == Ok::<ManifestView, Error>(
                final(build)@,
            ) && final(build).creations + final(build).deletions <= old(build).creations + old(
                build,
            ).deletions + cs@.len(),
            Err(e) => spec_apply_change_set(old(build)@, cs@) == Err::<ManifestView, Error>(e)
                && same_state(*final(build), *old(build)),
        },
{
    let mut work = build.duplicate();
    proof {
        lemma_same_state(work, *build);
        assert(cs@.skip(0) =~= cs@);
    }
    let mut i: usize = 0;
    while i < cs.len()
        invariant
            i <= cs@.len(),
            old(build).wf(),
            work.wf(),
            work.creations + work.deletions <= old(build).creations + old(build).deletions + i,
            old(build).creations + cs@.len() < usize::MAX,
            old(build).deletions + cs@.len() < usize::MAX,
            work.creations <= old(build).creations + i,
            work.deletions <= old(build).deletions + i,
            spec_apply_change_set(old(build)@, cs@) == spec_apply_change_set(
                work@,
                cs@.skip(i as int),
            ),
            same_state(*build, *old(build)),
        decreases cs@.len() - i,
    {
        let c = cs[i];
        let ghost prev = work@;
        let res = apply_manifest_change(&mut work, &c);
        proof {
            assert(cs@.skip(i as int)[0] == c);
            assert(cs@.skip(i as int).drop_first() =~= cs@.skip(i + 1));
        }
        match res {
            Ok(()) => {},
            Err(e) => {
                proof {
                    lemma_same_state(*build, *old(build));
                }
                return Err(e);
            },
        }
        i = i + 1;
    }
    proof {
        assert(cs@.skip(cs@.len() as int) =~= Seq::<ManifestChange>::empty());
    }
    *build = work;
    Ok(())
}


/// A sorted association list is determined by the map it holds: two sorted
/// lists with the same id-to-level map are the same list.
pub proof fn lemma_sorted_tables_unique(a: Seq<(u64, TableManifest)>, b: Seq<(u64, TableManifest)>)
    requires
        tables_sorted(a),
        tables_sorted(b),
        tables_map(a) == tables_map(b),
    ensures
        a == b,
    decreases a.len(),
{
    if a.len() == 0 {
        if b.len() > 0 {
            lemma_map_at(b, b.len() - 1);
            assert(has_id(b, b[b.len() - 1].0));
            assert(tables_map(a).contains_key(b[b.len() - 1].0));
            let i = idx_of_id(a, b[b.len() - 1].0);
            assert(false);
        }
        assert(a =~= b);
    } else if b.len() == 0 {
        lemma_map_at(a, a.len() - 1);
        assert(tables_map(b).contains_key(a[a.len() - 1].0));
        let i = idx_of_id(b, a[a.len() - 1].0);
        assert(false);
    } else {
        // the largest id of each list is the largest id of the shared map,
        // so the last entries agree
        let ma = a[a.len() - 1].0;
        let mb = b[b.len() - 1].0;
        lemma_map_at(a, a.len() - 1);
        lemma_map_at(b, b.len() - 1);
        assert(tables_map(b).contains_key(ma));
        assert(has_id(b, ma));
        let j = idx_of_id(b, ma);
        assert(0 <= j < b.len() && b[j].0 == ma);
        if j < b.len() - 1 {
            assert(b[j].0 < b[b.len() - 1].0);
        }
        assert(tables_map(a).contains_key(mb));
        assert(has_id(a, mb));
        let i = idx_of_id(a, mb);
        assert(0 <= i < a.len() && a[i].0 == mb);
        if i < a.len() - 1 {
            assert(a[i].0 < a[a.len() - 1].0);
        }
        assert(ma == mb);
        assert(a[a.len() - 1].1.level == tables_map(a)[ma]);
        assert(b[b.len() - 1].1.level == tables_map(b)[ma]);
        assert(a[a.len() - 1] == b[b.len() - 1]);
        let fa = a.drop_last();
        let fb = b.drop_last();
        lemma_tables_map_drop_last(a);
        lemma_tables_map_drop_last(b);
        lemma_sorted_tables_unique(fa, fb);
        assert(a =~= fa.push(a[a.len() - 1]));
        assert(b =~= fb.push(b[b.len() - 1]));
    }
}

/// Dropping the last entry of a sorted list removes exactly its id from
/// the map.
proof fn lemma_tables_map_drop_last(s: Seq<(u64, TableManifest)>)
    requires
        tables_sorted(s),
        s.len() > 0,
    ensures
        tables_map(s.drop_last()) == tables_map(s).remove(s[s.len() - 1].0),
{
    let f = s.drop_last();
    let m = s[s.len() - 1].0;
    assert forall|k: u64| has_id(f, k) <==> (has_id(s, k) && k != m) by {
        if has_id(f, k) {
            let i = idx_of_id(f, k);
            assert(0 <= i < f.len() && f[i].0 == k);
            assert(s[i].0 == k);
            assert(has_id(s, k));
            assert(s[i].0 < s[s.len() - 1].0);
        }
        if has_id(s, k) && k != m {
            let i = idx_of_id(s, k);
            assert(0 <= i < s.len() && s[i].0 == k);
            assert(i != s.len() - 1);
            assert(f[i].0 == k);
            assert(has_id(f, k));
        }
    }
    assert forall|k: u64| tables_map(f).contains_key(k) implies #[trigger] tables_map(f)[k]
        == tables_map(s).remove(m)[k] by {
        let i = idx_of_id(f, k);
        assert(0 <= i < f.len() && f[i].0 == k);
        assert(s[i] == f[i]);
        lemma_map_at(f, i);
        lemma_map_at(s, i);
    }
    assert(tables_map(f) =~= tables_map(s).remove(m));
}

} // verus!
