//! The MANIFEST log as bytes: an 8-byte header, then framed change-set
//! records. Replay walks the records, stopping at the first torn or corrupt
//! one, and rebuilds the in-memory state; append and rewrite keep the byte
//! image and the state moving together. The caller performs the actual disk
//! writes; every byte it writes and every byte replay accepts is decided
//! here.

use vstd::prelude::*;

use crate::codec::{
    append_record, be32, crc32, crc32_of, decode_change_set, decode_changes, encode_change_set,
    encode_changes, header_bytes, lemma_be32_round_trip, lemma_change_set_round_trip,
    lemma_decode_len, lemma_encode_change_set_len, magic_bytes, make_header, read_u32_be,
    record_bytes, u32_be_bytes, CHANGE_SIZE, MAGIC_0, MAGIC_1, MAGIC_2, MAGIC_3, MAGIC_VERSION,
};
use crate::errors::Error;
use crate::manifest::{
    apply_manifest_change_set, empty_view, lemma_apply_set_counts, lemma_map_at, lemma_same_state,
    snapshot_changes, spec_apply_change_set, tables_map, tables_sorted, Manifest, ManifestChange,
    ManifestView, TableManifest,
};

verus! {

/// What replay makes of the bytes from `pos` on, given state `v` so far:
/// the final state and the offset just past the last whole, checksummed,
/// decodable record — or the error of a change set that decoded but cannot
/// be applied.
pub open spec fn spec_replay_records(s: Seq<u8>, pos: int, v: ManifestView) -> Result<
    (ManifestView, int),
    Error,
>
    decreases s.len() - pos,
{
    if pos < 0 || pos + 8 > s.len() {
        Ok((v, pos))
    } else {
        let sz = be32(s.subrange(pos, pos + 4)) as int;
        let crc = be32(s.subrange(pos + 4, pos + 8));
        if pos + 8 + sz > s.len() {
            Ok((v, pos))
        } else {
            let payload = s.subrange(pos + 8, pos + 8 + sz);
            if crc != crc32_of(payload) {
                Ok((v, pos))
            } else {
                match decode_change_set(payload) {
                    None => Ok((v, pos)),
                    Some(cs) => match spec_apply_change_set(v, cs) {
                        Err(e) => Err(e),
                        Ok(v2) => spec_replay_records(s, pos + 8 + sz, v2),
                    },
                }
            }
        }
    }
}

/// What replay makes of a whole file image: header errors are fatal, then
/// the records decide the state and the truncation offset.
pub open spec fn spec_replay(s: Seq<u8>) -> Result<(ManifestView, int), Error> {
    if s.len() < 8 {
        Err(Error::BadMagic)
    } else if s.subrange(0, 4) != magic_bytes() {
        Err(Error::BadMagic)
    } else if be32(s.subrange(4, 8)) != MAGIC_VERSION {
        Err(Error::BadVersion)
    } else {
        spec_replay_records(s, 8, empty_view())
    }
}

/// The bytes a rewrite produces: the header and one record holding a CREATE
/// per live table, ascending by id.
pub open spec fn spec_rewrite_image(tables: Seq<(u64, TableManifest)>) -> Seq<u8> {
    header_bytes() + record_bytes(encode_change_set(snapshot_changes(tables)))
}

/// Replay accepts a stop offset no earlier than where it started and no
/// later than the end, and counters stay within a thirteenth of the bytes
/// it consumed.
pub proof fn lemma_replay_records_counts(
    s: Seq<u8>,
    pos: int,
    v: ManifestView,
    v1: ManifestView,
    off: int,
)
    requires
        0 <= pos <= s.len(),
        spec_replay_records(s, pos, v) == Ok::<(ManifestView, int), Error>((v1, off)),
    ensures
        pos <= off <= s.len(),
        13 * (v1.creations + v1.deletions) <= 13 * (v.creations + v.deletions) + (off - pos),
    decreases s.len() - pos,
{
    if pos + 8 > s.len() {
    } else {
        let sz = be32(s.subrange(pos, pos + 4)) as int;
        if pos + 8 + sz > s.len() {
        } else {
            let payload = s.subrange(pos + 8, pos + 8 + sz);
            if be32(s.subrange(pos + 4, pos + 8)) != crc32_of(payload) {
            } else {
                match decode_change_set(payload) {
                    None => {},
                    Some(cs) => {
                        lemma_decode_len(payload);
                        lemma_apply_set_counts(v, cs);
                        match spec_apply_change_set(v, cs) {
                            Err(_e) => {},
                            Ok(v2) => {
                                lemma_replay_records_counts(s, pos + 8 + sz, v2, v1, off);
                            },
                        }
                    },
                }
            }
        }
    }
}

/// Extending a fully replayed image makes replay carry on at the old end,
/// in the state the old image produced.
pub proof fn lemma_replay_records_extend(
    s: Seq<u8>,
    ext: Seq<u8>,
    pos: int,
    v: ManifestView,
    v1: ManifestView,
)
    requires
        0 <= pos <= s.len(),
        spec_replay_records(s, pos, v) == Ok::<(ManifestView, int), Error>((v1, s.len() as int)),
    ensures
        spec_replay_records(s + ext, pos, v) == spec_replay_records(s + ext, s.len() as int, v1),
    decreases s.len() - pos,
{
    let t = s + ext;
    if pos + 8 > s.len() {
        assert(pos == s.len() && v == v1);
    } else {
        assert(t.subrange(pos, pos + 4) =~= s.subrange(pos, pos + 4));
        assert(t.subrange(pos + 4, pos + 8) =~= s.subrange(pos + 4, pos + 8));
        let sz = be32(s.subrange(pos, pos + 4)) as int;
        if pos + 8 + sz > s.len() {
            assert(false);
        } else {
            let payload = s.subrange(pos + 8, pos + 8 + sz);
            assert(t.subrange(pos + 8, pos + 8 + sz) =~= payload);
            if be32(s.subrange(pos + 4, pos + 8)) != crc32_of(payload) {
                assert(false);
            } else {
                match decode_change_set(payload) {
                    None => {
                        assert(false);
                    },
                    Some(cs) => {
                        match spec_apply_change_set(v, cs) {
                            Err(_e) => {
                                assert(false);
                            },
                            Ok(v2) => {
                                lemma_replay_records_extend(s, ext, pos + 8 + sz, v2, v1);
                            },
                        }
                    },
                }
            }
        }
    }
}

/// Cutting an image at the offset replay stopped at leaves replay's result
/// unchanged.
pub proof fn lemma_replay_records_take(
    s: Seq<u8>,
    pos: int,
    v: ManifestView,
    v1: ManifestView,
    off: int,
)
    requires
        0 <= pos <= s.len(),
        spec_replay_records(s, pos, v) == Ok::<(ManifestView, int), Error>((v1, off)),
    ensures
        pos <= off <= s.len(),
        spec_replay_records(s.take(off), pos, v) == Ok::<(ManifestView, int), Error>((v1, off)),
    decreases s.len() - pos,
{
    lemma_replay_records_counts(s, pos, v, v1, off);
    let t = s.take(off);
    if pos + 8 > s.len() {
    } else {
        let sz = be32(s.subrange(pos, pos + 4)) as int;
        if pos + 8 + sz > s.len() {
        } else {
            let payload = s.subrange(pos + 8, pos + 8 + sz);
            if be32(s.subrange(pos + 4, pos + 8)) != crc32_of(payload) {
            } else {
                match decode_change_set(payload) {
                    None => {},
                    Some(cs) => {
                        match spec_apply_change_set(v, cs) {
                            Err(_e) => {},
                            Ok(v2) => {
                                lemma_replay_records_take(s, pos + 8 + sz, v2, v1, off);
                                assert(pos + 8 + sz <= off);
                                assert(t.subrange(pos, pos + 4) =~= s.subrange(pos, pos + 4));
                                assert(t.subrange(pos + 4, pos + 8) =~= s.subrange(
                                    pos + 4,
                                    pos + 8,
                                ));
                                assert(t.subrange(pos + 8, pos + 8 + sz) =~= payload);
                            },
                        }
                    },
                }
            }
        }
    }
}

/// Extending a fully replayed file makes replay of the whole carry on at
/// the old end.
pub proof fn lemma_replay_extend(s: Seq<u8>, ext: Seq<u8>, v1: ManifestView)
    requires
        spec_replay(s) == Ok::<(ManifestView, int), Error>((v1, s.len() as int)),
    ensures
        spec_replay(s + ext) == spec_replay_records(s + ext, s.len() as int, v1),
{
    assert((s + ext).subrange(0, 4) =~= s.subrange(0, 4));
    assert((s + ext).subrange(4, 8) =~= s.subrange(4, 8));
    lemma_replay_records_extend(s, ext, 8, empty_view(), v1);
}

/// A fully valid image followed by one more record that applies cleanly
/// replays to the state after that record, consuming everything.
pub proof fn lemma_replay_append_record(
    s: Seq<u8>,
    v1: ManifestView,
    cs: Seq<ManifestChange>,
    v2: ManifestView,
)
    requires
        spec_replay(s) == Ok::<(ManifestView, int), Error>((v1, s.len() as int)),
        spec_apply_change_set(v1, cs) == Ok::<ManifestView, Error>(v2),
        CHANGE_SIZE * cs.len() <= u32::MAX,
    ensures
        spec_replay(s + record_bytes(encode_change_set(cs))) == Ok::<(ManifestView, int), Error>(
            (v2, s.len() + record_bytes(encode_change_set(cs)).len() as int),
        ),
{
    let payload = encode_change_set(cs);
    lemma_encode_change_set_len(cs);
    let rec = record_bytes(payload);
    let t = s + rec;
    let pos = s.len() as int;
    lemma_replay_extend(s, rec, v1);
    assert(t.subrange(pos, pos + 4) =~= u32_be_bytes(payload.len() as u32));
    assert(t.subrange(pos + 4, pos + 8) =~= u32_be_bytes(crc32_of(payload)));
    lemma_be32_round_trip(payload.len() as u32);
    lemma_be32_round_trip(crc32_of(payload));
    assert(t.subrange(pos + 8, pos + 8 + payload.len()) =~= payload);
    lemma_change_set_round_trip(cs);
    assert(spec_replay_records(t, pos, v1) == spec_replay_records(
        t,
        pos + 8 + payload.len(),
        v2,
    ));
    assert(pos + 8 + payload.len() == t.len());
}

/// A sorted snapshot applied to the empty state rebuilds exactly the
/// snapshot's table map, with as many creations as tables and no deletions.
pub proof fn lemma_apply_snapshot(tables: Seq<(u64, TableManifest)>)
    requires
        tables_sorted(tables),
    ensures
        spec_apply_change_set(empty_view(), snapshot_changes(tables)) == Ok::<
            ManifestView,
            Error,
        >(
            ManifestView {
                tables: tables_map(tables),
                creations: tables.len() as nat,
                deletions: 0,
            },
        ),
    decreases tables.len(),
{
    if tables.len() == 0 {
        assert(tables_map(tables) =~= Map::<u64, u8>::empty());
        assert(snapshot_changes(tables) =~= Seq::<ManifestChange>::empty());
    } else {
        let front = tables.drop_last();
        let e = tables.last();
        assert(tables_sorted(front));
        lemma_apply_snapshot(front);
        let c = ManifestChange { id: e.0, level: e.1.level as u32, op: crate::manifest::Operation::CREATE };
        assert(snapshot_changes(tables) =~= snapshot_changes(front).push(c));
        crate::manifest::lemma_apply_set_push(empty_view(), snapshot_changes(front), c);
        let mid = ManifestView {
            tables: tables_map(front),
            creations: front.len() as nat,
            deletions: 0,
        };
        // The new id is larger than every id in the front, so it is fresh.
        assert(!tables_map(front).contains_key(e.0)) by {
            if tables_map(front).contains_key(e.0) {
                let i = crate::manifest::idx_of_id(front, e.0);
                assert(0 <= i < front.len() && front[i].0 == e.0);
                assert(tables[i].0 < tables[tables.len() - 1].0);
            }
        }
        assert(tables_map(tables) =~= tables_map(front).insert(e.0, e.1.level)) by {
            assert forall|k: u64|
                crate::manifest::has_id(tables, k) <==> (crate::manifest::has_id(front, k) || k
                    == e.0) by {
                if crate::manifest::has_id(tables, k) {
                    let i = crate::manifest::idx_of_id(tables, k);
                    if i < tables.len() - 1 {
                        assert(front[i].0 == k);
                        assert(crate::manifest::has_id(front, k));
                    }
                }
                if crate::manifest::has_id(front, k) {
                    let i = crate::manifest::idx_of_id(front, k);
                    assert(tables[i].0 == k);
                    assert(crate::manifest::has_id(tables, k));
                }
                if k == e.0 {
                    assert(tables[tables.len() - 1].0 == k);
                    assert(crate::manifest::has_id(tables, k));
                }
            }
            assert forall|k: u64| tables_map(tables).contains_key(k) implies #[trigger] tables_map(
                tables,
            )[k] == tables_map(front).insert(e.0, e.1.level)[k] by {
                if k == e.0 {
                    lemma_map_at(tables, tables.len() - 1);
                } else {
                    let i = crate::manifest::idx_of_id(front, k);
                    assert(front[i].0 == k);
                    assert(tables[i] == front[i]);
                    lemma_map_at(tables, i);
                    lemma_map_at(front, i);
                }
            }
        }
    }
}

/// A rewrite image replays completely, to the snapshot state it encodes.
pub proof fn lemma_replay_rewrite_image(tables: Seq<(u64, TableManifest)>)
    requires
        tables_sorted(tables),
        CHANGE_SIZE * tables.len() <= u32::MAX,
    ensures
        spec_replay(spec_rewrite_image(tables)) == Ok::<(ManifestView, int), Error>(
            (
                ManifestView {
                    tables: tables_map(tables),
                    creations: tables.len() as nat,
                    deletions: 0,
                },
                spec_rewrite_image(tables).len() as int,
            ),
        ),
{
    let cs = snapshot_changes(tables);
    let payload = encode_change_set(cs);
    lemma_encode_change_set_len(cs);
    let img = spec_rewrite_image(tables);
    let rec = record_bytes(payload);
    assert(img.len() == 16 + payload.len());
    assert(img.subrange(0, 4) =~= magic_bytes());
    assert(img.subrange(4, 8) =~= u32_be_bytes(MAGIC_VERSION));
    lemma_be32_round_trip(MAGIC_VERSION);
    assert(img.subrange(8, 12) =~= u32_be_bytes(payload.len() as u32));
    assert(img.subrange(12, 16) =~= u32_be_bytes(crc32_of(payload)));
    lemma_be32_round_trip(payload.len() as u32);
    lemma_be32_round_trip(crc32_of(payload));
    assert(img.subrange(16, 16 + payload.len() as int) =~= payload);
    lemma_change_set_round_trip(cs);
    lemma_apply_snapshot(tables);
    let target = ManifestView {
        tables: tables_map(tables),
        creations: tables.len() as nat,
        deletions: 0,
    };
    assert(spec_replay_records(img, 8, empty_view()) == spec_replay_records(
        img,
        16 + payload.len() as int,
        target,
    ));
}

/// Copies `n` bytes starting at `start` into a fresh vector.
fn copy_range(s: &Vec<u8>, start: usize, n: usize) -> (r: Vec<u8>)
    requires
        start + n <= s.len(),
    ensures
        r@ == s@.subrange(start as int, start + n),
{
    let mut out: Vec<u8> = Vec::new();
    let mut i: usize = 0;
    while i < n
        invariant
            i <= n,
            start + n <= s.len(),
            out@ == s@.subrange(start as int, start + i),
        decreases n - i,
    {
        out.push(s[start + i]);
        proof {
            assert(s@.subrange(start as int, start + i + 1) =~= s@.subrange(
                start as int,
                start + i,
            ).push(s@[start + i]));
        }
        i = i + 1;
    }
    out
}

impl Manifest {
    /// Replays a MANIFEST image: checks the header, walks the records until
    /// the first torn or corrupt one, and returns the state together with
    /// the offset the file must be truncated to before further appends.
    pub fn replay_manifest_file(data: &Vec<u8>) -> (r: Result<(Manifest, usize), Error>)
        ensures
            match r {
                Ok((m, off)) => m.wf() && spec_replay(data@) == Ok::<(ManifestView, int), Error>(
                    (m@, off as int),
                ) && 8 <= off <= data@.len(),
                Err(e) => spec_replay(data@) == Err::<(ManifestView, int), Error>(e),
            },
    {
        if data.len() < 8 {
            return Err(Error::BadMagic);
        }
        if !(data[0] == MAGIC_0 && data[1] == MAGIC_1 && data[2] == MAGIC_2 && data[3]
            == MAGIC_3) {
            proof {
                let sub = data@.subrange(0, 4);
                assert(sub[0] == data@[0] && sub[1] == data@[1] && sub[2] == data@[2] && sub[3]
                    == data@[3]);
                assert(sub != magic_bytes());
            }
            return Err(Error::BadMagic);
        }
        proof {
            assert(data@.subrange(0, 4) =~= magic_bytes());
        }
        let ver = read_u32_be(data, 4);
        if ver != MAGIC_VERSION {
            return Err(Error::BadVersion);
        }
        let mut m = Manifest::new();
        let mut pos: usize = 8;
        proof {
            assert(m@ =~= empty_view());
        }
        while pos <= data.len() - 8
            invariant
                8 <= pos <= data.len(),
                data.len() >= 8,
                m.wf(),
                13 * (m.creations + m.deletions) + 8 <= pos,
                spec_replay(data@) == spec_replay_records(data@, pos as int, m@),
            decreases data.len() - pos,
        {
            let sz = read_u32_be(data, pos);
            let crc = read_u32_be(data, pos + 4);
            if (sz as usize) > data.len() - pos - 8 {
                return Ok((m, pos));
            }
            let payload = copy_range(data, pos + 8, sz as usize);
            let actual = crc32(payload.as_slice());
            if actual != crc {
                return Ok((m, pos));
            }
            match decode_changes(&payload) {
                None => {
                    return Ok((m, pos));
                },
                Some(cs) => {
                    proof {
                        lemma_decode_len(payload@);
                        assert(13 * cs@.len() == sz as int);
                    }
                    let ghost pre = m@;
                    match apply_manifest_change_set(&mut m, &cs) {
                        Err(e) => {
                            return Err(e);
                        },
                        Ok(()) => {
                            proof {
                                lemma_apply_set_counts(pre, cs@);
                            }
                            pos = pos + 8 + sz as usize;
                        },
                    }
                },
            }
        }
        Ok((m, pos))
    }
}

/// What one call of add_changes did to the file: appended one record, or
/// rewrote the whole image from a snapshot.
#[derive(Clone, Copy, Debug, PartialEq, Eq, Structural)]
pub enum AddOutcome {
    Appended,
    Rewritten,
}

/// When the log is rewritten rather than appended to: enough deletions to
/// care, and ten times more than the live tables that remain.
pub open spec fn spec_needs_rewrite(v: ManifestView, threshold: u32) -> bool {
    v.deletions > threshold && v.deletions > 10 * (v.creations - v.deletions)
}

/// The MANIFEST file: the in-memory state, the rewrite threshold, and the
/// byte image whose replay always yields exactly that state.
pub struct ManifestFile {
    pub manifest: Manifest,
    pub deletions_rewrite_threshold: u32,
    pub data: Vec<u8>,
}

impl ManifestFile {
    /// The file image and the state never drift apart: replaying the image
    /// rebuilds the state and consumes every byte.
    pub open spec fn wf(self) -> bool {
        &&& self.manifest.wf()
        &&& spec_replay(self.data@) == Ok::<(ManifestView, int), Error>(
            (self.manifest@, self.data@.len() as int),
        )
    }

    /// A fresh manifest file: empty state over one empty snapshot record.
    pub fn create(deletions_rewrite_threshold: u32) -> (r: ManifestFile)
        ensures
            r.wf(),
            r.manifest@ == empty_view(),
            r.manifest.tables@.len() == 0,
            r.data@ == spec_rewrite_image(Seq::<(u64, TableManifest)>::empty()),
            r.deletions_rewrite_threshold == deletions_rewrite_threshold,
    {
        let manifest = Manifest::new();
        let data = build_rewrite_image(&manifest);
        proof {
            lemma_replay_rewrite_image(manifest.tables@);
            assert(manifest@.tables =~= tables_map(manifest.tables@));
            assert(manifest@ =~= empty_view());
        }
        ManifestFile { manifest, deletions_rewrite_threshold, data }
    }

    /// Opens an existing image: replays it and keeps only the bytes up to
    /// the last whole record. Returns the offset the on-disk file must be
    /// truncated to.
    pub fn open(data: Vec<u8>, deletions_rewrite_threshold: u32) -> (r: Result<
        (ManifestFile, usize),
        Error,
    >)
        ensures
            match r {
                Ok((f, off)) => {
                    &&& f.wf()
                    &&& spec_replay(data@) == Ok::<(ManifestView, int), Error>(
                        (f.manifest@, off as int),
                    )
                    &&& f.data@ == data@.take(off as int)
                    &&& off <= data@.len()
                    &&& f.deletions_rewrite_threshold == deletions_rewrite_threshold
                },
                Err(e) => spec_replay(data@) == Err::<(ManifestView, int), Error>(e),
            },
    {
        match Manifest::replay_manifest_file(&data) {
            Err(e) => Err(e),
            Ok((manifest, off)) => {
                let mut d = data;
                proof {
                    lemma_replay_records_take(d@, 8, empty_view(), manifest@, off as int);
                    assert(d@.take(off as int).subrange(0, 4) =~= d@.subrange(0, 4));
                    assert(d@.take(off as int).subrange(4, 8) =~= d@.subrange(4, 8));
                    assert(d@.take(off as int).len() == off as int);
                }
                d.truncate(off);
                Ok(
                    (
                        ManifestFile { manifest, deletions_rewrite_threshold, data: d },
                        off,
                    ),
                )
            },
        }
    }

    /// Applies a batch of changes atomically to the state and the image:
    /// on a corrupt batch nothing moves; otherwise the image either gains
    /// one record holding exactly this batch, or, when the deletion
    /// heuristic fires, is rewritten from a snapshot of the live tables.
    pub fn add_changes(&mut self, changes: &Vec<ManifestChange>) -> (r: Result<
        AddOutcome,
        Error,
    >)
        requires
            old(self).wf(),
            old(self).data@.len() + 8 + CHANGE_SIZE * changes@.len() <= usize::MAX,
            CHANGE_SIZE * (old(self).manifest.tables@.len() + changes@.len()) <= u32::MAX,
        ensures
            final(self).wf(),
            final(self).deletions_rewrite_threshold == old(self).deletions_rewrite_threshold,
            match r {
                Ok(outcome) => {
                    &&& spec_apply_change_set(old(self).manifest@, changes@) is Ok
                    &&& {
                        let av = spec_apply_change_set(
                            old(self).manifest@,
                            changes@,
                        ).unwrap();
                        match outcome {
                            AddOutcome::Appended => {
                                &&& !spec_needs_rewrite(
                                    av,
                                    old(self).deletions_rewrite_threshold,
                                )
                                &&& final(self).manifest@ == av
                                &&& final(self).data@ == old(self).data@ + record_bytes(
                                    encode_change_set(changes@),
                                )
                            },
                            AddOutcome::Rewritten => {
                                &&& spec_needs_rewrite(
                                    av,
                                    old(self).deletions_rewrite_threshold,
                                )
                                &&& final(self).manifest@ == (ManifestView {
                                    tables: av.tables,
                                    creations: (av.creations - av.deletions) as nat,
                                    deletions: 0,
                                })
                                &&& final(self).data@ == spec_rewrite_image(
                                    final(self).manifest.tables@,
                                )
                            },
                        }
                    }
                },
                Err(e) => {
                    &&& spec_apply_change_set(old(self).manifest@, changes@) == Err::<
                        ManifestView,
                        Error,
                    >(e)
                    &&& final(self).data@ == old(self).data@
                    &&& final(self).manifest@ == old(self).manifest@
                },
            },
    {
        proof {
            lemma_replay_records_counts(
                self.data@,
                8,
                empty_view(),
                self.manifest@,
                self.data@.len() as int,
            );
        }
        let ghost pre = self.manifest@;
        match apply_manifest_change_set(&mut self.manifest, changes) {
            Err(e) => {
                proof {
                    lemma_same_state(self.manifest, old(self).manifest);
                }
                return Err(e);
            },
            Ok(()) => {},
        }
        proof {
            lemma_apply_set_counts(pre, changes@);
        }
        let rewrite = self.manifest.deletions() > self.deletions_rewrite_threshold as usize
            && self.manifest.deletions() > 10 * (self.manifest.creations()
            - self.manifest.deletions());
        if rewrite {
            self.rewrite_internal();
            Ok(AddOutcome::Rewritten)
        } else {
            let payload = encode_changes(changes);
            proof {
                lemma_encode_change_set_len(changes@);
            }
            append_record(&mut self.data, &payload);
            proof {
                lemma_replay_append_record(
                    old(self).data@,
                    pre,
                    changes@,
                    self.manifest@,
                );
            }
            Ok(AddOutcome::Appended)
        }
    }

    /// Replaces the image with a snapshot of the live tables: one record of
    /// CREATEs, creations reset to the live count, deletions to zero. The
    /// tables themselves do not change, so the image is a function of the
    /// live tables alone — rewriting twice in a row yields the same bytes.
    pub fn rewrite(&mut self)
        requires
            old(self).wf(),
            CHANGE_SIZE * old(self).manifest.tables@.len() <= u32::MAX,
        ensures
            final(self).wf(),
            final(self).deletions_rewrite_threshold == old(self).deletions_rewrite_threshold,
            final(self).manifest.tables@ == old(self).manifest.tables@,
            final(self).manifest@.tables == old(self).manifest@.tables,
            final(self).manifest@.creations == old(self).manifest.tables@.len(),
            final(self).manifest@.deletions == 0,
            final(self).data@ == spec_rewrite_image(old(self).manifest.tables@),
    {
        self.rewrite_internal();
    }

    /// The shared body of rewrite and the heuristic path of add_changes.
    fn rewrite_internal(&mut self)
        requires
            old(self).manifest.wf(),
            CHANGE_SIZE * old(self).manifest.tables@.len() <= u32::MAX,
        ensures
            final(self).wf(),
            final(self).deletions_rewrite_threshold == old(self).deletions_rewrite_threshold,
            final(self).manifest.tables@ == old(self).manifest.tables@,
            final(self).manifest@.tables == old(self).manifest@.tables,
            final(self).manifest@.creations == old(self).manifest.tables@.len(),
            final(self).manifest@.deletions == 0,
            final(self).data@ == spec_rewrite_image(old(self).manifest.tables@),
    {
        self.data = build_rewrite_image(&self.manifest);
        let n = self.manifest.table_count();
        self.manifest.creations = n;
        self.manifest.deletions = 0;
        proof {
            lemma_replay_rewrite_image(self.manifest.tables@);
            assert(self.manifest@.tables =~= old(self).manifest@.tables);
        }
    }
}

/// Builds the full rewrite image of a manifest's live tables.
fn build_rewrite_image(m: &Manifest) -> (r: Vec<u8>)
    requires
        tables_sorted(m.tables@),
        CHANGE_SIZE * m.tables@.len() <= u32::MAX,
    ensures
        r@ == spec_rewrite_image(m.tables@),
{
    let mut out = make_header();
    let cs = m.as_changes();
    let payload = encode_changes(&cs);
    proof {
        lemma_encode_change_set_len(cs@);
        assert(snapshot_changes(m.tables@).len() == m.tables@.len());
    }
    append_record(&mut out, &payload);
    out
}

/// Replaying a well-formed manifest file's bytes yields exactly its
/// in-memory state, with the truncation offset at the file's end: whatever
/// sequence of change sets built the file, close and reopen lose nothing.
pub proof fn lemma_replay_recovers_state(f: ManifestFile)
    requires
        f.wf(),
    ensures
        spec_replay(f.data@) == Ok::<(ManifestView, int), Error>(
            (f.manifest@, f.data@.len() as int),
        ),
{
}

/// Cutting up to a whole record off the tail of a valid image leaves replay
/// with the state before that record — no error, no panic, just a shorter
/// file.
pub proof fn lemma_truncated_tail(s: Seq<u8>, v: ManifestView, payload: Seq<u8>, k: int)
    requires
        spec_replay(s) == Ok::<(ManifestView, int), Error>((v, s.len() as int)),
        payload.len() <= u32::MAX,
        1 <= k <= 8 + payload.len(),
    ensures
        spec_replay((s + record_bytes(payload)).take(s.len() + 8 + payload.len() - k)) == Ok::<
            (ManifestView, int),
            Error,
        >((v, s.len() as int)),
{
    let rec = record_bytes(payload);
    let cut = rec.take(8 + payload.len() - k);
    let t = (s + rec).take(s.len() + 8 + payload.len() - k);
    assert(t =~= s + cut);
    lemma_replay_extend(s, cut, v);
    let pos = s.len() as int;
    if 8 + payload.len() - k < 8 {
        assert(spec_replay_records(t, pos, v) == Ok::<(ManifestView, int), Error>((v, pos)));
    } else {
        assert(t.subrange(pos, pos + 4) =~= u32_be_bytes(payload.len() as u32));
        lemma_be32_round_trip(payload.len() as u32);
        assert(pos + 8 + payload.len() > t.len());
        assert(spec_replay_records(t, pos, v) == Ok::<(ManifestView, int), Error>((v, pos)));
    }
}

/// A corrupted payload under the intact record's CRC hides that record
/// and everything after it: replay stops exactly at the end of the intact
/// prefix, whatever the corruption and whatever follows.
pub proof fn lemma_corrupt_record_hides_tail(
    s: Seq<u8>,
    v: ManifestView,
    payload: Seq<u8>,
    bad: Seq<u8>,
    rest: Seq<u8>,
)
    requires
        spec_replay(s) == Ok::<(ManifestView, int), Error>((v, s.len() as int)),
        payload.len() <= u32::MAX,
        bad.len() == payload.len(),
        crc32_of(bad) != crc32_of(payload),
    ensures
        spec_replay(
            s + (u32_be_bytes(payload.len() as u32) + u32_be_bytes(crc32_of(payload)) + bad)
                + rest,
        ) == Ok::<(ManifestView, int), Error>((v, s.len() as int)),
{
    let corrupted = u32_be_bytes(payload.len() as u32) + u32_be_bytes(crc32_of(payload)) + bad;
    let ext = corrupted + rest;
    let t0 = s + corrupted + rest;
    let t = s + ext;
    assert(t0 =~= t);
    lemma_replay_extend(s, ext, v);
    let pos = s.len() as int;
    assert(t.subrange(pos, pos + 4) =~= u32_be_bytes(payload.len() as u32));
    assert(t.subrange(pos + 4, pos + 8) =~= u32_be_bytes(crc32_of(payload)));
    lemma_be32_round_trip(payload.len() as u32);
    lemma_be32_round_trip(crc32_of(payload));
    assert(t.subrange(pos + 8, pos + 8 + payload.len()) =~= bad);
    assert(spec_replay_records(t, pos, v) == Ok::<(ManifestView, int), Error>((v, pos)));
}


/// Rewrite determinism: the snapshot is taken in ascending-id order, so the
/// image a rewrite produces is a function of the live-table map alone — two
/// states with the same live tables, such as one state before and after a
/// rewrite, produce identical file bytes.
pub proof fn lemma_rewrite_deterministic(a: Manifest, b: Manifest)
    requires
        a.wf(),
        b.wf(),
        a@.tables == b@.tables,
    ensures
        spec_rewrite_image(a.tables@) == spec_rewrite_image(b.tables@),
{
    crate::manifest::lemma_sorted_tables_unique(a.tables@, b.tables@);
}

} // verus!
