use badger_core::codec::{decode_changes, encode_changes, make_header};
use badger_core::errors::Error;
use badger_core::manifest::{
    apply_manifest_change, apply_manifest_change_set, Manifest, ManifestChange,
    ManifestChangeBuilder, Operation,
};
use badger_core::manifest_file::{AddOutcome, ManifestFile};

fn create(id: u64, level: u32) -> ManifestChange {
    ManifestChangeBuilder::new(id).with_level(level).with_op(Operation::CREATE).build()
}

fn delete(id: u64, level: u32) -> ManifestChange {
    ManifestChangeBuilder::new(id).with_level(level).with_op(Operation::DELETE).build()
}

const DEFAULT_THRESHOLD: u32 = 10000;

#[test]
fn open_empty_then_one_create() {
    // scenario: open a fresh manifest, add CREATE(1,0), close, reopen
    let mut f = ManifestFile::create(DEFAULT_THRESHOLD);
    f.add_changes(&vec![create(1, 0)]).unwrap();
    let bytes = f.data.clone();
    let (g, off) = ManifestFile::open(bytes, DEFAULT_THRESHOLD).unwrap();
    assert_eq!(off, f.data.len());
    assert_eq!(g.manifest.table_level(1), Some(0));
    assert_eq!(g.manifest.creations(), 1);
    assert_eq!(g.manifest.deletions(), 0);
    assert_eq!(g.manifest.table_count(), 1);
}

#[test]
fn delete_then_create_another() {
    // scenario: CREATE(1,0), then one batch of DELETE(1,0), CREATE(2,1)
    let mut f = ManifestFile::create(DEFAULT_THRESHOLD);
    f.add_changes(&vec![create(1, 0)]).unwrap();
    f.add_changes(&vec![delete(1, 0), create(2, 1)]).unwrap();
    let (g, _off) = ManifestFile::open(f.data.clone(), DEFAULT_THRESHOLD).unwrap();
    assert_eq!(g.manifest.table_level(1), None);
    assert_eq!(g.manifest.table_level(2), Some(1));
    assert_eq!(g.manifest.creations(), 2);
    assert_eq!(g.manifest.deletions(), 1);
    assert_eq!(g.manifest.table_count(), 1);
}

#[test]
fn rewrite_heuristic_compacts() {
    // scenario: threshold 1; the second delete trips the heuristic and the
    // log is rewritten; the last create is appended as one record
    let mut f = ManifestFile::create(1);
    assert_eq!(f.add_changes(&vec![create(1, 0)]).unwrap(), AddOutcome::Appended);
    assert_eq!(f.add_changes(&vec![create(2, 0)]).unwrap(), AddOutcome::Appended);
    assert_eq!(f.add_changes(&vec![delete(1, 0)]).unwrap(), AddOutcome::Appended);
    assert_eq!(f.add_changes(&vec![delete(2, 0)]).unwrap(), AddOutcome::Rewritten);
    assert_eq!(f.add_changes(&vec![create(3, 0)]).unwrap(), AddOutcome::Appended);

    assert_eq!(f.manifest.creations(), 1);
    assert_eq!(f.manifest.deletions(), 0);
    assert_eq!(f.manifest.table_level(3), Some(0));
    assert_eq!(f.manifest.table_count(), 1);

    // the file is the rewritten snapshot of the then-empty state followed
    // by exactly one record holding CREATE(3,0)
    let mut expected = make_header();
    let empty_payload = encode_changes(&vec![]);
    push_record(&mut expected, &empty_payload);
    let last_payload = encode_changes(&vec![create(3, 0)]);
    push_record(&mut expected, &last_payload);
    assert_eq!(f.data, expected);

    let (g, _off) = ManifestFile::open(f.data.clone(), 1).unwrap();
    assert_eq!(g.manifest.table_level(3), Some(0));
    assert_eq!(g.manifest.creations(), 1);
    assert_eq!(g.manifest.deletions(), 0);
}

fn push_record(out: &mut Vec<u8>, payload: &Vec<u8>) {
    let len = payload.len() as u32;
    out.extend_from_slice(&len.to_be_bytes());
    out.extend_from_slice(&crc32fast::hash(payload).to_be_bytes());
    out.extend_from_slice(payload);
}

#[test]
fn torn_tail_is_truncated() {
    // scenario: the two-record file with its final 3 bytes cut; reopening
    // recovers the state before the torn record and appends cleanly
    let mut f = ManifestFile::create(DEFAULT_THRESHOLD);
    f.add_changes(&vec![create(1, 0)]).unwrap();
    let keep = f.data.len();
    f.add_changes(&vec![delete(1, 0), create(2, 1)]).unwrap();
    let mut bytes = f.data.clone();
    bytes.truncate(bytes.len() - 3);
    let (mut g, off) = ManifestFile::open(bytes, DEFAULT_THRESHOLD).unwrap();
    assert_eq!(off, keep);
    assert_eq!(g.manifest.table_level(1), Some(0));
    assert_eq!(g.manifest.table_level(2), None);
    assert_eq!(g.manifest.creations(), 1);
    assert_eq!(g.manifest.deletions(), 0);
    g.add_changes(&vec![create(5, 2)]).unwrap();
    assert_eq!(g.data.len(), keep + 8 + 13);
    let (h, _) = ManifestFile::open(g.data.clone(), DEFAULT_THRESHOLD).unwrap();
    assert_eq!(h.manifest.table_level(5), Some(2));
}

#[test]
fn every_partial_cut_of_last_record_recovers() {
    let mut f = ManifestFile::create(DEFAULT_THRESHOLD);
    f.add_changes(&vec![create(1, 0)]).unwrap();
    let keep = f.data.len();
    f.add_changes(&vec![create(2, 3)]).unwrap();
    let last_record_len = f.data.len() - keep;
    for k in 1..=last_record_len {
        let mut bytes = f.data.clone();
        bytes.truncate(f.data.len() - k);
        let (g, off) = ManifestFile::open(bytes, DEFAULT_THRESHOLD).unwrap();
        assert_eq!(off, keep);
        assert_eq!(g.manifest.table_level(1), Some(0));
        assert_eq!(g.manifest.table_level(2), None);
    }
}

#[test]
fn corrupt_payload_hides_record_and_tail() {
    // flipping any byte of a record's payload makes that record and all
    // following records invisible to replay
    let mut f = ManifestFile::create(DEFAULT_THRESHOLD);
    f.add_changes(&vec![create(1, 0)]).unwrap();
    let keep = f.data.len();
    f.add_changes(&vec![create(2, 0)]).unwrap();
    let payload_start = keep + 8;
    let payload_end = f.data.len();
    f.add_changes(&vec![create(3, 0)]).unwrap();
    for pos in payload_start..payload_end {
        let mut bytes = f.data.clone();
        bytes[pos] ^= 0x5a;
        let (g, off) = ManifestFile::open(bytes, DEFAULT_THRESHOLD).unwrap();
        assert_eq!(off, keep);
        assert_eq!(g.manifest.table_level(1), Some(0));
        assert_eq!(g.manifest.table_level(2), None);
        assert_eq!(g.manifest.table_level(3), None);
    }
}

#[test]
fn manifest_round_trip_after_rewrite() {
    // replay(write(snapshot(state))) recovers the state
    let mut f = ManifestFile::create(DEFAULT_THRESHOLD);
    f.add_changes(&vec![create(7, 0), create(3, 2), create(9, 1)]).unwrap();
    f.add_changes(&vec![delete(3, 2)]).unwrap();
    f.rewrite();
    assert_eq!(f.manifest.creations(), 2);
    assert_eq!(f.manifest.deletions(), 0);
    let (g, off) = ManifestFile::open(f.data.clone(), DEFAULT_THRESHOLD).unwrap();
    assert_eq!(off, f.data.len());
    assert_eq!(g.manifest.table_level(7), Some(0));
    assert_eq!(g.manifest.table_level(9), Some(1));
    assert_eq!(g.manifest.table_level(3), None);
    assert_eq!(g.manifest.creations(), 2);
    assert_eq!(g.manifest.deletions(), 0);
}

#[test]
fn rewrite_is_idempotent() {
    let mut f = ManifestFile::create(DEFAULT_THRESHOLD);
    f.add_changes(&vec![create(4, 0), create(2, 1), create(6, 0)]).unwrap();
    f.rewrite();
    let first = f.data.clone();
    f.rewrite();
    assert_eq!(f.data, first);
}

#[test]
fn snapshot_changes_sorted_by_id() {
    let mut m = Manifest::new();
    apply_manifest_change(&mut m, &create(9, 0)).unwrap();
    apply_manifest_change(&mut m, &create(1, 2)).unwrap();
    apply_manifest_change(&mut m, &create(5, 1)).unwrap();
    let cs = m.as_changes();
    let ids: Vec<u64> = cs.iter().map(|c| c.id).collect();
    assert_eq!(ids, vec![1, 5, 9]);
    for c in cs.iter() {
        assert_eq!(c.op, Operation::CREATE);
    }
    // per-level id sets, for compaction to discover live tables
    assert_eq!(m.level_tables(0).unwrap().tables(), &vec![9]);
    assert_eq!(m.level_tables(1).unwrap().tables(), &vec![5]);
    assert_eq!(m.level_tables(2).unwrap().tables(), &vec![1]);
    assert!(m.level_tables(3).is_none());
}

#[test]
fn replay_reports_truncation_offset() {
    let mut f = ManifestFile::create(DEFAULT_THRESHOLD);
    f.add_changes(&vec![create(1, 0)]).unwrap();
    let (m, off) = Manifest::replay_manifest_file(&f.data).unwrap();
    assert_eq!(off, f.data.len());
    assert_eq!(m.table_level(1), Some(0));
}

#[test]
fn apply_rejects_corruption() {
    let mut m = Manifest::new();
    apply_manifest_change(&mut m, &create(1, 0)).unwrap();
    assert_eq!(apply_manifest_change(&mut m, &create(1, 0)), Err(Error::TableExists(1)));
    assert_eq!(apply_manifest_change(&mut m, &delete(2, 0)), Err(Error::TableAbsent(2)));
    assert_eq!(apply_manifest_change(&mut m, &delete(1, 5)), Err(Error::LevelMismatch(1)));
    assert_eq!(apply_manifest_change(&mut m, &create(3, 300)), Err(Error::LevelTooLarge(3)));
    // the state did not move
    assert_eq!(m.creations(), 1);
    assert_eq!(m.deletions(), 0);
    assert_eq!(m.table_level(1), Some(0));
}

#[test]
fn batch_is_all_or_nothing() {
    let mut m = Manifest::new();
    apply_manifest_change(&mut m, &create(1, 0)).unwrap();
    let r = apply_manifest_change_set(&mut m, &vec![create(2, 0), create(2, 0)]);
    assert_eq!(r, Err(Error::TableExists(2)));
    assert_eq!(m.table_level(2), None);
    assert_eq!(m.creations(), 1);
    // a batch may delete and recreate the same id
    apply_manifest_change_set(&mut m, &vec![delete(1, 0), create(1, 3)]).unwrap();
    assert_eq!(m.table_level(1), Some(3));
    assert_eq!(m.creations(), 2);
    assert_eq!(m.deletions(), 1);
}

#[test]
fn bad_header_fails_open() {
    assert_eq!(
        ManifestFile::open(vec![1, 2, 3], DEFAULT_THRESHOLD).map(|_| ()),
        Err(Error::BadMagic)
    );
    let mut wrong_magic = b"xdgr".to_vec();
    wrong_magic.extend_from_slice(&2u32.to_be_bytes());
    assert_eq!(
        ManifestFile::open(wrong_magic, DEFAULT_THRESHOLD).map(|_| ()),
        Err(Error::BadMagic)
    );
    let mut wrong_version = b"bdgr".to_vec();
    wrong_version.extend_from_slice(&3u32.to_be_bytes());
    assert_eq!(
        ManifestFile::open(wrong_version, DEFAULT_THRESHOLD).map(|_| ()),
        Err(Error::BadVersion)
    );
}

#[test]
fn replay_propagates_invariant_violation() {
    // a decodable record whose changes cannot be applied is fatal
    let mut f = ManifestFile::create(DEFAULT_THRESHOLD);
    f.add_changes(&vec![create(1, 0)]).unwrap();
    let mut bytes = f.data.clone();
    let payload = encode_changes(&vec![create(1, 0)]);
    push_record(&mut bytes, &payload);
    assert_eq!(
        ManifestFile::open(bytes, DEFAULT_THRESHOLD).map(|_| ()),
        Err(Error::TableExists(1))
    );
}

#[test]
fn change_codec_round_trip() {
    let cs = vec![create(1, 0), delete(7, 3), create(u64::MAX, 255)];
    let payload = encode_changes(&cs);
    assert_eq!(payload.len(), 13 * cs.len());
    let back = decode_changes(&payload).unwrap();
    assert_eq!(back, cs);
    // a stray op byte refuses to decode
    let mut bad = payload.clone();
    bad[12] = 9;
    assert!(decode_changes(&bad).is_none());
    // a ragged payload refuses to decode
    let mut ragged = payload.clone();
    ragged.pop();
    assert!(decode_changes(&ragged).is_none());
}

#[test]
fn builder_defaults() {
    let c = ManifestChangeBuilder::new(42).build();
    assert_eq!(c.id, 42);
    assert_eq!(c.level, 0);
    assert_eq!(c.op, Operation::CREATE);
    let d = ManifestChangeBuilder::new(42).with_level(7).with_op(Operation::DELETE).build();
    assert_eq!(d.level, 7);
    assert_eq!(d.op, Operation::DELETE);
}

#[test]
fn error_descriptions() {
    assert!(Error::BadMagic.describe().contains("magic"));
    assert!(Error::CapacityExhausted.describe().contains("capacity"));
}
