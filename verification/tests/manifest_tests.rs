use lsm_core::discard::DiscardStatsInner;
use lsm_core::errors::DBError;
use lsm_core::manifest::build_rewrite_bytes;
use lsm_core::manifest::decode_change_set;
use lsm_core::manifest::encode_change_set;
use lsm_core::manifest::replay_manifest_bytes;
use lsm_core::manifest::Manifest;
use lsm_core::manifest::ManifestChange;
use lsm_core::manifest::ManifestChangeSet;
use lsm_core::vlog::encode_entry;
use lsm_core::vlog::ValueLog;
use lsm_core::vlog::VlogConfig;
use lsm_core::vlog::WriteReq;
use lsm_core::kv::Entry;
use lsm_core::kv::TxnTs;
use lsm_core::kv::ValuePointer;

fn create(id: u64, level: u32) -> ManifestChange {
    ManifestChange { id, delete: false, level, key_id: 0, compression: 0 }
}

fn delete(id: u64, level: u32) -> ManifestChange {
    ManifestChange { id, delete: true, level, key_id: 0, compression: 0 }
}

#[test]
fn change_set_round_trip() {
    let set = ManifestChangeSet {
        changes: vec![create(1, 0), create(2, 1), delete(1, 0)],
    };
    let bytes = encode_change_set(&set);
    let back = decode_change_set(&bytes).unwrap();
    assert_eq!(back.changes, set.changes);
    assert!(decode_change_set(&bytes[..bytes.len() - 1]).is_none());
}

#[test]
fn apply_changes_tracks_tables() {
    let mut m = Manifest::new();
    m.apply_manifest_change(&create(1, 0)).unwrap();
    m.apply_manifest_change(&create(2, 1)).unwrap();
    assert_eq!(m.tables.len(), 2);
    assert_eq!(m.creations, 2);
    // A duplicate creation and a deletion of an unknown table both fail.
    assert_eq!(
        m.apply_manifest_change(&create(1, 0)).unwrap_err(),
        DBError::ManifestInvalidChange
    );
    assert_eq!(
        m.apply_manifest_change(&delete(9, 0)).unwrap_err(),
        DBError::ManifestInvalidChange
    );
    m.apply_manifest_change(&delete(1, 0)).unwrap();
    assert_eq!(m.tables.len(), 1);
    assert_eq!(m.deletions, 1);
}

#[test]
fn rewrite_then_replay_restores_state() {
    // Replaying a rewritten manifest yields the state that was written.
    let mut m = Manifest::new();
    m.apply_manifest_change(&create(11, 0)).unwrap();
    m.apply_manifest_change(&create(22, 1)).unwrap();
    m.apply_manifest_change(&create(33, 2)).unwrap();
    m.apply_manifest_change(&delete(22, 1)).unwrap();
    let (bytes, net) = build_rewrite_bytes(&m, 7).unwrap();
    assert_eq!(net, 2);
    let (replayed, offset) = replay_manifest_bytes(&bytes, 7).unwrap();
    assert_eq!(offset, bytes.len());
    assert_eq!(replayed.tables.len(), m.tables.len());
    for (a, b) in replayed.tables.iter().zip(m.tables.iter()) {
        assert_eq!(a.0, b.0);
        assert_eq!(a.1.level, b.1.level);
    }
}

#[test]
fn replay_rejects_bad_files() {
    let mut m = Manifest::new();
    m.apply_manifest_change(&create(11, 0)).unwrap();
    let (mut bytes, _) = build_rewrite_bytes(&m, 7).unwrap();
    assert_eq!(
        replay_manifest_bytes(&bytes, 9).unwrap_err(),
        DBError::ManifestVersionMismatch(7, 9)
    );
    assert_eq!(
        replay_manifest_bytes(b"Xdgr\0\0\0\x08", 0).unwrap_err(),
        DBError::ManifestBadMagic
    );
    assert_eq!(
        replay_manifest_bytes(b"Bd", 0).unwrap_err(),
        DBError::ManifestBadMagic
    );
    // Corrupt one payload byte: the record's checksum no longer matches.
    let last = bytes.len() - 1;
    bytes[last] ^= 0xFF;
    assert_eq!(
        replay_manifest_bytes(&bytes, 7).unwrap_err(),
        DBError::ChecksumMismatch
    );
    // A clean truncation before a whole record replays to the empty state.
    let (bytes2, _) = build_rewrite_bytes(&m, 7).unwrap();
    let (replayed, offset) = replay_manifest_bytes(&bytes2[..10], 7).unwrap();
    assert_eq!(offset, 8);
    assert_eq!(replayed.tables.len(), 0);
}

#[test]
fn discard_stats_update_cycle() {
    let mut d = DiscardStatsInner::new();
    assert_eq!(d.max_slot(), 65536);
    assert_eq!(d.update(7, 100).unwrap(), 100);
    assert_eq!(d.update(3, 50).unwrap(), 50);
    assert_eq!(d.update(7, 25).unwrap(), 125);
    assert_eq!(d.update(7, 0).unwrap(), 125);
    assert_eq!(d.update(3, -1).unwrap(), 0);
    assert_eq!(d.update(99, 0).unwrap(), 0);
    assert_eq!(d.update(99, -5).unwrap(), 0);
    assert_eq!(d.next_empty_slot, 2);
    // Slots stay sorted by fid: slot zero holds fid 3, slot one fid 7.
    assert_eq!(d.get(0), 3);
    assert_eq!(d.get(16), 7);
    assert_eq!(d.get(24), 125);
}

#[test]
fn vlog_record_round_trip() {
    let mut e = Entry::new(b"key".to_vec(), b"value-bytes".to_vec());
    e.set_version(TxnTs::new(42));
    let mut buf: Vec<u8> = Vec::new();
    let len = encode_entry(&mut buf, &e);
    assert_eq!(len, buf.len());
    let mut vlog = ValueLog::new(VlogConfig {
        vlog_file_size: 1 << 20,
        vlog_max_entries: 1000,
        value_threshold: 1,
    });
    let reqs = vec![WriteReq { entries_vptrs: vec![(e, ValuePointer::default())] }];
    let out = vlog.write(&reqs).unwrap();
    let (_, vptr) = &out[0].entries_vptrs[0];
    assert!(!vptr.is_empty());
    let back = vlog.read(vptr).unwrap();
    assert_eq!(back.key(), &b"key".to_vec());
    assert_eq!(back.version().to_u64(), 42);
    assert_eq!(back.value(), &b"value-bytes".to_vec());
    // A corrupted record fails its checksum.
    let mut broken = vlog;
    let off = vptr.offset as usize + 3;
    broken.files[0].data[off] ^= 0x55;
    assert_eq!(broken.read(vptr).unwrap_err(), DBError::ChecksumMismatch);
}

#[test]
fn vlog_small_values_skip_the_log() {
    let mut vlog = ValueLog::new(VlogConfig {
        vlog_file_size: 1 << 20,
        vlog_max_entries: 1000,
        value_threshold: 1024,
    });
    let e = Entry::new(b"k".to_vec(), b"small".to_vec());
    let reqs = vec![WriteReq { entries_vptrs: vec![(e, ValuePointer::default())] }];
    let out = vlog.write(&reqs).unwrap();
    assert!(out[0].entries_vptrs[0].1.is_empty());
    assert_eq!(vlog.writable_log_offset(), 0);
}
