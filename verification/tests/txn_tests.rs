use lsm_core::db::Db;
use lsm_core::db::DbOptions;
use lsm_core::errors::DBError;
use lsm_core::kv::ValuePointer;
use lsm_core::kv::META_VALUE_POINTER;
use lsm_core::txn::Txn;

fn options() -> DbOptions {
    DbOptions {
        max_batch_count: 10000,
        max_batch_size: 1 << 26,
        vlog_file_size: 1 << 26,
        vlog_max_entries: 1000000,
        value_threshold: 1 << 20,
        detect_conflicts: true,
        managed_txns: false,
        read_only: false,
        banned_prefixes: Vec::new(),
    }
}

#[test]
fn put_get_across_transactions() {
    // set("apple", "red") in one committed transaction; a later reader sees it.
    let mut db = Db::open(options());
    let mut a = Txn::new(&db, true, false);
    a.set(&db, b"apple".to_vec(), b"red".to_vec()).unwrap();
    a.commit(&mut db).unwrap();
    let mut b = Txn::new(&db, true, false);
    let (key_ts, vm) = b.get(&db, b"apple").unwrap();
    assert_eq!(key_ts.key(), &b"apple".to_vec());
    assert_eq!(db.resolve_value(&vm).unwrap(), b"red".to_vec());
}

#[test]
fn tombstone_visibility_by_snapshot() {
    // A reader whose snapshot predates the delete still sees the value; a
    // later reader gets KeyNotFound.
    let mut db = Db::open(options());
    let mut w1 = Txn::new(&db, true, false);
    w1.set(&db, b"k".to_vec(), b"v".to_vec()).unwrap();
    w1.commit(&mut db).unwrap();
    let mut mid = Txn::new(&db, true, false);
    let mut w2 = Txn::new(&db, true, false);
    w2.delete(&db, b"k".to_vec()).unwrap();
    w2.commit(&mut db).unwrap();
    let (_, vm) = mid.get(&db, b"k").unwrap();
    assert_eq!(db.resolve_value(&vm).unwrap(), b"v".to_vec());
    let mut late = Txn::new(&db, true, false);
    assert_eq!(late.get(&db, b"k").unwrap_err(), DBError::KeyNotFound);
}

#[test]
fn conflict_on_stale_read() {
    // T1 reads "k"; T2 commits a write of "k"; T1's commit must fail.
    let mut db = Db::open(options());
    let mut seed = Txn::new(&db, true, false);
    seed.set(&db, b"k".to_vec(), b"seed".to_vec()).unwrap();
    seed.commit(&mut db).unwrap();

    let mut t1 = Txn::new(&db, true, false);
    let _ = t1.get(&db, b"k").unwrap();
    let mut t2 = Txn::new(&db, true, false);
    t2.set(&db, b"k".to_vec(), b"x".to_vec()).unwrap();
    t2.commit(&mut db).unwrap();

    t1.set(&db, b"k".to_vec(), b"y".to_vec()).unwrap();
    assert_eq!(t1.commit(&mut db).unwrap_err(), DBError::Conflict);
}

#[test]
fn reserved_prefix_rejected() {
    let db = Db::open(options());
    let mut t = Txn::new(&db, true, false);
    assert_eq!(
        t.set(&db, b"!badger!foo".to_vec(), b"x".to_vec()).unwrap_err(),
        DBError::InvalidKey
    );
}

#[test]
fn value_log_spill_and_read_back() {
    // A value above the threshold leaves a pointer in the tree and the
    // bytes in the value log.
    let mut opt = options();
    opt.value_threshold = 1024;
    let mut db = Db::open(opt);
    let big: Vec<u8> = (0..(2 << 20)).map(|i| (i % 251) as u8).collect();
    let mut w = Txn::new(&db, true, false);
    w.set(&db, b"big".to_vec(), big.clone()).unwrap();
    w.commit(&mut db).unwrap();
    let mut r = Txn::new(&db, true, false);
    let (_, vm) = r.get(&db, b"big").unwrap();
    assert!(vm.meta().contains(META_VALUE_POINTER));
    let vptr = ValuePointer::deserialize(vm.value());
    assert!(!vptr.is_empty());
    assert_eq!(db.resolve_value(&vm).unwrap(), big);
}

#[test]
fn error_cases_in_order() {
    let mut opt = options();
    opt.banned_prefixes = vec![b"ban_".to_vec()];
    opt.max_batch_count = 3;
    let db = Db::open(opt);
    let mut t = Txn::new(&db, true, false);
    assert_eq!(
        t.set(&db, Vec::new(), b"v".to_vec()).unwrap_err(),
        DBError::EmptyKey
    );
    let long_key = vec![b'a'; 65001];
    assert_eq!(
        t.set(&db, long_key, b"v".to_vec()).unwrap_err(),
        DBError::KeyTooBig
    );
    assert_eq!(
        t.set(&db, b"ban_me".to_vec(), b"v".to_vec()).unwrap_err(),
        DBError::BannedKey
    );
    t.set(&db, b"one".to_vec(), b"v".to_vec()).unwrap();
    assert_eq!(
        t.set(&db, b"two".to_vec(), b"v".to_vec()).unwrap_err(),
        DBError::TxnTooBig
    );
}

#[test]
fn read_only_and_discarded() {
    let mut db = Db::open(options());
    let mut ro = Txn::new(&db, false, false);
    assert_eq!(
        ro.set(&db, b"k".to_vec(), b"v".to_vec()).unwrap_err(),
        DBError::ReadOnlyTxn
    );
    let mut t = Txn::new(&db, true, false);
    t.discard(&mut db);
    assert_eq!(
        t.set(&db, b"k".to_vec(), b"v".to_vec()).unwrap_err(),
        DBError::DiscardedTxn
    );
    assert_eq!(t.get(&db, b"k").unwrap_err(), DBError::DiscardedTxn);
}

#[test]
fn commit_timestamps_increase() {
    // Two commits finished one after the other take strictly increasing
    // timestamps.
    let mut db = Db::open(options());
    let reads: Vec<u64> = Vec::new();
    let ts_a = db
        .oracle
        .get_latest_commit_ts(lsm_core::kv::TxnTs::new(0), &reads, Vec::new())
        .unwrap();
    let ts_b = db
        .oracle
        .get_latest_commit_ts(lsm_core::kv::TxnTs::new(0), &reads, Vec::new())
        .unwrap();
    assert!(ts_a.to_u64() < ts_b.to_u64());
}

#[test]
fn overwrite_in_same_txn_keeps_latest() {
    let mut db = Db::open(options());
    let mut t = Txn::new(&db, true, false);
    t.set(&db, b"k".to_vec(), b"v1".to_vec()).unwrap();
    t.set(&db, b"k".to_vec(), b"v2".to_vec()).unwrap();
    let (_, vm) = t.get(&db, b"k").unwrap();
    assert_eq!(vm.value(), &b"v2".to_vec());
    t.commit(&mut db).unwrap();
    let mut r = Txn::new(&db, true, false);
    let (_, vm) = r.get(&db, b"k").unwrap();
    assert_eq!(db.resolve_value(&vm).unwrap(), b"v2".to_vec());
}

#[test]
fn get_update_txn_refuses_closed_engine() {
    let mut db = Db::open(options());
    assert!(db.get_update_txn().is_ok());
    db.closed = true;
    match db.get_update_txn() {
        Ok(_) => panic!("a closed engine must refuse transactions"),
        Err(e) => assert_eq!(e, DBError::DBClosed),
    }
}

#[test]
fn grouped_commit_writes_terminator() {
    // A commit of unversioned writes appends the terminator entry under the
    // reserved key, versioned at the commit timestamp and carrying it in
    // decimal.
    let mut db = Db::open(options());
    let mut t = Txn::new(&db, true, false);
    t.set(&db, b"a".to_vec(), b"1".to_vec()).unwrap();
    t.commit(&mut db).unwrap();
    let marker = db.store.get(b"!badger!txn", u64::MAX);
    let (ts, vm) = marker.unwrap();
    assert_eq!(ts.to_u64(), 1);
    assert_eq!(vm.value(), &b"1".to_vec());
    assert_eq!(vm.meta().0, lsm_core::kv::META_FIN_TXN);
    // The data entry carries the group flag and the same version.
    let (kts, data_vm) = db.store.get(b"a", u64::MAX).unwrap();
    assert_eq!(kts.to_u64(), 1);
    assert!(data_vm.meta().contains(lsm_core::kv::META_TXN));
}
