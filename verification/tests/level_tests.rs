use lsm_core::compaction::compact_build_entries;
use lsm_core::compaction::pick_compact_levels;
use lsm_core::compaction::CompactStatus;
use lsm_core::compaction::KeyTsRange;
use lsm_core::compaction::LevelConfig;
use lsm_core::kv::Entry;
use lsm_core::kv::KeyTs;
use lsm_core::kv::Meta;
use lsm_core::kv::PhyTs;
use lsm_core::kv::TxnTs;
use lsm_core::level::binary_search_biggest;
use lsm_core::level::Level;
use lsm_core::level::LevelHandler;
use lsm_core::level::Table;

fn table(id: u64, small: &[u8], big: &[u8], size: usize) -> Table {
    Table {
        table_id: id,
        smallest: KeyTs::new(small.to_vec(), TxnTs::new(u64::MAX)),
        biggest: KeyTs::new(big.to_vec(), TxnTs::new(0)),
        size,
        stale_data_size: 0,
        entries: Vec::new(),
    }
}

fn entry(key: &[u8], ts: u64, value: &[u8], meta: u8) -> Entry {
    let mut e = Entry::new(key.to_vec(), value.to_vec());
    e.set_version(TxnTs::new(ts));
    e.set_meta(Meta(meta));
    e
}

#[test]
fn level_handler_orders_and_validates() {
    let mut h = LevelHandler::new(Level::new(1));
    h.init_tables(vec![
        table(3, b"m", b"p", 10),
        table(1, b"a", b"c", 10),
        table(2, b"e", b"k", 10),
    ])
    .unwrap();
    assert_eq!(h.get_tables_len(), 3);
    assert_eq!(h.get_total_size(), 30);
    assert!(h.validate());
    // Overlapping neighbours fail validation above level zero.
    let mut bad = LevelHandler::new(Level::new(1));
    bad.init_tables(vec![table(1, b"a", b"k", 10), table(2, b"e", b"z", 10)])
        .unwrap();
    assert!(!bad.validate());
    // Level zero is exempt and sorts by table id.
    let mut l0 = LevelHandler::new(Level::new(0));
    l0.init_tables(vec![table(9, b"a", b"z", 10), table(2, b"a", b"z", 10)])
        .unwrap();
    assert!(l0.validate());
}

#[test]
fn replace_and_delete_recompute() {
    let mut h = LevelHandler::new(Level::new(1));
    h.init_tables(vec![table(1, b"a", b"c", 10), table(2, b"e", b"k", 20)])
        .unwrap();
    h.replace(&vec![1], vec![table(7, b"a", b"d", 40)]).unwrap();
    assert_eq!(h.get_tables_len(), 2);
    assert_eq!(h.get_total_size(), 60);
    h.delete(&vec![2]).unwrap();
    assert_eq!(h.get_tables_len(), 1);
    assert_eq!(h.get_total_size(), 40);
    assert_eq!(h.handler_tables.tables[0].table_id, 7);
}

#[test]
fn stale_totals_are_sums() {
    // The stale total is the sum over the tables, and deletion keeps the
    // survivors in order while recomputing both totals.
    let mut a = table(1, b"a", b"c", 10);
    a.stale_data_size = 1;
    let mut b = table(2, b"e", b"k", 20);
    b.stale_data_size = 2;
    let mut c = table(3, b"m", b"p", 30);
    c.stale_data_size = 4;
    let mut h = LevelHandler::new(Level::new(1));
    h.init_tables(vec![c, a, b]).unwrap();
    assert_eq!(h.handler_tables.total_stale_size, 7);
    assert_eq!(h.get_total_size(), 60);
    h.delete(&vec![2]).unwrap();
    assert_eq!(h.handler_tables.total_stale_size, 5);
    assert_eq!(h.get_total_size(), 40);
    let ids: Vec<u64> = h.handler_tables.tables.iter().map(|t| t.table_id).collect();
    assert_eq!(ids, vec![1, 3]);
}

#[test]
fn overlap_and_binary_search() {
    let mut h = LevelHandler::new(Level::new(1));
    h.init_tables(vec![
        table(1, b"a", b"c", 10),
        table(2, b"e", b"k", 10),
        table(3, b"m", b"p", 10),
    ])
    .unwrap();
    let range = KeyTsRange {
        left: KeyTs::new(b"b".to_vec(), TxnTs::new(u64::MAX)),
        right: KeyTs::new(b"f".to_vec(), TxnTs::new(0)),
        inf: false,
    };
    let (lo, hi) = h.handler_tables.overlap_tables(&range);
    assert_eq!((lo, hi), (0, 2));
    let probe = KeyTs::new(b"k".to_vec(), TxnTs::new(0)).serialize();
    assert_eq!(
        binary_search_biggest(&h.handler_tables.tables, &probe),
        Ok(1)
    );
    let miss = KeyTs::new(b"d".to_vec(), TxnTs::new(0)).serialize();
    assert_eq!(
        binary_search_biggest(&h.handler_tables.tables, &miss),
        Err(1)
    );
}

#[test]
fn ranges_overlap_rules() {
    let empty = KeyTsRange::default();
    let inf = KeyTsRange::inf_default();
    let ab = KeyTsRange {
        left: KeyTs::new(b"a".to_vec(), TxnTs::new(u64::MAX)),
        right: KeyTs::new(b"b".to_vec(), TxnTs::new(0)),
        inf: false,
    };
    let cd = KeyTsRange {
        left: KeyTs::new(b"c".to_vec(), TxnTs::new(u64::MAX)),
        right: KeyTs::new(b"d".to_vec(), TxnTs::new(0)),
        inf: false,
    };
    assert!(empty.is_overlaps_with(&ab));
    assert!(!ab.is_overlaps_with(&empty));
    assert!(inf.is_overlaps_with(&ab));
    assert!(ab.is_overlaps_with(&inf));
    assert!(!ab.is_overlaps_with(&cd));
    let mut widened = ab.clone();
    widened.extend_borrow(&cd);
    assert!(widened.is_overlaps_with(&cd));
}

#[test]
fn compaction_scores_pick_oversized_levels() {
    let cfg = LevelConfig {
        base_level_size: 100,
        level_size_multiplier: 10,
        table_size_multiplier: 2,
        memtable_size: 64,
        table_size: 32,
        num_level_zero_tables: 4,
        num_compactors: 2,
        lmax_compaction: false,
    };
    let mut levels = Vec::new();
    let mut l0 = LevelHandler::new(Level::new(0));
    l0.init_tables(vec![
        table(1, b"a", b"b", 10),
        table(2, b"a", b"b", 10),
        table(3, b"a", b"b", 10),
        table(4, b"a", b"b", 10),
    ])
    .unwrap();
    levels.push(l0);
    let mut l1 = LevelHandler::new(Level::new(1));
    l1.init_tables(vec![table(5, b"a", b"m", 5000)]).unwrap();
    levels.push(l1);
    let mut l2 = LevelHandler::new(Level::new(2));
    l2.init_tables(Vec::new()).unwrap();
    levels.push(l2);
    let status = CompactStatus::new(3);
    let prios = pick_compact_levels(&levels, &status, &cfg);
    // Level zero is full (four tables) and level one is far over target.
    assert!(prios.iter().any(|p| p.level().to_usize() == 0));
    assert!(prios.iter().any(|p| p.level().to_usize() == 1));
    for p in prios.iter() {
        assert!(p.level().to_usize() < 2);
        assert!(!p.targets().file_size().is_empty());
        assert!(p.drop_prefixes().is_empty());
    }
}

#[test]
fn designated_worker_attempts_last_level() {
    let mut cfg = LevelConfig {
        base_level_size: 100,
        level_size_multiplier: 10,
        table_size_multiplier: 2,
        memtable_size: 64,
        table_size: 32,
        num_level_zero_tables: 4,
        num_compactors: 4,
        lmax_compaction: true,
    };
    let mut levels = Vec::new();
    for i in 0..3u8 {
        let mut h = LevelHandler::new(Level::new(i));
        h.init_tables(Vec::new()).unwrap();
        levels.push(h);
    }
    let status = CompactStatus::new(3);
    let prios = lsm_core::compaction::priorities_for_tick(&levels, &status, &cfg, 2, 200);
    assert_eq!(prios.len(), 1);
    assert_eq!(prios[0].level().to_usize(), 2);
    assert_eq!(prios[0].adjusted(), 0);
    // Any other worker, or an early tick, scores the levels instead; all
    // levels are empty here, so nothing is owed a compaction.
    cfg.lmax_compaction = false;
    let prios = lsm_core::compaction::priorities_for_tick(&levels, &status, &cfg, 2, 200);
    assert!(prios.is_empty());
}

#[test]
fn compaction_filter_rules() {
    let now = PhyTs::new(1000);
    // Newest first per key: k1 has DISCARD_EARLIER_VERSIONS on its newest
    // version, so older versions drop; k2's tombstone is settled at the
    // bottom level; k3 survives.
    let merged = vec![
        entry(b"k1", 9, b"new", lsm_core::kv::META_DISCARD_EARLIER_VERSIONS),
        entry(b"k1", 5, b"mid", 0),
        entry(b"k1", 2, b"old", 0),
        entry(b"k2", 7, b"", lsm_core::kv::META_DELETE),
        entry(b"k3", 4, b"alive", 0),
        entry(b"zap_x", 3, b"drop me", 0),
    ];
    let (out, dropped) = compact_build_entries(
        merged,
        TxnTs::new(100),
        true,
        &vec![b"zap_".to_vec()],
        now,
    );
    let keys: Vec<&[u8]> = out.iter().map(|e| e.key().as_slice()).collect();
    assert_eq!(keys, vec![b"k1".as_slice(), b"k3".as_slice()]);
    assert_eq!(dropped.len(), 4);
    // Off the bottom level the tombstone must survive.
    let merged2 = vec![entry(b"k2", 7, b"", lsm_core::kv::META_DELETE)];
    let (out2, dropped2) =
        compact_build_entries(merged2, TxnTs::new(100), false, &Vec::new(), now);
    assert_eq!(out2.len(), 1);
    assert!(dropped2.is_empty());
}

#[test]
fn dropped_pointers_credit_discard_stats() {
    // A dropped entry holding a value pointer credits the pointer's file
    // with the record length.
    let now = PhyTs::new(0);
    let vptr = lsm_core::kv::ValuePointer::new(9, 4096, 0);
    let mut stale = entry(b"gone", 3, &vptr.serialize(), 0);
    stale.set_meta(Meta(
        lsm_core::kv::META_DELETE | lsm_core::kv::META_VALUE_POINTER,
    ));
    let merged = vec![stale];
    let (kept, dropped) =
        compact_build_entries(merged, TxnTs::new(100), true, &Vec::new(), now);
    assert!(kept.is_empty());
    assert_eq!(dropped.len(), 1);
    let mut stats = lsm_core::discard::DiscardStatsInner::new();
    lsm_core::compaction::credit_discard_stats(&mut stats, &dropped).unwrap();
    assert_eq!(stats.update(9, 0).unwrap(), 4096);
}

#[test]
fn flush_and_compact_covers_all_keys() {
    // Ten thousand live keys move from level zero to a deeper level: no
    // tables remain at level zero, the new tables do not overlap, and every
    // key survives.
    let total = 10000usize;
    let mut merged: Vec<Entry> = Vec::new();
    for i in 0..total {
        let key = format!("k{:05}", i).into_bytes();
        merged.push(entry(&key, 1, b"v", 0));
    }
    let (kept, dropped) = compact_build_entries(
        merged,
        TxnTs::new(100),
        true,
        &Vec::new(),
        PhyTs::new(0),
    );
    assert_eq!(kept.len(), total);
    assert!(dropped.is_empty());
    // Split the survivors into non-overlapping tables for the next level.
    let mut tables: Vec<Table> = Vec::new();
    let chunk = 2500;
    let mut id = 10;
    let mut covered = 0usize;
    let mut iter = kept.into_iter().peekable();
    let mut current: Vec<Entry> = Vec::new();
    while let Some(e) = iter.next() {
        current.push(e);
        if current.len() == chunk || iter.peek().is_none() {
            let smallest = current.first().unwrap().key_ts().clone();
            let biggest = current.last().unwrap().key_ts().clone();
            covered += current.len();
            tables.push(Table {
                table_id: id,
                smallest,
                biggest,
                size: current.len(),
                stale_data_size: 0,
                entries: std::mem::take(&mut current),
            });
            id += 1;
        }
    }
    assert_eq!(covered, total);
    let mut l0 = LevelHandler::new(Level::new(0));
    l0.init_tables(Vec::new()).unwrap();
    let mut l1 = LevelHandler::new(Level::new(1));
    l1.init_tables(tables).unwrap();
    assert_eq!(l0.get_tables_len(), 0);
    assert_eq!(l1.get_tables_len(), 4);
    assert!(l1.validate());
    assert_eq!(l1.handler_tables.total_stale_size, 0);
    let held: usize = l1
        .handler_tables
        .tables
        .iter()
        .map(|t| t.entries.len())
        .sum();
    assert_eq!(held, total);
}
