//! The engine handle the transaction layer works against: an ordered
//! in-memory store standing for the memtable chain and the levels, the
//! oracle, the value log, and the options the write path consults.

use vstd::prelude::*;

use crate::errors::DBError;
use crate::hashing::hash_state_with_seed;
use crate::hashing::random_seed;
use crate::kv::Entry;
use crate::kv::KeyTs;
use crate::kv::Meta;
use crate::kv::TxnTs;
use crate::kv::ValueMeta;
use crate::kv::ValuePointer;
use crate::kv::META_VALUE_POINTER;
use crate::oracle::Oracle;
use crate::vlog::record_at;
use crate::vlog::vlog_record_serial;
use crate::vlog::vlog_stored_meta;
use crate::vlog::vlog_wf;
use crate::vlog::written_pair_ok;
use crate::vlog::ValueLog;
use crate::vlog::VlogConfig;
use crate::vlog::VlogFile;
use crate::vlog::WriteReq;

verus! {

/// The reserved prefix of the engine's own keys.
pub open spec fn badger_prefix() -> Seq<u8> {
    seq![33u8, 98u8, 97u8, 100u8, 103u8, 101u8, 114u8, 33u8]
}

/// `prefix` starts `s`.
pub open spec fn starts_with(s: Seq<u8>, prefix: Seq<u8>) -> bool {
    prefix.len() <= s.len() && s.subrange(0, prefix.len() as int) == prefix
}

/// Whether `prefix` starts `s`.
pub fn slice_starts_with(s: &[u8], prefix: &[u8]) -> (r: bool)
    ensures
        r == starts_with(s@, prefix@),
{
    let plen = prefix.len();
    if plen > s.len() {
        proof {
            assert(!starts_with(s@, prefix@));
        }
        return false;
    }
    let head = &s[0..plen];
    let mut i: usize = 0;
    while i < plen
        invariant
            i <= plen,
            plen <= s@.len(),
            head@ == s@.subrange(0, plen as int),
            plen == prefix@.len(),
            forall|k: int| 0 <= k < i ==> head@[k] == prefix@[k],
        decreases plen - i,
    {
        if head[i] != prefix[i] {
            proof {
                assert(s@.subrange(0, plen as int)[i as int] != prefix@[i as int]);
            }
            return false;
        }
        i = i + 1;
    }
    proof {
        assert(s@.subrange(0, plen as int) =~= prefix@);
    }
    true
}

/// Returns the engine's reserved key prefix.
pub fn badger_prefix_bytes() -> (r: Vec<u8>)
    ensures
        r@ =~= badger_prefix(),
{
    let mut v: Vec<u8> = Vec::new();
    v.push(33);
    v.push(98);
    v.push(97);
    v.push(100);
    v.push(103);
    v.push(101);
    v.push(114);
    v.push(33);
    v
}

/// Some banned prefix starts the key.
pub open spec fn is_banned_spec(banned: Seq<Vec<u8>>, key: Seq<u8>) -> bool {
    exists|i: int| 0 <= i < banned.len() && starts_with(key, banned[i]@)
}

/// The options the transaction and write paths consult.
pub struct DbOptions {
    /// A batch may hold strictly fewer entries than this.
    pub max_batch_count: usize,
    /// A batch's estimated size must stay strictly under this.
    pub max_batch_size: usize,
    /// No value may be longer than a value-log file.
    pub vlog_file_size: usize,
    /// Rotate a value-log file after this many records.
    pub vlog_max_entries: usize,
    /// Values shorter than this stay in the tree.
    pub value_threshold: usize,
    /// Whether commits are checked for snapshot conflicts.
    pub detect_conflicts: bool,
    /// Timestamps are supplied by the caller instead of the oracle.
    pub managed_txns: bool,
    /// The engine rejects writes entirely.
    pub read_only: bool,
    /// Keys under these prefixes are refused.
    pub banned_prefixes: Vec<Vec<u8>>,
}

// ---------------------------------------------------------------------------
// The ordered in-memory store
// ---------------------------------------------------------------------------

/// `e` is a version of `key` a reader at `read_ts` may see.
pub open spec fn entry_visible(e: Entry, key: Seq<u8>, read_ts: u64) -> bool {
    e.key_ts.key@ == key && e.key_ts.txn_ts.0 <= read_ts
}

/// `(ts, vm)` is what a read of `key` at `read_ts` returns: some visible
/// entry carries them, no visible entry is newer, and no later-applied
/// visible entry ties the version.
pub open spec fn store_hit(
    entries: Seq<Entry>,
    key: Seq<u8>,
    read_ts: u64,
    ts: TxnTs,
    vm: ValueMeta,
) -> bool {
    exists|i: int|
        {
            &&& 0 <= i < entries.len()
            &&& entry_visible(#[trigger] entries[i], key, read_ts)
            &&& entries[i].key_ts.txn_ts == ts
            &&& vm.value@ == entries[i].value_meta.value@
            &&& vm.expires_at == entries[i].value_meta.expires_at
            &&& vm.user_meta == entries[i].value_meta.user_meta
            &&& vm.meta == entries[i].value_meta.meta
            &&& forall|x: int|
                0 <= x < entries.len() && entry_visible(#[trigger] entries[x], key, read_ts)
                    ==> entries[x].key_ts.txn_ts.0 <= ts.0
            &&& forall|x: int|
                i < x < entries.len() && entry_visible(#[trigger] entries[x], key, read_ts)
                    ==> entries[x].key_ts.txn_ts.0 < ts.0
        }
}

/// The in-memory multi-version store: every applied write, newest appended
/// last.
pub struct MemStore {
    pub entries: Vec<Entry>,
}

impl MemStore {
    pub fn new() -> (r: Self)
        ensures
            r.entries@.len() == 0,
    {
        MemStore { entries: Vec::new() }
    }

    /// The newest version of `key` visible at `read_ts`; among writes of
    /// the same version the latest applied wins.
    pub fn get(&self, key: &[u8], read_ts: u64) -> (r: Option<(TxnTs, ValueMeta)>)
        ensures
            match r {
                None => forall|i: int|
                    0 <= i < self.entries@.len() ==> !entry_visible(
                        #[trigger] self.entries@[i],
                        key@,
                        read_ts,
                    ),
                Some((ts, vm)) => store_hit(self.entries@, key@, read_ts, ts, vm),
            },
    {
        let mut best: Option<usize> = None;
        let mut i: usize = 0;
        while i < self.entries.len()
            invariant
                i <= self.entries@.len(),
                match best {
                    None => forall|x: int|
                        0 <= x < i ==> !entry_visible(#[trigger] self.entries@[x], key@, read_ts),
                    Some(b) => {
                        &&& 0 <= b < i
                        &&& entry_visible(self.entries@[b as int], key@, read_ts)
                        &&& forall|x: int|
                            0 <= x < i && entry_visible(#[trigger] self.entries@[x], key@, read_ts)
                                ==> self.entries@[x].key_ts.txn_ts.0
                                <= self.entries@[b as int].key_ts.txn_ts.0
                        &&& forall|x: int|
                            b < x < i && entry_visible(#[trigger] self.entries@[x], key@, read_ts)
                                ==> self.entries@[x].key_ts.txn_ts.0
                                < self.entries@[b as int].key_ts.txn_ts.0
                    },
                },
            decreases self.entries@.len() - i,
        {
            let e = &self.entries[i];
            let key_match = crate::codec::cmp_bytes(e.key_ts.key.as_slice(), key);
            proof {
                crate::codec::lemma_lex_cmp_eq(e.key_ts.key@, key@);
            }
            if matches!(key_match, core::cmp::Ordering::Equal) && e.key_ts.txn_ts.0 <= read_ts {
                match best {
                    None => {
                        best = Some(i);
                    },
                    Some(b) => {
                        if e.key_ts.txn_ts.0 >= self.entries[b].key_ts.txn_ts.0 {
                            best = Some(i);
                        }
                    },
                }
            }
            i = i + 1;
        }
        match best {
            None => None,
            Some(b) => {
                let e = &self.entries[b];
                let r = Some((e.key_ts.txn_ts, e.value_meta.clone()));
                proof {
                    let (ts, vm) = r.unwrap();
                    assert(0 <= b < self.entries@.len() && entry_visible(
                        self.entries@[b as int],
                        key@,
                        read_ts,
                    ) && self.entries@[b as int].key_ts.txn_ts == ts);
                }
                r
            },
        }
    }
}

// ---------------------------------------------------------------------------
// The engine handle
// ---------------------------------------------------------------------------

/// All fields of the two entries agree.
pub open spec fn entry_fields_eq(a: Entry, b: Entry) -> bool {
    &&& a.key_ts.key@ == b.key_ts.key@
    &&& a.key_ts.txn_ts == b.key_ts.txn_ts
    &&& a.value_meta.value@ == b.value_meta.value@
    &&& a.value_meta.expires_at == b.value_meta.expires_at
    &&& a.value_meta.user_meta == b.value_meta.user_meta
    &&& a.value_meta.meta == b.value_meta.meta
    &&& a.offset == b.offset
    &&& a.header_len == b.header_len
    &&& a.value_threshold == b.value_threshold
}

/// What applying one write-batch entry leaves in the store: the same key
/// and version, and either the raw value or a value pointer whose record
/// holds it.
pub open spec fn applied_entry_ok(
    e0: Entry,
    se: Entry,
    files: Seq<VlogFile>,
    default_threshold: usize,
) -> bool {
    let thr: usize = if e0.value_threshold == 0 {
        default_threshold
    } else {
        e0.value_threshold
    };
    &&& se.key_ts.key@ == e0.key_ts.key@
    &&& se.key_ts.txn_ts == e0.key_ts.txn_ts
    &&& se.value_meta.expires_at == e0.value_meta.expires_at
    &&& se.value_meta.user_meta == e0.value_meta.user_meta
    &&& if e0.value_meta.value@.len() < thr {
        se.value_meta.value@ == e0.value_meta.value@ && se.value_meta.meta == e0.value_meta.meta
    } else {
        &&& se.value_meta.meta.0 == (e0.value_meta.meta.0 | META_VALUE_POINTER)
        &&& exists|p: ValuePointer|
            se.value_meta.value@ == crate::kv::valuepointer_serial(p.fid, p.len, p.offset)
                && #[trigger] record_at(files, p) == Some(
                vlog_record_serial(
                    e0.key_ts.key@,
                    e0.key_ts.txn_ts.0,
                    e0.value_meta.value@,
                    vlog_stored_meta(e0.value_meta.meta.0),
                    e0.value_meta.user_meta,
                    e0.value_meta.expires_at.0,
                ),
            )
    }
}

/// The value-log budget a batch of entries claims, entry by entry.
pub open spec fn entries_budget(es: Seq<Entry>) -> int
    decreases es.len(),
{
    if es.len() == 0 {
        0
    } else {
        entries_budget(es.drop_last()) + crate::vlog::entry_budget(es.last())
    }
}

pub proof fn lemma_entries_budget_nonneg(es: Seq<Entry>)
    ensures
        entries_budget(es) >= 0,
    decreases es.len(),
{
    if es.len() > 0 {
        lemma_entries_budget_nonneg(es.drop_last());
    }
}

/// When applying a batch owes success: the batch fits under the largest
/// value-log offset from the current one, a rotation has id headroom, and
/// either the batch also fits after a rotation or the rotation threshold
/// lies beyond a file's largest offset.
pub open spec fn apply_fits(db: Db, entries: Seq<Entry>) -> bool {
    &&& db.vlog.writable_log_offset as int + entries_budget(entries)
        <= crate::vlog::MAX_VLOG_FILE_SIZE as int
    &&& db.vlog.files@.len() + 1 < u32::MAX
    &&& ((db.vlog.config.vlog_file_size as int > crate::vlog::MAX_VLOG_FILE_SIZE as int)
        || entries_budget(entries) + db.vlog.config.vlog_file_size as int
        <= crate::vlog::MAX_VLOG_FILE_SIZE as int)
}

/// The engine: options, oracle, the ordered store, and the value log.
pub struct Db {
    pub opt: DbOptions,
    pub oracle: Oracle,
    pub store: MemStore,
    pub vlog: ValueLog,
    pub hash_state: ahash::RandomState,
    pub closed: bool,
}

/// The engine's pieces agree with its options.
pub open spec fn db_wf(db: Db) -> bool {
    &&& vlog_wf(db.vlog)
    &&& db.vlog.config.value_threshold == db.opt.value_threshold
    &&& crate::oracle::oracle_wf(db.oracle)
}

impl Db {
    /// Opens a fresh in-memory engine with a seeded key hasher.
    pub fn open(opt: DbOptions) -> (r: Db)
        ensures
            db_wf(r),
            r.opt == opt,
            r.store.entries@.len() == 0,
            r.oracle.next_ts.0 == 1,
            !r.closed,
    {
        let vlog = ValueLog::new(
            VlogConfig {
                vlog_file_size: opt.vlog_file_size,
                vlog_max_entries: opt.vlog_max_entries,
                value_threshold: opt.value_threshold,
            },
        );
        let oracle = Oracle::new(opt.detect_conflicts);
        let seed = random_seed();
        let hash_state = hash_state_with_seed(seed);
        Db { opt, oracle, store: MemStore::new(), vlog, hash_state, closed: false }
    }

    pub fn is_closed(&self) -> (r: bool)
        ensures
            r == self.closed,
    {
        self.closed
    }

    /// Fails with `BannedKey` exactly when a banned prefix starts the key.
    pub fn is_banned(&self, key: &[u8]) -> (r: Result<(), DBError>)
        ensures
            r is Ok <==> !is_banned_spec(self.opt.banned_prefixes@, key@),
            r is Err ==> r == Err::<(), DBError>(DBError::BannedKey),
    {
        let mut i: usize = 0;
        while i < self.opt.banned_prefixes.len()
            invariant
                i <= self.opt.banned_prefixes@.len(),
                forall|x: int|
                    0 <= x < i ==> !starts_with(key@, (#[trigger] self.opt.banned_prefixes@[x])@),
            decreases self.opt.banned_prefixes@.len() - i,
        {
            if slice_starts_with(key, self.opt.banned_prefixes[i].as_slice()) {
                return Err(DBError::BannedKey);
            }
            i = i + 1;
        }
        Ok(())
    }

    /// The read path below the transaction: the newest version of `key`
    /// visible at `read_ts`.
    pub fn get(&self, key: &KeyTs) -> (r: Option<(TxnTs, ValueMeta)>)
        ensures
            match r {
                None => forall|i: int|
                    0 <= i < self.store.entries@.len() ==> !entry_visible(
                        #[trigger] self.store.entries@[i],
                        key.key@,
                        key.txn_ts.0,
                    ),
                Some((ts, vm)) => store_hit(self.store.entries@, key.key@, key.txn_ts.0, ts, vm),
            },
    {
        self.store.get(key.key.as_slice(), key.txn_ts.0)
    }

    /// Resolves what a read returned: follows the value pointer into the
    /// value log when one is set, else hands the stored bytes back.
    pub fn resolve_value(&self, vm: &ValueMeta) -> (r: Result<Vec<u8>, DBError>)
        requires
            db_wf(*self),
        ensures
            vm.meta.0 & META_VALUE_POINTER != META_VALUE_POINTER ==> r is Ok && r.unwrap()@
                == vm.value@,
            vm.meta.0 & META_VALUE_POINTER == META_VALUE_POINTER && vm.value@.len() < 12 ==> r
                == Err::<Vec<u8>, DBError>(DBError::InvalidValuePointer),
            vm.meta.0 & META_VALUE_POINTER == META_VALUE_POINTER && vm.value@.len() >= 12 ==> ({
                let p = ValuePointer {
                    fid: crate::codec::u32_from_be_spec(vm.value@),
                    len: crate::codec::u32_from_be_spec(vm.value@.skip(4)),
                    offset: crate::codec::u32_from_be_spec(vm.value@.skip(8)),
                };
                match record_at(self.vlog.files@, p) {
                    None => r is Err,
                    Some(bytes) => match crate::vlog::vlog_record_parse(bytes) {
                        None => r is Err,
                        Some(pr) => r is Ok && r.unwrap()@ == pr.value,
                    },
                }
            }),
    {
        if !vm.meta.contains(META_VALUE_POINTER) {
            return Ok(crate::codec::copy_slice(vm.value.as_slice()));
        }
        if vm.value.len() < 12 {
            return Err(DBError::InvalidValuePointer);
        }
        let p = ValuePointer::deserialize(vm.value.as_slice());
        let entry = self.vlog.read(&p)?;
        Ok(entry.value_meta.value)
    }

    /// Applies a committed batch: values over the threshold spill to the
    /// value log, and every entry lands in the store under its key and
    /// version.
    pub fn apply_batch(&mut self, entries: Vec<Entry>) -> (r: Result<(), DBError>)
        requires
            db_wf(*old(self)),
        ensures
            db_wf(*final(self)),
            final(self).opt == old(self).opt,
            final(self).oracle == old(self).oracle,
            final(self).closed == old(self).closed,
            r is Ok ==> ({
                &&& final(self).store.entries@.len() == old(self).store.entries@.len()
                    + entries@.len()
                &&& forall|i: int|
                    0 <= i < old(self).store.entries@.len() ==> final(self).store.entries@[i]
                        == old(self).store.entries@[i]
                &&& forall|k: int|
                    0 <= k < entries@.len() ==> applied_entry_ok(
                        entries@[k],
                        #[trigger] final(self).store.entries@[old(self).store.entries@.len() + k],
                        final(self).vlog.files@,
                        old(self).opt.value_threshold,
                    )
            }),
            r is Err ==> final(self).store.entries@ == old(self).store.entries@,
            r is Err ==> r == Err::<(), DBError>(DBError::ValuelogSize),
            apply_fits(*old(self), entries@) ==> r is Ok,
    {
        let ghost old_store_len = self.store.entries@.len();
        let mut pairs: Vec<(Entry, ValuePointer)> = Vec::new();
        let mut i: usize = 0;
        while i < entries.len()
            invariant
                i <= entries@.len(),
                pairs@.len() == i,
                crate::vlog::req_size(pairs@) == entries_budget(entries@.subrange(0, i as int)),
                forall|k: int|
                    0 <= k < i ==> entry_fields_eq((#[trigger] pairs@[k]).0, entries@[k]),
            decreases entries@.len() - i,
        {
            let e = entries[i].clone();
            proof {
                assert(entries@.subrange(0, i + 1).drop_last() =~= entries@.subrange(0, i as int));
                assert(entries@.subrange(0, i + 1).last() == entries@[i as int]);
                crate::vlog::lemma_req_size_push(
                    pairs@,
                    (e, ValuePointer { fid: 0, len: 0, offset: 0 }),
                );
            }
            pairs.push((e, ValuePointer { fid: 0, len: 0, offset: 0 }));
            i = i + 1;
        }
        proof {
            assert(entries@.subrange(0, entries@.len() as int) =~= entries@);
        }
        let mut reqs: Vec<WriteReq> = Vec::new();
        reqs.push(WriteReq { entries_vptrs: pairs });
        let ghost pairs_view = reqs@[0].entries_vptrs@;
        proof {
            if apply_fits(*old(self), entries@) {
                // The single-request batch passes admission and has the
                // headroom the write path asks for.
                assert(crate::vlog::req_size(pairs_view) == entries_budget(entries@));
                assert(reqs@.skip(1) =~= Seq::<WriteReq>::empty());
                lemma_entries_budget_nonneg(entries@);
                assert(reqs@.len() == 1);
                let off = self.vlog.writable_log_offset as int;
                let fs = self.vlog.config.vlog_file_size as int;
                let est = off + crate::vlog::req_size(reqs@[0].entries_vptrs@);
                assert(est <= crate::vlog::MAX_VLOG_FILE_SIZE as int);
                assert(crate::vlog::validate_from(
                    reqs@.skip(1),
                    if est >= fs {
                        0int
                    } else {
                        est
                    },
                    fs,
                ));
                assert(crate::vlog::validate_from(reqs@, off, fs));
                assert(crate::vlog::write_fits(self.vlog, reqs@));
            }
        }
        let out = match self.vlog.write(&reqs) {
            Ok(out) => out,
            Err(e) => {
                return Err(e);
            },
        };
        let written = &out[0].entries_vptrs;
        let ghost files_now = self.vlog.files@;
        let ghost vlog_now = self.vlog;
        let ghost thr = old(self).opt.value_threshold;
        proof {
            assert(written@.len() == entries@.len());
        }
        let mut k: usize = 0;
        while k < written.len()
            invariant
                k <= written@.len(),
                written@.len() == entries@.len(),
                written@ == out@[0].entries_vptrs@,
                out@.len() == 1,
                pairs_view == reqs@[0].entries_vptrs@,
                reqs@.len() == 1,
                pairs_view.len() == entries@.len(),
                forall|x: int|
                    0 <= x < entries@.len() ==> entry_fields_eq(
                        (#[trigger] pairs_view[x]).0,
                        entries@[x],
                    ),
                forall|x: int, y: int|
                    0 <= x < reqs@.len() && 0 <= y < reqs@[x].entries_vptrs@.len()
                        ==> crate::vlog::written_pair_ok(
                        reqs@[x].entries_vptrs@[y].0,
                        (#[trigger] out@[x].entries_vptrs@[y]).0,
                        out@[x].entries_vptrs@[y].1,
                        files_now,
                        thr,
                    ),
                self.vlog == vlog_now,
                files_now == self.vlog.files@,
                db_wf(*self),
                self.opt == old(self).opt,
                self.oracle == old(self).oracle,
                self.closed == old(self).closed,
                self.store.entries@.len() == old_store_len + k,
                old_store_len == old(self).store.entries@.len(),
                forall|x: int|
                    0 <= x < old_store_len ==> self.store.entries@[x] == old(
                        self,
                    ).store.entries@[x],
                forall|x: int|
                    0 <= x < k ==> applied_entry_ok(
                        entries@[x],
                        #[trigger] self.store.entries@[old_store_len + x],
                        files_now,
                        thr,
                    ),
            decreases written@.len() - k,
        {
            let e = &written[k].0;
            let vptr = written[k].1;
            proof {
                assert(crate::vlog::written_pair_ok(
                    pairs_view[k as int].0,
                    written@[k as int].0,
                    written@[k as int].1,
                    files_now,
                    thr,
                ));
            }
            let se = if vptr.is_empty() {
                Entry {
                    key_ts: e.key_ts.clone(),
                    value_meta: e.value_meta.clone(),
                    offset: 0,
                    header_len: 0,
                    value_threshold: 0,
                }
            } else {
                Entry {
                    key_ts: e.key_ts.clone(),
                    value_meta: ValueMeta {
                        value: vptr.serialize(),
                        expires_at: e.value_meta.expires_at,
                        user_meta: e.value_meta.user_meta,
                        meta: Meta(e.value_meta.meta.0 | META_VALUE_POINTER),
                    },
                    offset: 0,
                    header_len: 0,
                    value_threshold: 0,
                }
            };
            proof {
                assert(applied_entry_ok(entries@[k as int], se, files_now, thr)) by {
                    let e0 = pairs_view[k as int].0;
                    if e0.value_meta.value@.len() >= (if e0.value_threshold == 0 {
                        thr
                    } else {
                        e0.value_threshold
                    }) {
                        assert(record_at(files_now, vptr) == Some(
                            vlog_record_serial(
                                e0.key_ts.key@,
                                e0.key_ts.txn_ts.0,
                                e0.value_meta.value@,
                                vlog_stored_meta(e0.value_meta.meta.0),
                                e0.value_meta.user_meta,
                                e0.value_meta.expires_at.0,
                            ),
                        ));
                    }
                }
            }
            self.store.entries.push(se);
            k = k + 1;
        }
        Ok(())
    }
}

} // verus!
