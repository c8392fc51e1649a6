//! Transactions: buffered writes, snapshot reads, conflict-tracked commits.

use vstd::prelude::*;

use crate::codec::cmp_bytes;
use crate::codec::lemma_lex_cmp_eq;
use crate::codec::u64_dec_digits;
use crate::codec::u64_to_decimal;
use crate::db::badger_prefix;
use crate::db::badger_prefix_bytes;
use crate::db::db_wf;
use crate::db::entry_visible;
use crate::db::is_banned_spec;
use crate::db::slice_starts_with;
use crate::db::starts_with;
use crate::db::applied_entry_ok;
use crate::db::Db;
use crate::errors::DBError;
use crate::hashing::hash_key;
use crate::kv::Entry;
use crate::kv::KeyTs;
use crate::kv::Meta;
use crate::kv::PhyTs;
use crate::kv::TxnTs;
use crate::kv::ValueMeta;
use crate::kv::META_DELETE;
use crate::kv::META_FIN_TXN;
use crate::kv::META_TXN;
use crate::oracle::spec_has_conflict;

verus! {

/// The longest key the engine accepts.
pub const MAX_KEY_SIZE: usize = 65000;

/// The key under which a commit group's terminator is written.
pub open spec fn txn_key() -> Seq<u8> {
    badger_prefix() + seq![116u8, 120u8, 110u8]
}

/// Returns the commit-terminator key.
pub fn txn_key_bytes() -> (r: Vec<u8>)
    ensures
        r@ =~= txn_key(),
{
    let mut v = badger_prefix_bytes();
    v.push(116);
    v.push(120);
    v.push(110);
    v
}

/// How transactions run: read-only, with conflict detection, or with
/// caller-managed timestamps.
#[derive(Debug, Clone, Copy, PartialEq, Eq, Structural)]
pub struct TxnConfig {
    pub read_only: bool,
    pub detect_conflicts: bool,
    pub managed_txns: bool,
}

impl Default for TxnConfig {
    fn default() -> (r: Self)
        ensures
            !r.read_only,
            r.detect_conflicts,
            !r.managed_txns,
    {
        TxnConfig { read_only: false, detect_conflicts: true, managed_txns: false }
    }
}

/// A transaction: its snapshot, its buffered writes, and the bookkeeping
/// conflict detection needs.
pub struct Txn {
    pub read_ts: TxnTs,
    pub commit_ts: TxnTs,
    pub size: usize,
    pub count: usize,
    pub txn_config: TxnConfig,
    pub conflict_keys: Option<Vec<u64>>,
    pub read_key_hash: Vec<u64>,
    pub pending_writes: Option<Vec<Entry>>,
    pub duplicate_writes: Vec<Entry>,
    pub num_iters: i32,
    pub discarded: bool,
    pub done_read: bool,
    pub update: bool,
}

/// A transaction's buffer is coherent: an update transaction has a write
/// buffer, pending keys are unique, and conflict keys are tracked exactly
/// when asked for.
pub open spec fn txn_wf(t: Txn) -> bool {
    &&& (t.update <==> t.pending_writes is Some)
    &&& (t.conflict_keys is Some <==> (t.update && t.txn_config.detect_conflicts))
    &&& (t.pending_writes is Some ==> pending_keys_unique(t.pending_writes.unwrap()@))
}

/// No two buffered writes share a user key.
pub open spec fn pending_keys_unique(p: Seq<Entry>) -> bool {
    forall|i: int, j: int|
        0 <= i < j < p.len() ==> (#[trigger] p[i].key_ts.key@) != (#[trigger] p[j].key_ts.key@)
}

/// The entry as it is buffered: unchanged but for its value threshold,
/// which defaults to the engine's.
pub open spec fn buffered_entry(e1: Entry, e0: Entry, thr: usize) -> bool {
    &&& e1.key_ts.key@ == e0.key_ts.key@
    &&& e1.key_ts.txn_ts == e0.key_ts.txn_ts
    &&& e1.value_meta.value@ == e0.value_meta.value@
    &&& e1.value_meta.expires_at == e0.value_meta.expires_at
    &&& e1.value_meta.user_meta == e0.value_meta.user_meta
    &&& e1.value_meta.meta == e0.value_meta.meta
    &&& e1.offset == e0.offset
    &&& e1.header_len == e0.header_len
    &&& e1.value_threshold == (if e0.value_threshold == 0 {
        thr
    } else {
        e0.value_threshold
    })
}

/// What an entry of the given key and value lengths contributes to the
/// batch size estimate.
pub open spec fn estimate_size_of(key_len: int, value_len: int, threshold: usize) -> int {
    if value_len < threshold {
        key_len + value_len + 2
    } else {
        key_len + 12 + 2
    }
}

/// Which refusal, if any, `modify` owes for an entry of this key and
/// value, checked in order.
pub open spec fn modify_err(t: Txn, db: Db, key: Seq<u8>, value: Seq<u8>) -> Option<DBError> {
    if !t.update {
        Some(DBError::ReadOnlyTxn)
    } else if t.discarded {
        Some(DBError::DiscardedTxn)
    } else if key.len() == 0 {
        Some(DBError::EmptyKey)
    } else if starts_with(key, badger_prefix()) {
        Some(DBError::InvalidKey)
    } else if key.len() > MAX_KEY_SIZE {
        Some(DBError::KeyTooBig)
    } else if value.len() > db.opt.vlog_file_size {
        Some(DBError::ValueTooBig)
    } else if is_banned_spec(db.opt.banned_prefixes@, key) {
        Some(DBError::BannedKey)
    } else if t.count + 1 >= db.opt.max_batch_count || t.size + estimate_size_of(
        key.len() as int,
        value.len() as int,
        db.opt.value_threshold,
    ) + 10 >= db.opt.max_batch_size {
        Some(DBError::TxnTooBig)
    } else {
        None
    }
}

impl Txn {
    /// Opens a transaction against the engine's current snapshot.
    pub fn new(db: &Db, update: bool, is_managed: bool) -> (r: Txn)
        requires
            db_wf(*db),
        ensures
            txn_wf(r),
            r.update == (update && !db.opt.read_only),
            r.read_ts.0 == if is_managed {
                0
            } else {
                db.oracle.next_ts.0 - 1
            },
            r.commit_ts.0 == 0,
            r.count == 1,
            r.size == txn_key().len() + 10,
            r.txn_config.read_only == db.opt.read_only,
            r.txn_config.detect_conflicts == db.opt.detect_conflicts,
            r.txn_config.managed_txns == db.opt.managed_txns,
            r.read_key_hash@.len() == 0,
            r.pending_writes is Some ==> r.pending_writes.unwrap()@.len() == 0,
            r.conflict_keys is Some ==> r.conflict_keys.unwrap()@.len() == 0,
            r.duplicate_writes@.len() == 0,
            !r.discarded,
            r.num_iters == 0,
    {
        let txn_config = TxnConfig {
            read_only: db.opt.read_only,
            detect_conflicts: db.opt.detect_conflicts,
            managed_txns: db.opt.managed_txns,
        };
        let update = if txn_config.read_only {
            false
        } else {
            update
        };
        let read_ts = if !is_managed {
            db.oracle.get_latest_read_ts()
        } else {
            TxnTs(0)
        };
        let key_len = txn_key_bytes().len();
        Txn {
            read_ts,
            commit_ts: TxnTs(0),
            size: key_len + 10,
            count: 1,
            txn_config,
            conflict_keys: if update && txn_config.detect_conflicts {
                Some(Vec::new())
            } else {
                None
            },
            read_key_hash: Vec::new(),
            pending_writes: if update {
                Some(Vec::new())
            } else {
                None
            },
            duplicate_writes: Vec::new(),
            num_iters: 0,
            discarded: false,
            done_read: false,
            update,
        }
    }

    /// Buffers one write. Rejects, in order: writes in a read-only or
    /// discarded transaction, empty keys, keys under the reserved prefix,
    /// oversized keys and values, banned keys, and batches past their count
    /// or size budget. A buffered write replaces a pending one under the
    /// same key; the replaced write is kept aside when its version differs,
    /// so both can be serialized.
    pub fn modify(&mut self, db: &Db, e: Entry) -> (r: Result<(), DBError>)
        requires
            txn_wf(*old(self)),
            db_wf(*db),
            old(self).count < usize::MAX,
            e.key_ts.key@.len() + e.value_meta.value@.len() + 14 <= usize::MAX,
        ensures
            txn_wf(*final(self)),
            match modify_err(*old(self), *db, e.key_ts.key@, e.value_meta.value@) {
                Some(err) => r == Err::<(), DBError>(err) && *final(self) == *old(self),
                None => {
                    &&& r is Ok
                    &&& final(self).count == old(self).count + 1
                    &&& final(self).size == old(self).size + estimate_size_of(
                        e.key_ts.key@.len() as int,
                        e.value_meta.value@.len() as int,
                        db.opt.value_threshold,
                    ) + 10
                    &&& final(self).read_ts == old(self).read_ts
                    &&& final(self).commit_ts == old(self).commit_ts
                    &&& final(self).txn_config == old(self).txn_config
                    &&& final(self).read_key_hash == old(self).read_key_hash
                    &&& final(self).discarded == old(self).discarded
                    &&& final(self).update == old(self).update
                    &&& final(self).num_iters == old(self).num_iters
                    &&& ({
                        let c0 = old(self).conflict_keys;
                        let c1 = final(self).conflict_keys;
                        c0 is Some ==> c1 is Some && c1.unwrap()@.len() == c0.unwrap()@.len() + 1
                            && c1.unwrap()@.subrange(0, c0.unwrap()@.len() as int) == c0.unwrap()@
                    })
                    &&& (old(self).conflict_keys is None ==> final(self).conflict_keys is None)
                    &&& ({
                        let p0 = old(self).pending_writes.unwrap()@;
                        let p1 = final(self).pending_writes.unwrap()@;
                        let d0 = old(self).duplicate_writes@;
                        let d1 = final(self).duplicate_writes@;
                        if (exists|idx: int| 0 <= idx < p0.len() && (#[trigger] p0[idx].key_ts.key@)
                            == e.key_ts.key@) {
                            exists|idx: int|
                                {
                                    &&& 0 <= idx < p0.len()
                                    &&& (#[trigger] p0[idx].key_ts.key@) == e.key_ts.key@
                                    &&& p1.len() == p0.len()
                                    &&& buffered_entry(p1[idx], e, db.opt.value_threshold)
                                    &&& (forall|x: int|
                                        0 <= x < p0.len() && x != idx ==> p1[x] == p0[x])
                                    &&& if p0[idx].key_ts.txn_ts != e.key_ts.txn_ts {
                                        d1.len() == d0.len() + 1 && d1.subrange(0, d0.len() as int)
                                            == d0 && crate::db::entry_fields_eq(
                                            d1.last(),
                                            p0[idx],
                                        )
                                    } else {
                                        d1 == d0
                                    }
                                }
                        } else {
                            &&& p1.len() == p0.len() + 1
                            &&& p1.subrange(0, p0.len() as int) == p0
                            &&& buffered_entry(p1.last(), e, db.opt.value_threshold)
                            &&& d1 == d0
                        }
                    })
                },
            },
    {
        if !self.update {
            return Err(DBError::ReadOnlyTxn);
        }
        if self.discarded {
            return Err(DBError::DiscardedTxn);
        }
        if e.key_ts.key.len() == 0 {
            return Err(DBError::EmptyKey);
        }
        let prefix = badger_prefix_bytes();
        if slice_starts_with(e.key_ts.key.as_slice(), prefix.as_slice()) {
            return Err(DBError::InvalidKey);
        }
        if e.key_ts.key.len() > MAX_KEY_SIZE {
            return Err(DBError::KeyTooBig);
        }
        if e.value_meta.value.len() > db.opt.vlog_file_size {
            return Err(DBError::ValueTooBig);
        }
        match db.is_banned(e.key_ts.key.as_slice()) {
            Ok(_) => {},
            Err(err) => {
                return Err(err);
            },
        }
        let mut e = e;
        e.try_set_value_threshold(db.opt.value_threshold);
        let est = e.estimate_size(db.opt.value_threshold);
        let new_count = self.count + 1;
        let new_size_wide: u128 = self.size as u128 + est as u128 + 10;
        if new_count >= db.opt.max_batch_count || new_size_wide >= db.opt.max_batch_size as u128 {
            return Err(DBError::TxnTooBig);
        }
        self.count = new_count;
        self.size = (new_size_wide) as usize;
        let hash = hash_key(&db.hash_state, e.key_ts.key.as_slice());
        match &mut self.conflict_keys {
            Some(c) => {
                c.push(hash);
            },
            None => {},
        }
        let new_version = e.key_ts.txn_ts;
        let pending = match &mut self.pending_writes {
            Some(p) => p,
            None => {
                return Err(DBError::ReadOnlyTxn);
            },
        };
        let ghost p0 = pending@;
        let mut found: Option<usize> = None;
        let mut i: usize = 0;
        while i < pending.len()
            invariant
                i <= p0.len(),
                pending@ == p0,
                match found {
                    None => forall|x: int| 0 <= x < i ==> (#[trigger] p0[x].key_ts.key@)
                        != e.key_ts.key@,
                    Some(idx) => 0 <= idx < i && p0[idx as int].key_ts.key@ == e.key_ts.key@,
                },
            decreases p0.len() - i,
        {
            if matches!(found, None) {
                let ord = cmp_bytes(pending[i].key_ts.key.as_slice(), e.key_ts.key.as_slice());
                proof {
                    lemma_lex_cmp_eq(p0[i as int].key_ts.key@, e.key_ts.key@);
                }
                if matches!(ord, core::cmp::Ordering::Equal) {
                    found = Some(i);
                }
            }
            i = i + 1;
        }
        match found {
            Some(idx) => {
                let old_entry = pending[idx].clone();
                pending.set(idx, e);
                if old_entry.key_ts.txn_ts.0 != new_version.0 {
                    self.duplicate_writes.push(old_entry);
                }
            },
            None => {
                pending.push(e);
            },
        }
        Ok(())
    }

    /// Buffers a plain write of `value` under `key`.
    pub fn set(&mut self, db: &Db, key: Vec<u8>, value: Vec<u8>) -> (r: Result<(), DBError>)
        requires
            txn_wf(*old(self)),
            db_wf(*db),
            old(self).count < usize::MAX,
            key@.len() + value@.len() + 14 <= usize::MAX,
        ensures
            txn_wf(*final(self)),
            match modify_err(*old(self), *db, key@, value@) {
                Some(err) => r == Err::<(), DBError>(err) && *final(self) == *old(self),
                None => {
                    &&& r is Ok
                    &&& fresh_write_ok(*old(self), *final(self), *db, key@, value@, 0)
                    &&& pending_holds(final(self).pending_writes.unwrap()@, key@, value@, 0)
                },
            },
    {
        self.modify(db, Entry::new(key, value))
    }

    /// Buffers a tombstone for `key`.
    pub fn delete(&mut self, db: &Db, key: Vec<u8>) -> (r: Result<(), DBError>)
        requires
            txn_wf(*old(self)),
            db_wf(*db),
            old(self).count < usize::MAX,
            key@.len() + 14 <= usize::MAX,
        ensures
            txn_wf(*final(self)),
            match modify_err(*old(self), *db, key@, Seq::empty()) {
                Some(err) => r == Err::<(), DBError>(err) && *final(self) == *old(self),
                None => {
                    &&& r is Ok
                    &&& fresh_write_ok(
                        *old(self),
                        *final(self),
                        *db,
                        key@,
                        Seq::empty(),
                        META_DELETE,
                    )
                    &&& pending_holds(
                        final(self).pending_writes.unwrap()@,
                        key@,
                        Seq::empty(),
                        META_DELETE,
                    )
                },
            },
    {
        let mut e = Entry::new(key, Vec::new());
        e.set_meta(Meta(META_DELETE));
        self.modify(db, e)
    }

    /// Buffers a caller-built entry.
    pub fn set_entry(&mut self, db: &Db, e: Entry) -> (r: Result<(), DBError>)
        requires
            txn_wf(*old(self)),
            db_wf(*db),
            old(self).count < usize::MAX,
            e.key_ts.key@.len() + e.value_meta.value@.len() + 14 <= usize::MAX,
        ensures
            txn_wf(*final(self)),
            match modify_err(*old(self), *db, e.key_ts.key@, e.value_meta.value@) {
                Some(err) => r == Err::<(), DBError>(err) && *final(self) == *old(self),
                None => r is Ok,
            },
    {
        self.modify(db, e)
    }
}

/// A value is a tombstone, or expired as of the instant `now`.
pub open spec fn vm_deleted_or_expired_at(vm: ValueMeta, now: PhyTs) -> bool {
    (vm.meta.0 & META_DELETE == META_DELETE) || (vm.expires_at.0 != 0 && vm.expires_at.0 <= now.0)
}

/// Some buffered write carries this user key.
pub open spec fn pending_has_key(p: Seq<Entry>, key: Seq<u8>) -> bool {
    exists|i: int| 0 <= i < p.len() && (#[trigger] p[i].key_ts.key@) == key
}

/// Everything of a transaction except its recorded read hashes is
/// unchanged.
pub open spec fn txn_eq_but_read_hash(t0: Txn, t1: Txn) -> bool {
    &&& t1.read_ts == t0.read_ts
    &&& t1.commit_ts == t0.commit_ts
    &&& t1.size == t0.size
    &&& t1.count == t0.count
    &&& t1.txn_config == t0.txn_config
    &&& t1.conflict_keys == t0.conflict_keys
    &&& t1.pending_writes == t0.pending_writes
    &&& t1.duplicate_writes == t0.duplicate_writes
    &&& t1.num_iters == t0.num_iters
    &&& t1.discarded == t0.discarded
    &&& t1.done_read == t0.done_read
    &&& t1.update == t0.update
}

/// Everything `get` owes, at the instant `now`: the refusals in order, the
/// buffered write consulted first, the read hash recorded for conflict
/// detection, and otherwise the newest visible version of the key with
/// tombstones and expired entries reported as missing.
pub open spec fn txn_get_post(
    t0: Txn,
    t1: Txn,
    db: Db,
    key: Seq<u8>,
    now: PhyTs,
    r: Result<(KeyTs, ValueMeta), DBError>,
) -> bool {
    if key.len() == 0 {
        r == Err::<(KeyTs, ValueMeta), DBError>(DBError::EmptyKey) && t1 == t0
    } else if t0.discarded {
        r == Err::<(KeyTs, ValueMeta), DBError>(DBError::DiscardedTxn) && t1 == t0
    } else if is_banned_spec(db.opt.banned_prefixes@, key) {
        r == Err::<(KeyTs, ValueMeta), DBError>(DBError::BannedKey) && t1 == t0
    } else if t0.update && pending_has_key(t0.pending_writes.unwrap()@, key) {
        let p = t0.pending_writes.unwrap()@;
        t1 == t0 && exists|i: int|
            {
                &&& 0 <= i < p.len()
                &&& (#[trigger] p[i].key_ts.key@) == key
                &&& if vm_deleted_or_expired_at(p[i].value_meta, now) {
                    r == Err::<(KeyTs, ValueMeta), DBError>(DBError::KeyNotFound)
                } else {
                    &&& r is Ok
                    &&& r.unwrap().0.key@ == key
                    &&& r.unwrap().0.txn_ts == t0.read_ts
                    &&& r.unwrap().1.value@ == p[i].value_meta.value@
                    &&& r.unwrap().1.expires_at == p[i].value_meta.expires_at
                    &&& r.unwrap().1.user_meta == p[i].value_meta.user_meta
                    &&& r.unwrap().1.meta == p[i].value_meta.meta
                }
            }
    } else {
        &&& (t0.update ==> txn_eq_but_read_hash(t0, t1) && t1.read_key_hash@.len()
            == t0.read_key_hash@.len() + 1 && t1.read_key_hash@.subrange(
            0,
            t0.read_key_hash@.len() as int,
        ) == t0.read_key_hash@)
        &&& (!t0.update ==> t1 == t0)
        &&& store_get_outcome(db.store.entries@, key, t0.read_ts, now, r)
    }
}

/// What the tree read owes: no visible version means `KeyNotFound`; else
/// the newest visible version decides, with an empty unflagged value, a
/// tombstone or an expired entry reported as missing.
pub open spec fn store_get_outcome(
    entries: Seq<Entry>,
    key: Seq<u8>,
    read_ts: TxnTs,
    now: PhyTs,
    r: Result<(KeyTs, ValueMeta), DBError>,
) -> bool {
    &&& ((forall|i: int|
        0 <= i < entries.len() ==> !entry_visible(#[trigger] entries[i], key, read_ts.0)) ==> r
        == Err::<(KeyTs, ValueMeta), DBError>(DBError::KeyNotFound))
    &&& ((exists|i: int| 0 <= i < entries.len() && entry_visible(#[trigger] entries[i], key, read_ts.0))
        ==> exists|ts: TxnTs, vm: ValueMeta|
        {
            &&& #[trigger] crate::db::store_hit(entries, key, read_ts.0, ts, vm)
            &&& if vm.value@.len() == 0 && vm.meta.0 == 0 {
                r == Err::<(KeyTs, ValueMeta), DBError>(DBError::KeyNotFound)
            } else if vm_deleted_or_expired_at(vm, now) {
                r == Err::<(KeyTs, ValueMeta), DBError>(DBError::KeyNotFound)
            } else {
                &&& r is Ok
                &&& r.unwrap().0.key@ == key
                &&& r.unwrap().0.txn_ts == ts
                &&& r.unwrap().1.value@ == vm.value@
                &&& r.unwrap().1.expires_at == vm.expires_at
                &&& r.unwrap().1.user_meta == vm.user_meta
                &&& r.unwrap().1.meta == vm.meta
            }
        })
}

impl Txn {
    /// Reads `key` as of the instant `now`: buffered writes first, then the
    /// newest version visible at the snapshot. On an update transaction a
    /// tree read records the key's hash for conflict detection.
    pub fn get_at(&mut self, db: &Db, key: &[u8], now: PhyTs) -> (r: Result<
        (KeyTs, ValueMeta),
        DBError,
    >)
        requires
            txn_wf(*old(self)),
        ensures
            txn_wf(*final(self)),
            txn_get_post(*old(self), *final(self), *db, key@, now, r),
    {
        if key.len() == 0 {
            return Err(DBError::EmptyKey);
        }
        if self.discarded {
            return Err(DBError::DiscardedTxn);
        }
        match db.is_banned(key) {
            Ok(_) => {},
            Err(err) => {
                return Err(err);
            },
        }
        if self.update {
            let pending = match &self.pending_writes {
                Some(p) => p,
                None => {
                    return Err(DBError::DiscardedTxn);
                },
            };
            let ghost p0 = pending@;
            let mut found: Option<usize> = None;
            let mut i: usize = 0;
            while i < pending.len()
                invariant
                    i <= p0.len(),
                    pending@ == p0,
                    match found {
                        None => forall|x: int|
                            0 <= x < i ==> (#[trigger] p0[x].key_ts.key@) != key@,
                        Some(idx) => 0 <= idx < i && p0[idx as int].key_ts.key@ == key@,
                    },
                decreases p0.len() - i,
            {
                if matches!(found, None) {
                    let ord = cmp_bytes(pending[i].key_ts.key.as_slice(), key);
                    proof {
                        lemma_lex_cmp_eq(p0[i as int].key_ts.key@, key@);
                    }
                    if matches!(ord, core::cmp::Ordering::Equal) {
                        found = Some(i);
                    }
                }
                i = i + 1;
            }
            match found {
                Some(idx) => {
                    proof {
                        assert(p0[idx as int].key_ts.key@ == key@);
                        assert(pending_has_key(p0, key@));
                    }
                    let e = &pending[idx];
                    if e.value_meta.is_deleted_or_expired_at(now) {
                        proof {
                            assert(0 <= idx < p0.len() && p0[idx as int].key_ts.key@ == key@
                                && vm_deleted_or_expired_at(p0[idx as int].value_meta, now));
                        }
                        return Err(DBError::KeyNotFound);
                    }
                    let key_copy = crate::codec::copy_slice(key);
                    let r = Ok((KeyTs::new(key_copy, self.read_ts), e.value_meta.clone()));
                    proof {
                        assert(0 <= idx < p0.len() && p0[idx as int].key_ts.key@ == key@
                            && !vm_deleted_or_expired_at(p0[idx as int].value_meta, now));
                    }
                    return r;
                },
                None => {
                    let h = hash_key(&db.hash_state, key);
                    self.read_key_hash.push(h);
                    proof {
                        assert(self.read_key_hash@.subrange(
                            0,
                            old(self).read_key_hash@.len() as int,
                        ) =~= old(self).read_key_hash@);
                    }
                },
            }
        }
        let looked_up = db.store.get(key, self.read_ts.0);
        match looked_up {
            None => Err(DBError::KeyNotFound),
            Some((ts, vm)) => {
                proof {
                    assert(crate::db::store_hit(db.store.entries@, key@, self.read_ts.0, ts, vm));
                }
                if vm.value.len() == 0 && vm.meta.0 == 0 {
                    return Err(DBError::KeyNotFound);
                }
                if vm.is_deleted_or_expired_at(now) {
                    return Err(DBError::KeyNotFound);
                }
                let key_copy = crate::codec::copy_slice(key);
                Ok((KeyTs::new(key_copy, ts), vm))
            },
        }
    }

    /// Reads `key` against the wall clock: everything `get_at` owes holds
    /// of some reading of the clock.
    pub fn get(&mut self, db: &Db, key: &[u8]) -> (r: Result<(KeyTs, ValueMeta), DBError>)
        requires
            txn_wf(*old(self)),
        ensures
            txn_wf(*final(self)),
            exists|now: PhyTs| txn_get_post(*old(self), *final(self), *db, key@, now, r),
    {
        let now = match PhyTs::now() {
            Some(n) => n,
            None => PhyTs(0),
        };
        self.get_at(db, key, now)
    }
}

/// A freshly buffered entry: the given key, value and flags, version zero,
/// no expiry, no caller byte, and the engine's value threshold.
pub open spec fn buffered_fresh(e1: Entry, key: Seq<u8>, value: Seq<u8>, meta: u8, thr: usize) -> bool {
    &&& e1.key_ts.key@ == key
    &&& e1.key_ts.txn_ts.0 == 0
    &&& e1.value_meta.value@ == value
    &&& e1.value_meta.expires_at.0 == 0
    &&& e1.value_meta.user_meta == 0
    &&& e1.value_meta.meta.0 == meta
    &&& e1.offset == 0
    &&& e1.header_len == 0
    &&& e1.value_threshold == thr
}

/// Everything a fresh buffered write leaves of the transaction: the
/// counters step, the write lands in the buffer (replacing a pending write
/// under the same key, which moves aside when it carried a version of its
/// own), a conflict hash is recorded when tracked, and the rest of the
/// transaction is untouched.
pub open spec fn fresh_write_ok(
    t0: Txn,
    t1: Txn,
    db: Db,
    key: Seq<u8>,
    value: Seq<u8>,
    meta: u8,
) -> bool {
    &&& t1.count == t0.count + 1
    &&& t1.size == t0.size + estimate_size_of(
        key.len() as int,
        value.len() as int,
        db.opt.value_threshold,
    ) + 10
    &&& t1.read_ts == t0.read_ts
    &&& t1.commit_ts == t0.commit_ts
    &&& t1.txn_config == t0.txn_config
    &&& t1.read_key_hash == t0.read_key_hash
    &&& t1.discarded == t0.discarded
    &&& t1.update == t0.update
    &&& t1.num_iters == t0.num_iters
    &&& (t0.conflict_keys is Some ==> t1.conflict_keys is Some
        && t1.conflict_keys.unwrap()@.len() == t0.conflict_keys.unwrap()@.len() + 1
        && t1.conflict_keys.unwrap()@.subrange(0, t0.conflict_keys.unwrap()@.len() as int)
        == t0.conflict_keys.unwrap()@)
    &&& (t0.conflict_keys is None ==> t1.conflict_keys is None)
    &&& ({
        let p0 = t0.pending_writes.unwrap()@;
        let p1 = t1.pending_writes.unwrap()@;
        let d0 = t0.duplicate_writes@;
        let d1 = t1.duplicate_writes@;
        if (exists|idx: int| 0 <= idx < p0.len() && (#[trigger] p0[idx].key_ts.key@) == key) {
            exists|idx: int|
                {
                    &&& 0 <= idx < p0.len()
                    &&& (#[trigger] p0[idx].key_ts.key@) == key
                    &&& p1.len() == p0.len()
                    &&& buffered_fresh(p1[idx], key, value, meta, db.opt.value_threshold)
                    &&& (forall|x: int| 0 <= x < p0.len() && x != idx ==> p1[x] == p0[x])
                    &&& if p0[idx].key_ts.txn_ts.0 != 0 {
                        d1.len() == d0.len() + 1 && d1.subrange(0, d0.len() as int) == d0
                            && crate::db::entry_fields_eq(d1.last(), p0[idx])
                    } else {
                        d1 == d0
                    }
                }
        } else {
            &&& p1.len() == p0.len() + 1
            &&& p1.subrange(0, p0.len() as int) == p0
            &&& buffered_fresh(p1.last(), key, value, meta, db.opt.value_threshold)
            &&& d1 == d0
        }
    })
}

/// Some buffered write carries this key, value, meta and version zero.
pub open spec fn pending_holds(p: Seq<Entry>, key: Seq<u8>, value: Seq<u8>, meta: u8) -> bool {
    exists|i: int|
        {
            &&& 0 <= i < p.len()
            &&& (#[trigger] p[i].key_ts.key@) == key
            &&& p[i].key_ts.txn_ts.0 == 0
            &&& p[i].value_meta.value@ == value
            &&& p[i].value_meta.meta.0 == meta
        }
}

// ---------------------------------------------------------------------------
// Commit
// ---------------------------------------------------------------------------

/// Every buffered write is still unversioned, so the whole batch can be
/// stamped with one commit timestamp and terminated with a commit marker.
pub open spec fn batch_keep_together(p: Seq<Entry>, d: Seq<Entry>) -> bool {
    &&& forall|i: int| 0 <= i < p.len() ==> (#[trigger] p[i].key_ts.txn_ts.0) == 0
    &&& forall|i: int| 0 <= i < d.len() ==> (#[trigger] d[i].key_ts.txn_ts.0) == 0
}

/// An upper bound on the value-log budget a commit's batch claims: the
/// buffered writes, the duplicates, and a terminator of at most
/// seventy-five bytes.
pub open spec fn commit_budget(p: Seq<Entry>, d: Seq<Entry>) -> int {
    crate::db::entries_budget(p) + crate::db::entries_budget(d) + 75
}

/// When a commit's write is owed success by the value log: the batch bound
/// fits from the current offset, a rotation has id headroom, and either the
/// bound also fits a fresh file or the rotation threshold lies beyond a
/// file's largest offset.
pub open spec fn commit_fits(db: Db, p: Seq<Entry>, d: Seq<Entry>) -> bool {
    &&& db.vlog.writable_log_offset as int + commit_budget(p, d)
        <= crate::vlog::MAX_VLOG_FILE_SIZE as int
    &&& db.vlog.files@.len() + 1 < u32::MAX
    &&& ((db.vlog.config.vlog_file_size as int > crate::vlog::MAX_VLOG_FILE_SIZE as int)
        || commit_budget(p, d) + db.vlog.config.vlog_file_size as int
        <= crate::vlog::MAX_VLOG_FILE_SIZE as int)
}

/// `b` is `src` as the commit stamps it: unversioned entries take the
/// commit timestamp, and a grouped commit marks every entry as part of the
/// group.
pub open spec fn stamped_from(b: Entry, src: Entry, ts: TxnTs, keep: bool) -> bool {
    &&& b.key_ts.key@ == src.key_ts.key@
    &&& b.key_ts.txn_ts == (if src.key_ts.txn_ts.0 == 0 {
        ts
    } else {
        src.key_ts.txn_ts
    })
    &&& b.value_meta.value@ == src.value_meta.value@
    &&& b.value_meta.expires_at == src.value_meta.expires_at
    &&& b.value_meta.user_meta == src.value_meta.user_meta
    &&& b.value_meta.meta.0 == (if keep {
        src.value_meta.meta.0 | META_TXN
    } else {
        src.value_meta.meta.0
    })
    &&& b.offset == src.offset
    &&& b.header_len == src.header_len
    &&& b.value_threshold == src.value_threshold
}

/// `b` is the commit-group terminator for timestamp `ts`: written under the
/// reserved key, carrying the timestamp in decimal as its value.
pub open spec fn fin_entry_like(b: Entry, ts: TxnTs) -> bool {
    &&& b.key_ts.key@ == txn_key()
    &&& b.key_ts.txn_ts == ts
    &&& b.value_meta.value@ == u64_dec_digits(ts.0)
    &&& b.value_meta.meta.0 == META_FIN_TXN
    &&& b.value_meta.expires_at.0 == 0
    &&& b.value_meta.user_meta == 0
}

/// A buffered write landed in the store as `se`: some stamped copy of it
/// went through the write path's threshold rule.
pub open spec fn landed(
    src: Entry,
    se: Entry,
    files: Seq<crate::vlog::VlogFile>,
    threshold: usize,
    ts: TxnTs,
    keep: bool,
) -> bool {
    exists|b: Entry|
        #[trigger] stamped_from(b, src, ts, keep) && applied_entry_ok(b, se, files, threshold)
}

/// The commit terminator landed in the store as `se`.
pub open spec fn fin_landed(
    se: Entry,
    files: Seq<crate::vlog::VlogFile>,
    threshold: usize,
    ts: TxnTs,
) -> bool {
    exists|b: Entry|
        #[trigger] fin_entry_like(b, ts) && applied_entry_ok(b, se, files, threshold)
}

/// What a finished commit leaves in the engine: the store grows by exactly
/// the stamped batch, in buffer order, duplicates after pending writes and
/// the terminator last; each landed via the write path's threshold rule.
pub open spec fn commit_applied(
    t0: Txn,
    store0: Seq<Entry>,
    threshold: usize,
    store1: Seq<Entry>,
    files1: Seq<crate::vlog::VlogFile>,
    ts: TxnTs,
) -> bool {
    let p = t0.pending_writes.unwrap()@;
    let d = t0.duplicate_writes@;
    let keep = batch_keep_together(p, d);
    let base = store0.len() as int;
    let n = p.len() + d.len() + (if keep {
        1int
    } else {
        0int
    });
    &&& store1.len() == store0.len() + n
    &&& forall|i: int| 0 <= i < store0.len() ==> store1[i] == store0[i]
    &&& forall|k: int|
        0 <= k < p.len() ==> landed(p[k], #[trigger] store1[base + k], files1, threshold, ts, keep)
    &&& forall|k: int|
        0 <= k < d.len() ==> landed(
            d[k],
            #[trigger] store1[base + p.len() + k],
            files1,
            threshold,
            ts,
            keep,
        )
    &&& (keep ==> fin_landed(store1.last(), files1, threshold, ts))
}

/// Copies a hash list.
fn clone_hashes(v: &Vec<u64>) -> (r: Vec<u64>)
    ensures
        r@ =~= v@,
{
    let mut out: Vec<u64> = Vec::new();
    let mut i: usize = 0;
    while i < v.len()
        invariant
            i <= v@.len(),
            out@ =~= v@.subrange(0, i as int),
        decreases v@.len() - i,
    {
        out.push(v[i]);
        i = i + 1;
    }
    proof {
        assert(out@ =~= v@);
    }
    out
}

impl Txn {
    /// Refuses to start a commit on a discarded transaction, and demands a
    /// caller-supplied timestamp for a grouped commit under managed mode.
    pub fn commit_pre_check(&self) -> (r: Result<(), DBError>)
        ensures
            if self.discarded {
                r == Err::<(), DBError>(DBError::DiscardedTxn)
            } else if (self.pending_writes is None || (forall|i: int|
                0 <= i < self.pending_writes.unwrap()@.len() ==> (#[trigger] self.pending_writes.unwrap()@[i].key_ts.txn_ts.0)
                    == 0)) && self.txn_config.managed_txns && self.commit_ts.0 == 0 {
                r == Err::<(), DBError>(DBError::ZeroCommitTs)
            } else {
                r is Ok
            },
    {
        if self.discarded {
            return Err(DBError::DiscardedTxn);
        }
        let mut keep_together = true;
        match &self.pending_writes {
            None => {},
            Some(p) => {
                let mut i: usize = 0;
                while i < p.len()
                    invariant
                        i <= p@.len(),
                        keep_together <==> (forall|x: int|
                            0 <= x < i ==> (#[trigger] p@[x].key_ts.txn_ts.0) == 0),
                    decreases p@.len() - i,
                {
                    if p[i].key_ts.txn_ts.0 != 0 {
                        keep_together = false;
                    }
                    i = i + 1;
                }
            },
        }
        if keep_together && self.txn_config.managed_txns && self.commit_ts.0 == 0 {
            return Err(DBError::ZeroCommitTs);
        }
        Ok(())
    }

    /// Assigns the commit timestamp (or fails with `Conflict`), stamps the
    /// buffered writes, appends the commit marker to a grouped batch, and
    /// hands the batch to the write path.
    #[verifier::rlimit(80)]
    pub fn commit_and_send(&mut self, db: &mut Db) -> (r: Result<TxnTs, DBError>)
        requires
            txn_wf(*old(self)),
            db_wf(*old(db)),
            old(self).pending_writes is Some,
            old(db).oracle.next_ts.0 < u64::MAX,
        ensures
            txn_wf(*final(self)),
            db_wf(*final(db)),
            final(db).opt == old(db).opt,
            ({
                let managed = old(self).txn_config.managed_txns;
                let conflict = old(db).oracle.detect_conflicts && old(self).read_key_hash@.len()
                    > 0 && spec_has_conflict(
                    old(db).oracle.committed@,
                    old(self).read_ts.0,
                    old(self).read_key_hash@,
                );
                &&& (!managed && conflict ==> r == Err::<TxnTs, DBError>(DBError::Conflict)
                    && *final(db) == *old(db) && *final(self) == *old(self))
                &&& (!managed && !conflict && r is Err ==> ({
                    let assigned = old(db).oracle.next_ts.0;
                    &&& final(db).oracle.next_ts.0 == assigned + 1
                    &&& final(db).oracle.commit_mark.0 == (if assigned
                        > old(db).oracle.commit_mark.0 {
                        assigned
                    } else {
                        old(db).oracle.commit_mark.0
                    })
                }))
                &&& (!managed && !conflict && r is Ok ==> r.unwrap() == old(db).oracle.next_ts
                    && final(db).oracle.next_ts.0 == old(db).oracle.next_ts.0 + 1)
                &&& (managed && r is Ok ==> r.unwrap() == old(self).commit_ts && final(db).oracle
                    == old(db).oracle)
                &&& (r is Ok ==> commit_applied(
                    *old(self),
                    old(db).store.entries@,
                    old(db).opt.value_threshold,
                    final(db).store.entries@,
                    final(db).vlog.files@,
                    r.unwrap(),
                ) && final(self).commit_ts == r.unwrap() && final(self).pending_writes is Some
                    && final(self).pending_writes.unwrap()@.len() == 0
                    && final(self).duplicate_writes@.len() == 0)
                &&& (!conflict && commit_fits(
                    *old(db),
                    old(self).pending_writes.unwrap()@,
                    old(self).duplicate_writes@,
                ) ==> r is Ok)
            }),
    {
        let managed = self.txn_config.managed_txns;
        let commit_ts: TxnTs;
        if managed {
            commit_ts = self.commit_ts;
        } else {
            let cks = match &self.conflict_keys {
                Some(v) => clone_hashes(v),
                None => Vec::new(),
            };
            match db.oracle.get_latest_commit_ts(self.read_ts, &self.read_key_hash, cks) {
                Ok(ts) => {
                    commit_ts = ts;
                },
                Err(e) => {
                    return Err(e);
                },
            }
        }
        let mut taken: Option<Vec<Entry>> = None;
        core::mem::swap(&mut self.pending_writes, &mut taken);
        let pending = match taken {
            Some(p) => p,
            None => {
                return Err(DBError::DiscardedTxn);
            },
        };
        let mut dups: Vec<Entry> = Vec::new();
        core::mem::swap(&mut self.duplicate_writes, &mut dups);
        let ghost p0 = pending@;
        let ghost d0 = dups@;
        proof {
            assert(p0 == old(self).pending_writes.unwrap()@);
            assert(d0 == old(self).duplicate_writes@);
        }
        // First pass: may the whole batch share one timestamp?
        let mut keep_together = true;
        let mut i: usize = 0;
        while i < pending.len()
            invariant
                i <= p0.len(),
                pending@ == p0,
                keep_together <==> (forall|x: int|
                    0 <= x < i ==> (#[trigger] p0[x].key_ts.txn_ts.0) == 0),
            decreases p0.len() - i,
        {
            if pending[i].key_ts.txn_ts.0 != 0 {
                keep_together = false;
            }
            i = i + 1;
        }
        let mut j: usize = 0;
        while j < dups.len()
            invariant
                j <= d0.len(),
                dups@ == d0,
                pending@ == p0,
                keep_together <==> ((forall|x: int|
                    0 <= x < p0.len() ==> (#[trigger] p0[x].key_ts.txn_ts.0) == 0) && (forall|
                    x: int,
                |
                    0 <= x < j ==> (#[trigger] d0[x].key_ts.txn_ts.0) == 0)),
            decreases d0.len() - j,
        {
            if dups[j].key_ts.txn_ts.0 != 0 {
                keep_together = false;
            }
            j = j + 1;
        }
        proof {
            assert(keep_together == batch_keep_together(p0, d0));
        }
        // Second pass: stamp versions and group flags.
        let mut entries: Vec<Entry> = Vec::new();
        let mut i: usize = 0;
        while i < pending.len()
            invariant
                i <= p0.len(),
                pending@ == p0,
                entries@.len() == i,
                crate::db::entries_budget(entries@) == crate::db::entries_budget(
                    p0.subrange(0, i as int),
                ),
                forall|x: int|
                    0 <= x < i ==> stamped_from(
                        #[trigger] entries@[x],
                        p0[x],
                        commit_ts,
                        keep_together,
                    ),
            decreases p0.len() - i,
        {
            let mut e = pending[i].clone();
            if e.key_ts.txn_ts.0 == 0 {
                e.set_version(commit_ts);
            }
            if keep_together {
                e.insert_meta(META_TXN);
            }
            proof {
                assert(p0.subrange(0, i + 1).drop_last() =~= p0.subrange(0, i as int));
                assert(p0.subrange(0, i + 1).last() == p0[i as int]);
                assert(entries@.push(e).drop_last() =~= entries@);
                assert(crate::vlog::entry_budget(e) == crate::vlog::entry_budget(p0[i as int]));
            }
            entries.push(e);
            i = i + 1;
        }
        proof {
            assert(p0.subrange(0, p0.len() as int) =~= p0);
        }
        let mut j: usize = 0;
        while j < dups.len()
            invariant
                j <= d0.len(),
                dups@ == d0,
                pending@ == p0,
                entries@.len() == p0.len() + j,
                crate::db::entries_budget(entries@) == crate::db::entries_budget(p0)
                    + crate::db::entries_budget(d0.subrange(0, j as int)),
                forall|x: int|
                    0 <= x < p0.len() ==> stamped_from(
                        #[trigger] entries@[x],
                        p0[x],
                        commit_ts,
                        keep_together,
                    ),
                forall|x: int|
                    0 <= x < j ==> stamped_from(
                        #[trigger] entries@[p0.len() + x],
                        d0[x],
                        commit_ts,
                        keep_together,
                    ),
            decreases d0.len() - j,
        {
            let mut e = dups[j].clone();
            if e.key_ts.txn_ts.0 == 0 {
                e.set_version(commit_ts);
            }
            if keep_together {
                e.insert_meta(META_TXN);
            }
            proof {
                assert(d0.subrange(0, j + 1).drop_last() =~= d0.subrange(0, j as int));
                assert(d0.subrange(0, j + 1).last() == d0[j as int]);
                assert(entries@.push(e).drop_last() =~= entries@);
                assert(crate::vlog::entry_budget(e) == crate::vlog::entry_budget(d0[j as int]));
            }
            entries.push(e);
            j = j + 1;
        }
        proof {
            assert(d0.subrange(0, d0.len() as int) =~= d0);
        }
        if keep_together {
            let mut fin = Entry::new(txn_key_bytes(), u64_to_decimal(commit_ts.0));
            fin.set_version(commit_ts);
            fin.set_meta(Meta(META_FIN_TXN));
            proof {
                assert(fin_entry_like(fin, commit_ts));
                crate::codec::lemma_dec_len_le_20(commit_ts.0);
                assert(entries@.push(fin).drop_last() =~= entries@);
                assert(crate::vlog::entry_budget(fin) <= 75);
            }
            entries.push(fin);
        }
        let ghost batch = entries@;
        proof {
            crate::db::lemma_entries_budget_nonneg(batch);
            assert(crate::db::entries_budget(batch) <= commit_budget(p0, d0));
        }
        let ghost store_before = db.store.entries@;
        let ghost thr = db.opt.value_threshold;
        let ghost fits = commit_fits(*old(db), p0, d0);
        proof {
            if fits {
                // The oracle only touched its own state, so the value log
                // still has the room the bound promises.
                assert(db.vlog == old(db).vlog);
                assert(crate::db::apply_fits(*db, batch));
            }
        }
        match db.apply_batch(entries) {
            Ok(_) => {},
            Err(e) => {
                proof {
                    if fits {
                        assert(false);
                    }
                }
                if !managed {
                    db.oracle.done_commit(commit_ts);
                }
                self.pending_writes = Some(Vec::new());
                return Err(e);
            },
        }
        self.commit_ts = commit_ts;
        self.pending_writes = Some(Vec::new());
        proof {
            let t0 = *old(self);
            let p = t0.pending_writes.unwrap()@;
            let d = t0.duplicate_writes@;
            let keep = batch_keep_together(p, d);
            let base = store_before.len() as int;
            let store1 = db.store.entries@;
            let files1 = db.vlog.files@;
            assert(p == p0);
            assert(d == d0);
            assert(keep == batch_keep_together(p0, d0));
            assert forall|k: int| 0 <= k < p.len() implies landed(
                p[k],
                #[trigger] store1[base + k],
                files1,
                thr,
                commit_ts,
                keep,
            ) by {
                assert(stamped_from(batch[k], p[k], commit_ts, keep));
                assert(applied_entry_ok(batch[k], store1[base + k], files1, thr));
            }
            assert forall|k: int| 0 <= k < d.len() implies landed(
                d[k],
                #[trigger] store1[base + p.len() + k],
                files1,
                thr,
                commit_ts,
                keep,
            ) by {
                let kk = p0.len() as int + k;
                assert(stamped_from(batch[kk], d[k], commit_ts, keep));
                assert(applied_entry_ok(batch[kk], store1[base + kk], files1, thr));
                assert(store1[base + kk] == store1[base + p.len() + k]);
            }
            assert(batch.len() == p.len() + d.len() + (if keep {
                1int
            } else {
                0int
            }));
            assert(store1.len() == store_before.len() + batch.len());
            if keep {
                let kk = batch.len() as int - 1;
                assert(fin_entry_like(batch.last(), commit_ts));
                assert(applied_entry_ok(batch[kk], store1[base + kk], files1, thr));
                assert(store1.last() == store1[base + kk]);
                assert(applied_entry_ok(batch.last(), store1.last(), files1, thr));
                assert(fin_landed(store1.last(), files1, thr, commit_ts));
            }
            assert(commit_applied(t0, store_before, thr, store1, files1, commit_ts));
        }
        Ok(commit_ts)
    }

    /// Commits the transaction: nothing buffered commits trivially; else
    /// the batch is stamped, applied, and the commit made visible.
    pub fn commit(&mut self, db: &mut Db) -> (r: Result<(), DBError>)
        requires
            txn_wf(*old(self)),
            db_wf(*old(db)),
            old(db).oracle.next_ts.0 < u64::MAX,
        ensures
            txn_wf(*final(self)),
            db_wf(*final(db)),
            final(db).opt == old(db).opt,
            (old(self).pending_writes is None || old(self).pending_writes.unwrap()@.len() == 0)
                ==> r is Ok && *final(db) == *old(db) && *final(self) == *old(self),
            ({
                let managed = old(self).txn_config.managed_txns;
                let conflict = old(db).oracle.detect_conflicts && old(self).read_key_hash@.len()
                    > 0 && spec_has_conflict(
                    old(db).oracle.committed@,
                    old(self).read_ts.0,
                    old(self).read_key_hash@,
                );
                old(self).pending_writes is Some && old(self).pending_writes.unwrap()@.len() > 0
                    && !old(self).discarded && !managed ==> {
                    &&& (conflict ==> r == Err::<(), DBError>(DBError::Conflict) && *final(db)
                        == *old(db) && *final(self) == *old(self))
                    &&& (!conflict && r is Err ==> ({
                        let assigned = old(db).oracle.next_ts.0;
                        &&& final(db).oracle.next_ts.0 == assigned + 1
                        &&& final(db).oracle.commit_mark.0 == (if assigned
                            > old(db).oracle.commit_mark.0 {
                            assigned
                        } else {
                            old(db).oracle.commit_mark.0
                        })
                    }))
                    &&& (r is Ok ==> exists|ts: TxnTs|
                        commit_applied(
                            *old(self),
                            old(db).store.entries@,
                            old(db).opt.value_threshold,
                            final(db).store.entries@,
                            final(db).vlog.files@,
                            ts,
                        ) && ts == old(db).oracle.next_ts)
                    &&& (!conflict && commit_fits(
                        *old(db),
                        old(self).pending_writes.unwrap()@,
                        old(self).duplicate_writes@,
                    ) ==> r is Ok)
                }
            }),
    {
        match &self.pending_writes {
            None => {
                return Ok(());
            },
            Some(p) => {
                if p.len() == 0 {
                    return Ok(());
                }
            },
        }
        match self.commit_pre_check() {
            Ok(_) => {},
            Err(e) => {
                return Err(e);
            },
        }
        let ghost db_before = *db;
        let commit_ts = match self.commit_and_send(db) {
            Ok(ts) => ts,
            Err(e) => {
                return Err(e);
            },
        };
        db.oracle.done_commit(commit_ts);
        proof {
            if !old(self).txn_config.managed_txns {
                assert(commit_applied(
                    *old(self),
                    old(db).store.entries@,
                    old(db).opt.value_threshold,
                    db.store.entries@,
                    db.vlog.files@,
                    commit_ts,
                ));
            }
        }
        Ok(())
    }

    /// Discards the transaction; idempotent. A discard with an open
    /// iterator is excluded by contract: the engine would have to abort.
    pub fn discard(&mut self, db: &mut Db)
        requires
            old(self).num_iters == 0,
        ensures
            final(self).discarded,
            !old(self).discarded && !old(self).txn_config.managed_txns ==> ({
                let mark = final(db).oracle.read_mark.0;
                mark == if old(self).read_ts.0 > old(db).oracle.read_mark.0 {
                    old(self).read_ts.0
                } else {
                    old(db).oracle.read_mark.0
                }
            }),
            old(self).txn_config.managed_txns ==> *final(db) == *old(db),
            old(self).discarded ==> *final(self) == *old(self) && *final(db) == *old(db),
    {
        if self.discarded {
            return ;
        }
        self.discarded = true;
        if !self.txn_config.managed_txns {
            db.oracle.done_read(self.read_ts);
        }
    }
}

impl Db {
    /// Hands out an update transaction. Managed-timestamp mode brings its
    /// own transaction constructors, so it is excluded here, as is a closed
    /// engine.
    pub fn get_update_txn(&self) -> (r: Result<Txn, DBError>)
        requires
            db_wf(*self),
            !self.opt.managed_txns,
        ensures
            self.closed ==> r == Err::<Txn, DBError>(DBError::DBClosed),
            !self.closed ==> r is Ok && txn_wf(r.unwrap()) && r.unwrap().update
                == !self.opt.read_only && r.unwrap().read_ts.0 == self.oracle.next_ts.0 - 1,
    {
        if self.is_closed() {
            return Err(DBError::DBClosed);
        }
        Ok(Txn::new(self, true, false))
    }
}

} // verus!
