//! The versioned key model: transaction timestamps, meta flags, `KeyTs` with
//! its total order (ascending user key, descending version), the borrowed
//! serialized-key comparator, value metadata and value pointers.

use vstd::prelude::*;

use crate::codec::cmp_bytes;
use crate::codec::copy_slice;
use crate::codec::lemma_lex_cmp_antisym;
use crate::codec::lemma_lex_cmp_eq;
use crate::codec::lemma_lex_cmp_trans;
use crate::codec::lemma_u64_be_roundtrip;
use crate::codec::lex_cmp;
use crate::codec::push_u64_be;
use crate::codec::read_u64_be;
use crate::codec::u64_be_bytes;
use crate::codec::extend_from_slice;
use crate::codec::lemma_u32_be_roundtrip;
use crate::codec::lemma_varint_dec_len;
use crate::codec::lemma_varint_len_le_10;
use crate::codec::lemma_varint_roundtrip;
use crate::codec::push_u32_be;
use crate::codec::push_varint;
use crate::codec::read_u32_be;
use crate::codec::read_varint;
use crate::codec::u32_be_bytes;
use crate::codec::u32_from_be_spec;
use crate::codec::u64_from_be_spec;
use crate::codec::varint_dec;
use crate::codec::varint_enc;
use crate::codec::varint_len;

verus! {

/// A transaction timestamp (the version of a write).
#[derive(Debug, Clone, Copy, PartialEq, Eq, Structural, Hash)]
pub struct TxnTs(pub u64);

impl TxnTs {
    pub fn to_u64(&self) -> (r: u64)
        ensures
            r == self.0,
    {
        self.0
    }

    pub fn new(v: u64) -> (r: TxnTs)
        ensures
            r.0 == v,
    {
        TxnTs(v)
    }
}

impl Default for TxnTs {
    fn default() -> (r: Self)
        ensures
            r.0 == 0,
    {
        TxnTs(0)
    }
}

/// Physical seconds since the Unix epoch; used only for entry expiry.
#[derive(Debug, Clone, Copy, PartialEq, Eq, Structural, Hash)]
pub struct PhyTs(pub u64);

impl PhyTs {
    pub fn to_u64(&self) -> (r: u64)
        ensures
            r == self.0,
    {
        self.0
    }

    pub fn new(v: u64) -> (r: PhyTs)
        ensures
            r.0 == v,
    {
        PhyTs(v)
    }

    /// Relies on std's `SystemTime::now`, read as whole seconds since the
    /// Unix epoch; `None` when the clock reads before the epoch.
    #[verifier::external_body]
    pub fn now() -> (r: Option<PhyTs>) {
        match std::time::SystemTime::now().duration_since(std::time::UNIX_EPOCH) {
            Ok(d) => Some(PhyTs(d.as_secs())),
            Err(_) => None,
        }
    }
}

impl Default for PhyTs {
    fn default() -> (r: Self)
        ensures
            r.0 == 0,
    {
        PhyTs(0)
    }
}

/// Marks an entry as a tombstone.
pub const META_DELETE: u8 = 1;

/// The value body lives in the value log; the entry holds a pointer.
pub const META_VALUE_POINTER: u8 = 2;

/// Older versions of this key may be dropped by compaction.
pub const META_DISCARD_EARLIER_VERSIONS: u8 = 4;

/// The entry is a merge-operator operand.
pub const META_MERGE_ENTRY: u8 = 8;

/// The entry belongs to a multi-entry commit group.
pub const META_TXN: u8 = 64;

/// Terminates a commit group; its value carries the commit timestamp.
pub const META_FIN_TXN: u8 = 128;

/// A bitflag byte over the `META_*` flags.
#[derive(Debug, Clone, Copy, PartialEq, Eq, Structural, Hash)]
pub struct Meta(pub u8);

impl Meta {
    /// All of the given bits are set.
    pub fn contains(&self, bits: u8) -> (r: bool)
        ensures
            r == (self.0 & bits == bits),
    {
        self.0 & bits == bits
    }

    pub fn insert(&mut self, bits: u8)
        ensures
            final(self).0 == (old(self).0 | bits),
    {
        self.0 = self.0 | bits;
    }

    pub fn remove(&mut self, bits: u8)
        ensures
            final(self).0 == (old(self).0 & !bits),
    {
        self.0 = self.0 & !bits;
    }

    pub fn is_empty(&self) -> (r: bool)
        ensures
            r == (self.0 == 0),
    {
        self.0 == 0
    }
}

impl Default for Meta {
    fn default() -> (r: Self)
        ensures
            r.0 == 0,
    {
        Meta(0)
    }
}

// ---------------------------------------------------------------------------
// KeyTs: the logical key (user_key, txn_ts)
// ---------------------------------------------------------------------------

/// The total order on logical keys: ascending by user key, then descending
/// by version, so the newest version of a key comes first.
pub open spec fn keyts_cmp(ka: Seq<u8>, ta: u64, kb: Seq<u8>, tb: u64) -> core::cmp::Ordering {
    if lex_cmp(ka, kb) != core::cmp::Ordering::Equal {
        lex_cmp(ka, kb)
    } else if ta > tb {
        core::cmp::Ordering::Less
    } else if ta < tb {
        core::cmp::Ordering::Greater
    } else {
        core::cmp::Ordering::Equal
    }
}

pub open spec fn keyts_le(ka: Seq<u8>, ta: u64, kb: Seq<u8>, tb: u64) -> bool {
    keyts_cmp(ka, ta, kb, tb) != core::cmp::Ordering::Greater
}

pub open spec fn keyts_lt(ka: Seq<u8>, ta: u64, kb: Seq<u8>, tb: u64) -> bool {
    keyts_cmp(ka, ta, kb, tb) == core::cmp::Ordering::Less
}

/// The serialized form: the user key followed by the version, big-endian.
pub open spec fn keyts_serial(key: Seq<u8>, ts: u64) -> Seq<u8> {
    key + u64_be_bytes(ts)
}

/// The user key read back from a serialized key.
pub open spec fn keyts_parse_key(s: Seq<u8>) -> Seq<u8> {
    if s.len() <= 8 {
        s
    } else {
        s.subrange(0, s.len() - 8)
    }
}

/// The version read back from a serialized key.
pub open spec fn keyts_parse_ts(s: Seq<u8>) -> u64 {
    if s.len() <= 8 {
        0
    } else {
        u64_from_be_spec(s.skip(s.len() - 8))
    }
}

/// A logical key: a user key and the version that wrote it.
#[derive(Debug)]
pub struct KeyTs {
    pub key: Vec<u8>,
    pub txn_ts: TxnTs,
}

impl PartialEq for KeyTs {
    fn eq(&self, other: &Self) -> (r: bool) {
        let key_eq = matches!(
            cmp_bytes(self.key.as_slice(), other.key.as_slice()),
            core::cmp::Ordering::Equal
        );
        proof {
            lemma_lex_cmp_eq(self.key@, other.key@);
        }
        key_eq && self.txn_ts.0 == other.txn_ts.0
    }
}

impl Eq for KeyTs {

}

impl Clone for KeyTs {
    fn clone(&self) -> (r: Self)
        ensures
            r.key@ == self.key@,
            r.txn_ts == self.txn_ts,
    {
        KeyTs { key: copy_slice(self.key.as_slice()), txn_ts: self.txn_ts }
    }
}

impl vstd::std_specs::cmp::PartialEqSpecImpl for KeyTs {
    open spec fn obeys_eq_spec() -> bool {
        true
    }

    open spec fn eq_spec(&self, other: &Self) -> bool {
        self.key@ == other.key@ && self.txn_ts == other.txn_ts
    }
}

impl Default for KeyTs {
    fn default() -> (r: Self)
        ensures
            r.key@ =~= Seq::<u8>::empty(),
            r.txn_ts.0 == 0,
    {
        KeyTs { key: Vec::new(), txn_ts: TxnTs(0) }
    }
}

impl KeyTs {
    pub fn new(key: Vec<u8>, txn_ts: TxnTs) -> (r: Self)
        ensures
            r.key@ == key@,
            r.txn_ts == txn_ts,
    {
        KeyTs { key, txn_ts }
    }

    /// The serialized form: user key, then the version big-endian.
    pub fn serialize(&self) -> (r: Vec<u8>)
        ensures
            r@ =~= keyts_serial(self.key@, self.txn_ts.0),
    {
        let mut v: Vec<u8> = Vec::new();
        let mut i: usize = 0;
        let n = self.key.len();
        while i < n
            invariant
                i <= n,
                n == self.key@.len(),
                v@ =~= self.key@.subrange(0, i as int),
            decreases n - i,
        {
            v.push(self.key[i]);
            i = i + 1;
        }
        proof {
            assert(v@ =~= self.key@);
        }
        push_u64_be(&mut v, self.txn_ts.0);
        v
    }

    /// Splits a serialized key back into user key and version. Eight bytes
    /// or fewer hold no version and parse as unversioned.
    pub fn from_slice(value: &[u8]) -> (r: Self)
        ensures
            r.key@ == keyts_parse_key(value@),
            r.txn_ts.0 == keyts_parse_ts(value@),
    {
        let len = value.len();
        if len <= 8 {
            KeyTs { key: copy_slice(value), txn_ts: TxnTs(0) }
        } else {
            let key_part = &value[0..len - 8];
            let ts = read_u64_be(value, len - 8);
            KeyTs { key: copy_slice(key_part), txn_ts: TxnTs(ts) }
        }
    }

    pub fn key(&self) -> (r: &Vec<u8>)
        ensures
            r@ == self.key@,
    {
        &self.key
    }

    pub fn txn_ts(&self) -> (r: TxnTs)
        ensures
            r == self.txn_ts,
    {
        self.txn_ts
    }

    pub fn set_key(&mut self, key: Vec<u8>)
        ensures
            final(self).key@ == key@,
            final(self).txn_ts == old(self).txn_ts,
    {
        self.key = key;
    }

    pub fn set_txn_ts(&mut self, txn_ts: TxnTs)
        ensures
            final(self).txn_ts == txn_ts,
            final(self).key@ == old(self).key@,
    {
        self.txn_ts = txn_ts;
    }

    /// The length of the serialized form.
    pub fn len(&self) -> (r: usize)
        requires
            self.key@.len() + 8 <= usize::MAX,
        ensures
            r == self.key@.len() + 8,
    {
        self.key.len() + 8
    }

    pub fn is_empty(&self) -> (r: bool)
        ensures
            r == (self.key@.len() == 0 && self.txn_ts.0 == 0),
    {
        self.key.len() == 0 && self.txn_ts.0 == 0
    }

    /// The total order of `keyts_cmp`: ascending user key, newest first.
    pub fn cmp(&self, other: &Self) -> (r: core::cmp::Ordering)
        ensures
            r == keyts_cmp(self.key@, self.txn_ts.0, other.key@, other.txn_ts.0),
    {
        let key_ord = cmp_bytes(self.key.as_slice(), other.key.as_slice());
        match key_ord {
            core::cmp::Ordering::Equal => {
                if self.txn_ts.0 > other.txn_ts.0 {
                    core::cmp::Ordering::Less
                } else if self.txn_ts.0 < other.txn_ts.0 {
                    core::cmp::Ordering::Greater
                } else {
                    core::cmp::Ordering::Equal
                }
            },
            ord => ord,
        }
    }

    pub fn partial_cmp(&self, other: &Self) -> (r: Option<core::cmp::Ordering>)
        ensures
            r == Some(keyts_cmp(self.key@, self.txn_ts.0, other.key@, other.txn_ts.0)),
    {
        Some(self.cmp(other))
    }
}

// ---------------------------------------------------------------------------
// KeyTsBorrow: the serialized-key comparator
// ---------------------------------------------------------------------------

/// The user-key prefix of a borrowed serialized key: everything before the
/// eight-byte version suffix; a shorter slice is all key.
pub open spec fn borrow_key(s: Seq<u8>) -> Seq<u8> {
    if s.len() >= 8 {
        s.subrange(0, s.len() - 8)
    } else {
        s
    }
}

/// The version suffix of a borrowed serialized key; a slice too short to
/// carry one is unversioned.
pub open spec fn borrow_ts(s: Seq<u8>) -> u64 {
    if s.len() >= 8 {
        u64_from_be_spec(s.skip(s.len() - 8))
    } else {
        0
    }
}

/// What `KeyTsBorrow::cmp` computes on two serialized keys: whenever both
/// sides are at least eight bytes, compare the user keys before the
/// eight-byte version suffix, then the versions in reverse; shorter slices
/// compare whole.
pub open spec fn borrow_cmp_spec(l: Seq<u8>, r: Seq<u8>) -> core::cmp::Ordering {
    if l.len() >= 8 && r.len() >= 8 {
        keyts_cmp(borrow_key(l), borrow_ts(l), borrow_key(r), borrow_ts(r))
    } else {
        lex_cmp(l, r)
    }
}

/// A borrowed serialized key: the user key followed by the big-endian
/// version.
#[derive(Debug, Clone, Copy)]
pub struct KeyTsBorrow<'a>(pub &'a [u8]);

impl<'a> KeyTsBorrow<'a> {
    /// The user-key prefix.
    pub fn key(&self) -> (r: &[u8])
        ensures
            r@ == borrow_key(self.0@),
    {
        let len = self.0.len();
        if len >= 8 {
            &self.0[0..len - 8]
        } else {
            &self.0[0..len]
        }
    }

    /// The version suffix; unversioned when the slice is too short.
    pub fn txn_ts(&self) -> (r: TxnTs)
        ensures
            r.0 == borrow_ts(self.0@),
    {
        let len = self.0.len();
        if len >= 8 {
            TxnTs(read_u64_be(self.0, len - 8))
        } else {
            TxnTs(0)
        }
    }

    pub fn is_empty(&self) -> (r: bool)
        ensures
            r == (if self.0@.len() >= 8 {
                self.0@.len() == 8
            } else {
                self.0@.len() == 0
            }),
    {
        let k = self.key();
        k.len() == 0
    }

    /// The serialized-key comparator: user keys ascending, versions
    /// descending, whenever both sides carry a version suffix.
    pub fn cmp(left: &[u8], right: &[u8]) -> (r: core::cmp::Ordering)
        ensures
            r == borrow_cmp_spec(left@, right@),
    {
        let left_len = left.len();
        let right_len = right.len();
        if left_len >= 8 && right_len >= 8 {
            let key_ord = cmp_bytes(&left[0..left_len - 8], &right[0..right_len - 8]);
            match key_ord {
                core::cmp::Ordering::Equal => {
                    let lts = read_u64_be(left, left_len - 8);
                    let rts = read_u64_be(right, right_len - 8);
                    if lts > rts {
                        core::cmp::Ordering::Less
                    } else if lts < rts {
                        core::cmp::Ordering::Greater
                    } else {
                        core::cmp::Ordering::Equal
                    }
                },
                ord => ord,
            }
        } else {
            cmp_bytes(left, right)
        }
    }

    /// Whether two serialized keys share the same user key.
    pub fn equal_key(left: &[u8], right: &[u8]) -> (r: bool)
        ensures
            r == if left@.len() >= 8 && right@.len() >= 8 {
                borrow_key(left@) == borrow_key(right@)
            } else {
                left@ == right@
            },
    {
        let left_len = left.len();
        let right_len = right.len();
        if left_len >= 8 && right_len >= 8 {
            let ord = cmp_bytes(&left[0..left_len - 8], &right[0..right_len - 8]);
            proof {
                lemma_lex_cmp_eq(left@.subrange(0, left@.len() - 8), right@.subrange(0, right@.len() - 8));
            }
            matches!(ord, core::cmp::Ordering::Equal)
        } else {
            let ord = cmp_bytes(left, right);
            proof {
                lemma_lex_cmp_eq(left@, right@);
            }
            matches!(ord, core::cmp::Ordering::Equal)
        }
    }
}

// ---------------------------------------------------------------------------
// Order and round-trip laws
// ---------------------------------------------------------------------------

/// Ordering law: `a <= b` exactly when `a`'s user key is smaller, or the
/// user keys are equal and `a`'s version is at least `b`'s.
pub proof fn lemma_keyts_order(ka: Seq<u8>, ta: u64, kb: Seq<u8>, tb: u64)
    ensures
        keyts_le(ka, ta, kb, tb) <==> (lex_cmp(ka, kb) == core::cmp::Ordering::Less || (ka == kb
            && ta >= tb)),
{
    lemma_lex_cmp_eq(ka, kb);
}

/// The key order is total: antisymmetric and transitive.
pub proof fn lemma_keyts_order_total(
    ka: Seq<u8>,
    ta: u64,
    kb: Seq<u8>,
    tb: u64,
    kc: Seq<u8>,
    tc: u64,
)
    ensures
        keyts_le(ka, ta, kb, tb) || keyts_le(kb, tb, ka, ta),
        keyts_le(ka, ta, kb, tb) && keyts_le(kb, tb, ka, ta) ==> ka == kb && ta == tb,
        keyts_le(ka, ta, kb, tb) && keyts_le(kb, tb, kc, tc) ==> keyts_le(ka, ta, kc, tc),
        keyts_lt(ka, ta, kb, tb) && keyts_le(kb, tb, kc, tc) ==> keyts_lt(ka, ta, kc, tc),
        keyts_le(ka, ta, kb, tb) && keyts_lt(kb, tb, kc, tc) ==> keyts_lt(ka, ta, kc, tc),
{
    lemma_lex_cmp_eq(ka, kb);
    lemma_lex_cmp_eq(kb, ka);
    lemma_lex_cmp_eq(kb, kc);
    lemma_lex_cmp_eq(kc, kb);
    lemma_lex_cmp_eq(ka, kc);
    lemma_lex_cmp_antisym(ka, kb);
    lemma_lex_cmp_antisym(kb, ka);
    lemma_lex_cmp_antisym(kb, kc);
    lemma_lex_cmp_antisym(kc, kb);
    lemma_lex_cmp_antisym(ka, kc);
    lemma_lex_cmp_antisym(kc, ka);
    if lex_cmp(ka, kb) != core::cmp::Ordering::Greater && lex_cmp(kb, kc)
        != core::cmp::Ordering::Greater {
        lemma_lex_cmp_trans(ka, kb, kc);
    }
}

/// The key order is reflexive, and where one value is not strictly below
/// another, the other is at or below it.
pub proof fn lemma_keyts_refl_nlt(ka: Seq<u8>, ta: u64, kb: Seq<u8>, tb: u64)
    ensures
        keyts_le(ka, ta, ka, ta),
        !keyts_lt(ka, ta, kb, tb) ==> keyts_le(kb, tb, ka, ta),
{
    lemma_lex_cmp_eq(ka, ka);
    lemma_lex_cmp_eq(ka, kb);
    lemma_lex_cmp_eq(kb, ka);
    lemma_lex_cmp_antisym(ka, kb);
    lemma_lex_cmp_antisym(kb, ka);
}

/// Ordering law on the serialized form: the byte comparator agrees with the
/// logical order on every pair of serialized keys.
pub proof fn lemma_serialized_cmp_agrees(ka: Seq<u8>, ta: u64, kb: Seq<u8>, tb: u64)
    ensures
        borrow_cmp_spec(keyts_serial(ka, ta), keyts_serial(kb, tb)) == keyts_cmp(ka, ta, kb, tb),
{
    let sa = keyts_serial(ka, ta);
    let sb = keyts_serial(kb, tb);
    assert(sa.len() == ka.len() + 8);
    assert(sb.len() == kb.len() + 8);
    assert(sa.subrange(0, sa.len() - 8) =~= ka);
    assert(sb.subrange(0, sb.len() - 8) =~= kb);
    assert(sa.skip(sa.len() - 8) =~= u64_be_bytes(ta));
    assert(sb.skip(sb.len() - 8) =~= u64_be_bytes(tb));
    lemma_u64_be_roundtrip(ta);
    lemma_u64_be_roundtrip(tb);
}

/// Round-trip law: parsing a serialized key gives the key back, for any
/// non-empty user key.
pub proof fn lemma_keyts_roundtrip(key: Seq<u8>, ts: u64)
    requires
        key.len() > 0,
    ensures
        keyts_parse_key(keyts_serial(key, ts)) == key,
        keyts_parse_ts(keyts_serial(key, ts)) == ts,
{
    let s = keyts_serial(key, ts);
    assert(s.len() == key.len() + 8);
    assert(s.subrange(0, s.len() - 8) =~= key);
    assert(s.skip(s.len() - 8) =~= u64_be_bytes(ts));
    lemma_u64_be_roundtrip(ts);
}

// ---------------------------------------------------------------------------
// ValueMeta: what is stored against a key
// ---------------------------------------------------------------------------

/// The serialized form of a `ValueMeta`:
/// `user_meta(1) | meta(1) | varint(expires_at) | value`.
pub open spec fn valuemeta_serial(value: Seq<u8>, expires_at: u64, user_meta: u8, meta: u8) -> Seq<
    u8,
> {
    seq![user_meta, meta] + varint_enc(expires_at) + value
}

/// Parses a serialized `ValueMeta` back into
/// `(value, expires_at, user_meta, meta)`; the expiry is unbounded here.
pub open spec fn valuemeta_parse(s: Seq<u8>) -> Option<(Seq<u8>, int, u8, u8)> {
    if s.len() < 3 {
        None
    } else {
        match varint_dec(s.skip(2)) {
            None => None,
            Some((v, n)) => Some((s.skip(2 + n), v, s[0], s[1])),
        }
    }
}

/// What is stored against a key: the value bytes, the expiry, a caller byte
/// and the meta flags.
#[derive(Debug)]
pub struct ValueMeta {
    pub value: Vec<u8>,
    pub expires_at: PhyTs,
    pub user_meta: u8,
    pub meta: Meta,
}

impl Clone for ValueMeta {
    fn clone(&self) -> (r: Self)
        ensures
            r.value@ == self.value@,
            r.expires_at == self.expires_at,
            r.user_meta == self.user_meta,
            r.meta == self.meta,
    {
        ValueMeta {
            value: copy_slice(self.value.as_slice()),
            expires_at: self.expires_at,
            user_meta: self.user_meta,
            meta: self.meta,
        }
    }
}

impl PartialEq for ValueMeta {
    fn eq(&self, other: &Self) -> (r: bool) {
        let value_eq = matches!(
            cmp_bytes(self.value.as_slice(), other.value.as_slice()),
            core::cmp::Ordering::Equal
        );
        proof {
            lemma_lex_cmp_eq(self.value@, other.value@);
        }
        value_eq && self.expires_at.0 == other.expires_at.0 && self.user_meta == other.user_meta
            && self.meta.0 == other.meta.0
    }
}

impl Eq for ValueMeta {

}

impl vstd::std_specs::cmp::PartialEqSpecImpl for ValueMeta {
    open spec fn obeys_eq_spec() -> bool {
        true
    }

    open spec fn eq_spec(&self, other: &Self) -> bool {
        self.value@ == other.value@ && self.expires_at == other.expires_at && self.user_meta
            == other.user_meta && self.meta == other.meta
    }
}

impl Default for ValueMeta {
    fn default() -> (r: Self)
        ensures
            r.value@ =~= Seq::<u8>::empty(),
            r.expires_at.0 == 0,
            r.user_meta == 0,
            r.meta.0 == 0,
    {
        ValueMeta { value: Vec::new(), expires_at: PhyTs(0), user_meta: 0, meta: Meta(0) }
    }
}

impl ValueMeta {
    /// How many bytes `serialize` produces.
    pub fn serialized_size(&self) -> (r: usize)
        requires
            self.value@.len() + 12 <= usize::MAX,
        ensures
            r == 2 + varint_len(self.expires_at.0) + self.value@.len(),
    {
        proof {
            lemma_varint_len_le_10(self.expires_at.0);
        }
        // Measure the expiry's varint by encoding it.
        let mut expiry: Vec<u8> = Vec::new();
        push_varint(&mut expiry, self.expires_at.0);
        2 + expiry.len() + self.value.len()
    }

    pub fn serialize(&self) -> (r: Vec<u8>)
        ensures
            r@ =~= valuemeta_serial(self.value@, self.expires_at.0, self.user_meta, self.meta.0),
    {
        let mut v: Vec<u8> = Vec::new();
        v.push(self.user_meta);
        v.push(self.meta.0);
        push_varint(&mut v, self.expires_at.0);
        extend_from_slice(&mut v, self.value.as_slice());
        v
    }

    /// Parses a serialized `ValueMeta`. `None` exactly when the bytes are
    /// too short, the expiry varint is unterminated, or the expiry does not
    /// fit in 64 bits.
    pub fn deserialize(data: &[u8]) -> (r: Option<Self>)
        ensures
            match valuemeta_parse(data@) {
                Some((value, expires_at, user_meta, meta)) => if expires_at <= u64::MAX as int {
                    &&& r is Some
                    &&& r.unwrap().value@ == value
                    &&& r.unwrap().expires_at.0 as int == expires_at
                    &&& r.unwrap().user_meta == user_meta
                    &&& r.unwrap().meta.0 == meta
                } else {
                    r is None
                },
                None => r is None,
            },
    {
        if data.len() < 3 {
            return None;
        }
        match read_varint(data, 2) {
            None => None,
            Some((expires_at, n)) => {
                proof {
                    lemma_varint_dec_len(data@.skip(2));
                }
                let dlen = data.len();
                let value = copy_slice(&data[2 + n..dlen]);
                proof {
                    assert(value@ =~= data@.skip(2 + n as int));
                }
                Some(
                    ValueMeta {
                        value,
                        expires_at: PhyTs(expires_at),
                        user_meta: data[0],
                        meta: Meta(data[1]),
                    },
                )
            },
        }
    }

    pub fn meta(&self) -> (r: Meta)
        ensures
            r == self.meta,
    {
        self.meta
    }

    pub fn value(&self) -> (r: &Vec<u8>)
        ensures
            r@ == self.value@,
    {
        &self.value
    }

    pub fn set_value(&mut self, value: Vec<u8>)
        ensures
            final(self).value@ == value@,
            final(self).expires_at == old(self).expires_at,
            final(self).user_meta == old(self).user_meta,
            final(self).meta == old(self).meta,
    {
        self.value = value;
    }

    /// Deleted, or expired as of the instant `now`.
    pub fn is_deleted_or_expired_at(&self, now: PhyTs) -> (r: bool)
        ensures
            r == (self.meta.0 & META_DELETE == META_DELETE || (self.expires_at.0 != 0
                && self.expires_at.0 <= now.0)),
    {
        if self.meta.contains(META_DELETE) {
            return true;
        }
        if self.expires_at.0 == 0 {
            return false;
        }
        self.expires_at.0 <= now.0
    }

    /// Deleted, or expired as of the wall clock. A tombstone reports `true`
    /// and an entry with no expiry reports `false` whatever the clock reads.
    pub fn is_deleted_or_expired(&self) -> (r: bool)
        ensures
            self.meta.0 & META_DELETE == META_DELETE ==> r,
            self.meta.0 & META_DELETE != META_DELETE && self.expires_at.0 == 0 ==> !r,
    {
        if self.meta.contains(META_DELETE) {
            return true;
        }
        if self.expires_at.0 == 0 {
            return false;
        }
        match PhyTs::now() {
            Some(now) => self.expires_at.0 <= now.0,
            None => false,
        }
    }
}

/// Round-trip law: deserializing a serialized `ValueMeta` gives it back.
pub proof fn lemma_valuemeta_roundtrip(value: Seq<u8>, expires_at: u64, user_meta: u8, meta: u8)
    ensures
        ({
            let s = valuemeta_serial(value, expires_at, user_meta, meta);
            valuemeta_parse(s) == Some((value, expires_at as int, user_meta, meta))
        }),
{
    let s = valuemeta_serial(value, expires_at, user_meta, meta);
    lemma_varint_len_le_10(expires_at);
    assert(s.len() >= 3);
    assert(s.skip(2) =~= varint_enc(expires_at) + value);
    lemma_varint_roundtrip(expires_at, value);
    let n = varint_len(expires_at);
    assert(s.skip(2 + n) =~= value);
    assert(s[0] == user_meta);
    assert(s[1] == meta);
}

// ---------------------------------------------------------------------------
// ValuePointer: where a spilled value lives in the value log
// ---------------------------------------------------------------------------

/// The fixed twelve-byte big-endian serialization of a value pointer.
pub open spec fn valuepointer_serial(fid: u32, len: u32, offset: u32) -> Seq<u8> {
    u32_be_bytes(fid) + u32_be_bytes(len) + u32_be_bytes(offset)
}

/// A pointer into the value log: file id, record length, record offset.
/// The all-zero pointer is the sentinel for "no pointer".
#[derive(Debug, Clone, Copy, PartialEq, Eq, Structural, Hash)]
pub struct ValuePointer {
    pub fid: u32,
    pub len: u32,
    pub offset: u32,
}

impl Default for ValuePointer {
    fn default() -> (r: Self)
        ensures
            r.fid == 0,
            r.len == 0,
            r.offset == 0,
    {
        ValuePointer { fid: 0, len: 0, offset: 0 }
    }
}

impl ValuePointer {
    pub fn new(fid: u32, len: usize, offset: usize) -> (r: Self)
        requires
            len <= u32::MAX,
            offset <= u32::MAX,
        ensures
            r.fid == fid,
            r.len == len,
            r.offset == offset,
    {
        ValuePointer { fid, len: len as u32, offset: offset as u32 }
    }

    pub fn is_empty(&self) -> (r: bool)
        ensures
            r == (self.fid == 0 && self.len == 0 && self.offset == 0),
    {
        self.fid == 0 && self.len == 0 && self.offset == 0
    }

    pub fn serialize(&self) -> (r: Vec<u8>)
        ensures
            r@ =~= valuepointer_serial(self.fid, self.len, self.offset),
    {
        let mut v: Vec<u8> = Vec::new();
        push_u32_be(&mut v, self.fid);
        push_u32_be(&mut v, self.len);
        push_u32_be(&mut v, self.offset);
        v
    }

    pub fn deserialize(bytes: &[u8]) -> (r: Self)
        requires
            bytes@.len() >= 12,
        ensures
            r.fid == u32_from_be_spec(bytes@),
            r.len == u32_from_be_spec(bytes@.skip(4)),
            r.offset == u32_from_be_spec(bytes@.skip(8)),
    {
        proof {
            assert(bytes@.skip(0) =~= bytes@);
        }
        let fid = read_u32_be(bytes, 0);
        let len = read_u32_be(bytes, 4);
        let offset = read_u32_be(bytes, 8);
        ValuePointer { fid, len, offset }
    }

    pub fn len(&self) -> (r: u32)
        ensures
            r == self.len,
    {
        self.len
    }

    pub fn fid(&self) -> (r: u32)
        ensures
            r == self.fid,
    {
        self.fid
    }
}

/// Round-trip law: deserializing a serialized `ValuePointer` gives it back.
pub proof fn lemma_valuepointer_roundtrip(fid: u32, len: u32, offset: u32)
    ensures
        ({
            let s = valuepointer_serial(fid, len, offset);
            &&& u32_from_be_spec(s) == fid
            &&& u32_from_be_spec(s.skip(4)) == len
            &&& u32_from_be_spec(s.skip(8)) == offset
        }),
{
    let s = valuepointer_serial(fid, len, offset);
    assert(s.subrange(0, 4) =~= u32_be_bytes(fid));
    assert(s.skip(4).subrange(0, 4) =~= u32_be_bytes(len));
    assert(s.skip(8) =~= u32_be_bytes(offset));
    lemma_u32_be_roundtrip(fid);
    lemma_u32_be_roundtrip(len);
    lemma_u32_be_roundtrip(offset);
    assert(u32_from_be_spec(s) == u32_from_be_spec(u32_be_bytes(fid)));
    assert(u32_from_be_spec(s.skip(4)) == u32_from_be_spec(u32_be_bytes(len)));
}

// ---------------------------------------------------------------------------
// Entry: a key, its value metadata, and write-pipeline bookkeeping
// ---------------------------------------------------------------------------

/// A key-value pair as it moves through a transaction and the write
/// pipeline. `offset` and `header_len` are set when the entry was decoded
/// from the value log.
#[derive(Debug)]
pub struct Entry {
    pub key_ts: KeyTs,
    pub value_meta: ValueMeta,
    pub offset: usize,
    pub header_len: usize,
    pub value_threshold: usize,
}

impl Clone for Entry {
    fn clone(&self) -> (r: Self)
        ensures
            r.key_ts.key@ == self.key_ts.key@,
            r.key_ts.txn_ts == self.key_ts.txn_ts,
            r.value_meta.value@ == self.value_meta.value@,
            r.value_meta.expires_at == self.value_meta.expires_at,
            r.value_meta.user_meta == self.value_meta.user_meta,
            r.value_meta.meta == self.value_meta.meta,
            r.offset == self.offset,
            r.header_len == self.header_len,
            r.value_threshold == self.value_threshold,
    {
        Entry {
            key_ts: self.key_ts.clone(),
            value_meta: self.value_meta.clone(),
            offset: self.offset,
            header_len: self.header_len,
            value_threshold: self.value_threshold,
        }
    }
}

impl Default for Entry {
    fn default() -> (r: Self)
        ensures
            r.key_ts.key@ =~= Seq::<u8>::empty(),
            r.key_ts.txn_ts.0 == 0,
            r.value_meta.value@ =~= Seq::<u8>::empty(),
            r.value_meta.expires_at.0 == 0,
            r.value_meta.user_meta == 0,
            r.value_meta.meta.0 == 0,
            r.offset == 0,
            r.header_len == 0,
            r.value_threshold == 0,
    {
        Entry {
            key_ts: KeyTs { key: Vec::new(), txn_ts: TxnTs(0) },
            value_meta: ValueMeta { value: Vec::new(), expires_at: PhyTs(0), user_meta: 0, meta: Meta(0) },
            offset: 0,
            header_len: 0,
            value_threshold: 0,
        }
    }
}

/// Everything of an entry except its `value_meta` is unchanged.
pub open spec fn unchanged_but_value_meta(a: Entry, b: Entry) -> bool {
    &&& b.key_ts == a.key_ts
    &&& b.offset == a.offset
    &&& b.header_len == a.header_len
    &&& b.value_threshold == a.value_threshold
}

impl Entry {
    pub fn new(key: Vec<u8>, value: Vec<u8>) -> (r: Self)
        ensures
            r.key_ts.key@ == key@,
            r.key_ts.txn_ts.0 == 0,
            r.value_meta.value@ == value@,
            r.value_meta.expires_at.0 == 0,
            r.value_meta.user_meta == 0,
            r.value_meta.meta.0 == 0,
            r.offset == 0,
            r.header_len == 0,
            r.value_threshold == 0,
    {
        Entry {
            key_ts: KeyTs { key, txn_ts: TxnTs(0) },
            value_meta: ValueMeta { value, expires_at: PhyTs(0), user_meta: 0, meta: Meta(0) },
            offset: 0,
            header_len: 0,
            value_threshold: 0,
        }
    }

    /// Rebuilds an entry decoded from a value-log record.
    pub fn new_ts(key_ts: &[u8], value: &[u8], offset: usize, header_len: usize) -> (r: Self)
        ensures
            r.key_ts.key@ == keyts_parse_key(key_ts@),
            r.key_ts.txn_ts.0 == keyts_parse_ts(key_ts@),
            r.value_meta.value@ == value@,
            r.value_meta.expires_at.0 == 0,
            r.value_meta.user_meta == 0,
            r.value_meta.meta.0 == 0,
            r.offset == offset,
            r.header_len == header_len,
            r.value_threshold == 0,
    {
        Entry {
            key_ts: KeyTs::from_slice(key_ts),
            value_meta: ValueMeta {
                value: copy_slice(value),
                expires_at: PhyTs(0),
                user_meta: 0,
                meta: Meta(0),
            },
            offset,
            header_len,
            value_threshold: 0,
        }
    }

    pub fn key(&self) -> (r: &Vec<u8>)
        ensures
            r@ == self.key_ts.key@,
    {
        &self.key_ts.key
    }

    pub fn set_key(&mut self, key: Vec<u8>)
        ensures
            final(self).key_ts.key@ == key@,
            final(self).key_ts.txn_ts == old(self).key_ts.txn_ts,
            final(self).value_meta == old(self).value_meta,
            final(self).offset == old(self).offset,
            final(self).header_len == old(self).header_len,
            final(self).value_threshold == old(self).value_threshold,
    {
        self.key_ts.key = key;
    }

    pub fn set_value(&mut self, value: Vec<u8>)
        ensures
            final(self).value_meta.value@ == value@,
            unchanged_but_value_meta(*old(self), *final(self)),
            final(self).value_meta.expires_at == old(self).value_meta.expires_at,
            final(self).value_meta.user_meta == old(self).value_meta.user_meta,
            final(self).value_meta.meta == old(self).value_meta.meta,
    {
        self.value_meta.value = value;
    }

    pub fn value(&self) -> (r: &Vec<u8>)
        ensures
            r@ == self.value_meta.value@,
    {
        &self.value_meta.value
    }

    pub fn set_expires_at(&mut self, expires_at: u64)
        ensures
            final(self).value_meta.expires_at.0 == expires_at,
            unchanged_but_value_meta(*old(self), *final(self)),
            final(self).value_meta.value@ == old(self).value_meta.value@,
            final(self).value_meta.user_meta == old(self).value_meta.user_meta,
            final(self).value_meta.meta == old(self).value_meta.meta,
    {
        self.value_meta.expires_at = PhyTs(expires_at);
    }

    pub fn expires_at(&self) -> (r: PhyTs)
        ensures
            r == self.value_meta.expires_at,
    {
        self.value_meta.expires_at
    }

    pub fn version(&self) -> (r: TxnTs)
        ensures
            r == self.key_ts.txn_ts,
    {
        self.key_ts.txn_ts
    }

    pub fn offset(&self) -> (r: usize)
        ensures
            r == self.offset,
    {
        self.offset
    }

    pub fn set_user_meta(&mut self, user_meta: u8)
        ensures
            final(self).value_meta.user_meta == user_meta,
            unchanged_but_value_meta(*old(self), *final(self)),
            final(self).value_meta.value@ == old(self).value_meta.value@,
            final(self).value_meta.expires_at == old(self).value_meta.expires_at,
            final(self).value_meta.meta == old(self).value_meta.meta,
    {
        self.value_meta.user_meta = user_meta;
    }

    pub fn user_meta(&self) -> (r: u8)
        ensures
            r == self.value_meta.user_meta,
    {
        self.value_meta.user_meta
    }

    pub fn meta(&self) -> (r: Meta)
        ensures
            r == self.value_meta.meta,
    {
        self.value_meta.meta
    }

    pub fn header_len(&self) -> (r: usize)
        ensures
            r == self.header_len,
    {
        self.header_len
    }

    pub fn set_header_len(&mut self, header_len: usize)
        ensures
            final(self).header_len == header_len,
            final(self).key_ts == old(self).key_ts,
            final(self).value_meta == old(self).value_meta,
            final(self).offset == old(self).offset,
            final(self).value_threshold == old(self).value_threshold,
    {
        self.header_len = header_len;
    }

    /// The entry's contribution to a batch: key and value when the value
    /// stays in the tree, key and a pointer when it spills to the value log.
    pub fn estimate_size(&self, threshold: usize) -> (r: usize)
        requires
            self.key_ts.key@.len() + self.value_meta.value@.len() + 14 <= usize::MAX,
        ensures
            r == if self.value_meta.value@.len() < threshold {
                self.key_ts.key@.len() + self.value_meta.value@.len() + 2
            } else {
                self.key_ts.key@.len() + 12 + 2
            },
    {
        if self.value_meta.value.len() < threshold {
            self.key_ts.key.len() + self.value_meta.value.len() + 2
        } else {
            self.key_ts.key.len() + 12 + 2
        }
    }

    pub fn key_ts(&self) -> (r: &KeyTs)
        ensures
            r == &self.key_ts,
    {
        &self.key_ts
    }

    pub fn set_meta(&mut self, meta: Meta)
        ensures
            final(self).value_meta.meta == meta,
            unchanged_but_value_meta(*old(self), *final(self)),
            final(self).value_meta.value@ == old(self).value_meta.value@,
            final(self).value_meta.expires_at == old(self).value_meta.expires_at,
            final(self).value_meta.user_meta == old(self).value_meta.user_meta,
    {
        self.value_meta.meta = meta;
    }

    pub fn value_meta(&self) -> (r: &ValueMeta)
        ensures
            r == &self.value_meta,
    {
        &self.value_meta
    }

    pub fn insert_meta(&mut self, bits: u8)
        ensures
            final(self).value_meta.meta.0 == (old(self).value_meta.meta.0 | bits),
            unchanged_but_value_meta(*old(self), *final(self)),
            final(self).value_meta.value@ == old(self).value_meta.value@,
            final(self).value_meta.expires_at == old(self).value_meta.expires_at,
            final(self).value_meta.user_meta == old(self).value_meta.user_meta,
    {
        self.value_meta.meta.insert(bits);
    }

    pub fn remove_meta(&mut self, bits: u8)
        ensures
            final(self).value_meta.meta.0 == (old(self).value_meta.meta.0 & !bits),
            unchanged_but_value_meta(*old(self), *final(self)),
            final(self).value_meta.value@ == old(self).value_meta.value@,
            final(self).value_meta.expires_at == old(self).value_meta.expires_at,
            final(self).value_meta.user_meta == old(self).value_meta.user_meta,
    {
        self.value_meta.meta.remove(bits);
    }

    pub fn set_offset(&mut self, offset: usize)
        ensures
            final(self).offset == offset,
            final(self).key_ts == old(self).key_ts,
            final(self).value_meta == old(self).value_meta,
            final(self).header_len == old(self).header_len,
            final(self).value_threshold == old(self).value_threshold,
    {
        self.offset = offset;
    }

    pub fn set_version(&mut self, version: TxnTs)
        ensures
            final(self).key_ts.txn_ts == version,
            final(self).key_ts.key@ == old(self).key_ts.key@,
            final(self).value_meta == old(self).value_meta,
            final(self).offset == old(self).offset,
            final(self).header_len == old(self).header_len,
            final(self).value_threshold == old(self).value_threshold,
    {
        self.key_ts.txn_ts = version;
    }

    pub fn is_deleted(&self) -> (r: bool)
        ensures
            r == (self.value_meta.meta.0 & META_DELETE == META_DELETE),
    {
        self.value_meta.meta.contains(META_DELETE)
    }

    /// Expired as of the instant `now`; entries with no expiry never expire.
    pub fn is_expired_at(&self, now: PhyTs) -> (r: bool)
        ensures
            r == (self.value_meta.expires_at.0 != 0 && self.value_meta.expires_at.0 <= now.0),
    {
        if self.value_meta.expires_at.0 == 0 {
            return false;
        }
        self.value_meta.expires_at.0 <= now.0
    }

    /// Expired as of the wall clock; an entry with no expiry reports
    /// `false` whatever the clock reads.
    pub fn is_expired(&self) -> (r: bool)
        ensures
            self.value_meta.expires_at.0 == 0 ==> !r,
    {
        if self.value_meta.expires_at.0 == 0 {
            return false;
        }
        match PhyTs::now() {
            Some(now) => self.value_meta.expires_at.0 <= now.0,
            None => false,
        }
    }

    pub fn try_set_value_threshold(&mut self, threshold: usize)
        ensures
            final(self).value_threshold == if old(self).value_threshold == 0 {
                threshold
            } else {
                old(self).value_threshold
            },
            final(self).key_ts == old(self).key_ts,
            final(self).value_meta == old(self).value_meta,
            final(self).offset == old(self).offset,
            final(self).header_len == old(self).header_len,
    {
        if self.value_threshold == 0 {
            self.value_threshold = threshold;
        }
    }

    pub fn value_threshold(&self) -> (r: usize)
        ensures
            r == self.value_threshold,
    {
        self.value_threshold
    }
}

} // verus!
