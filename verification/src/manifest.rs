//! The manifest: the durable ledger of which tables live at which level.
//! The file holds the magic bytes and version, then framed change sets,
//! each guarded by a CRC. Replaying it rebuilds the in-memory state.

use vstd::prelude::*;

use crate::codec::extend_from_slice;
use crate::codec::push_u16_be;
use crate::codec::push_u32_be;
use crate::codec::push_varint;
use crate::codec::read_u16_be;
use crate::codec::read_u32_be;
use crate::codec::read_varint;
use crate::codec::lemma_varint_dec_len;
use crate::codec::lemma_varint_roundtrip;
use crate::codec::u16_be_bytes;
use crate::codec::u16_from_be_spec;
use crate::codec::u32_from_be_spec;
use crate::codec::u32_be_bytes;
use crate::codec::varint_dec;
use crate::codec::varint_enc;
use crate::codec::varint_len;
use crate::errors::DBError;
use crate::hashing::crc32;
use crate::hashing::crc32_of;

verus! {

/// The manifest format this crate writes.
pub const BADGER_MAGIC_VERSION: u16 = 8;

/// The magic bytes that start a manifest file.
pub open spec fn magic_text() -> Seq<u8> {
    seq![66u8, 100u8, 103u8, 114u8]
}

/// Returns the magic bytes.
pub fn magic_text_bytes() -> (r: Vec<u8>)
    ensures
        r@ =~= magic_text(),
{
    let mut v: Vec<u8> = Vec::new();
    v.push(66);
    v.push(100);
    v.push(103);
    v.push(114);
    v
}

/// One change: a table is created at a level or deleted.
#[derive(Debug, Clone, Copy, PartialEq, Eq, Structural)]
pub struct ManifestChange {
    pub id: u64,
    /// False for a creation, true for a deletion.
    pub delete: bool,
    pub level: u32,
    pub key_id: u64,
    pub compression: u32,
}

/// A group of changes applied atomically.
#[derive(Debug)]
pub struct ManifestChangeSet {
    pub changes: Vec<ManifestChange>,
}

/// The serialized form of one change: the id, the operation byte, the
/// level, the key id and the compression code, varint-coded.
pub open spec fn change_serial(c: ManifestChange) -> Seq<u8> {
    varint_enc(c.id) + seq![
        if c.delete {
            1u8
        } else {
            0u8
        },
    ] + varint_enc(c.level as u64) + varint_enc(c.key_id) + varint_enc(c.compression as u64)
}

/// The serialized form of a change set: the count, then each change.
pub open spec fn change_set_serial_from(changes: Seq<ManifestChange>, k: int) -> Seq<u8>
    decreases changes.len() - k,
{
    if k < 0 || k >= changes.len() {
        Seq::empty()
    } else {
        change_serial(changes[k]) + change_set_serial_from(changes, k + 1)
    }
}

pub open spec fn change_set_serial(changes: Seq<ManifestChange>) -> Seq<u8> {
    varint_enc(changes.len() as u64) + change_set_serial_from(changes, 0)
}

/// Appends the serialized change.
pub fn push_change(out: &mut Vec<u8>, c: &ManifestChange)
    ensures
        final(out)@ =~= old(out)@ + change_serial(*c),
{
    push_varint(out, c.id);
    out.push(
        if c.delete {
            1
        } else {
            0
        },
    );
    push_varint(out, c.level as u64);
    push_varint(out, c.key_id);
    push_varint(out, c.compression as u64);
}

/// Serializes a change set.
pub fn encode_change_set(set: &ManifestChangeSet) -> (r: Vec<u8>)
    ensures
        r@ =~= change_set_serial(set.changes@),
{
    let mut out: Vec<u8> = Vec::new();
    push_varint(&mut out, set.changes.len() as u64);
    let mut i: usize = 0;
    while i < set.changes.len()
        invariant
            i <= set.changes@.len(),
            out@ =~= varint_enc(set.changes@.len() as u64) + change_set_prefix(set.changes@, i as int),
        decreases set.changes@.len() - i,
    {
        proof {
            lemma_change_set_prefix_step(set.changes@, i as int);
        }
        push_change(&mut out, &set.changes[i]);
        i = i + 1;
    }
    proof {
        lemma_change_set_prefix_full(set.changes@);
    }
    out
}

/// The serialized form of the first `k` changes.
pub open spec fn change_set_prefix(changes: Seq<ManifestChange>, k: int) -> Seq<u8>
    decreases k,
{
    if k <= 0 {
        Seq::empty()
    } else {
        change_set_prefix(changes, k - 1) + change_serial(changes[k - 1])
    }
}

proof fn lemma_change_set_prefix_step(changes: Seq<ManifestChange>, k: int)
    requires
        0 <= k < changes.len(),
    ensures
        change_set_prefix(changes, k + 1) =~= change_set_prefix(changes, k) + change_serial(
            changes[k],
        ),
{
}

/// The whole prefix is the whole tail expansion.
proof fn lemma_change_set_prefix_full(changes: Seq<ManifestChange>)
    ensures
        change_set_prefix(changes, changes.len() as int) =~= change_set_serial_from(changes, 0),
{
    lemma_prefix_meets_suffix(changes, 0);
}

/// `prefix(k) + from(k)` covers the whole serialization.
proof fn lemma_prefix_meets_suffix(changes: Seq<ManifestChange>, k: int)
    requires
        0 <= k <= changes.len(),
    ensures
        change_set_prefix(changes, changes.len() as int) =~= change_set_prefix(changes, k)
            + change_set_serial_from(changes, k),
    decreases changes.len() - k,
{
    if k == changes.len() {
        assert(change_set_serial_from(changes, k) =~= Seq::<u8>::empty());
    } else {
        lemma_prefix_meets_suffix(changes, k + 1);
        lemma_change_set_prefix_step(changes, k);
        assert(change_set_prefix(changes, k) + (change_serial(changes[k])
            + change_set_serial_from(changes, k + 1)) =~= (change_set_prefix(changes, k)
            + change_serial(changes[k])) + change_set_serial_from(changes, k + 1));
    }
}

/// Parses one change at `pos`: the change and where the next one starts.
pub open spec fn change_parse(s: Seq<u8>, pos: int) -> Option<(ManifestChange, int)> {
    match varint_dec(s.skip(pos)) {
        None => None,
        Some((id, n1)) => if id > u64::MAX as int || pos + n1 >= s.len() {
            None
        } else {
            let op = s[pos + n1];
            if op != 0 && op != 1 {
                None
            } else {
                match varint_dec(s.skip(pos + n1 + 1)) {
                    None => None,
                    Some((level, n2)) => if level > u32::MAX as int {
                        None
                    } else {
                        match varint_dec(s.skip(pos + n1 + 1 + n2)) {
                            None => None,
                            Some((key_id, n3)) => if key_id > u64::MAX as int {
                                None
                            } else {
                                match varint_dec(s.skip(pos + n1 + 1 + n2 + n3)) {
                                    None => None,
                                    Some((compression, n4)) => if compression > u32::MAX as int {
                                        None
                                    } else {
                                        Some(
                                            (
                                                ManifestChange {
                                                    id: id as u64,
                                                    delete: op == 1,
                                                    level: level as u32,
                                                    key_id: key_id as u64,
                                                    compression: compression as u32,
                                                },
                                                pos + n1 + 1 + n2 + n3 + n4,
                                            ),
                                        )
                                    },
                                }
                            },
                        }
                    },
                }
            }
        },
    }
}

/// Reads one change at `pos`.
pub fn read_change(data: &[u8], pos: usize) -> (r: Option<(ManifestChange, usize)>)
    requires
        pos <= data@.len(),
    ensures
        match change_parse(data@, pos as int) {
            None => r is None,
            Some((c, next)) => r == Some((c, next as usize)) && 0 <= next <= data@.len(),
        },
{
    let dlen = data.len();
    let (id, n1) = match read_varint(data, pos) {
        None => {
            return None;
        },
        Some(x) => x,
    };
    proof {
        lemma_varint_dec_len(data@.skip(pos as int));
        assert(n1 <= data@.len() - pos);
    }
    if pos + n1 >= data.len() {
        return None;
    }
    let op = data[pos + n1];
    if op != 0 && op != 1 {
        return None;
    }
    let (level, n2) = match read_varint(data, pos + n1 + 1) {
        None => {
            return None;
        },
        Some(x) => x,
    };
    proof {
        lemma_varint_dec_len(data@.skip(pos + n1 + 1));
    }
    if level > u32::MAX as u64 {
        return None;
    }
    let (key_id, n3) = match read_varint(data, pos + n1 + 1 + n2) {
        None => {
            return None;
        },
        Some(x) => x,
    };
    proof {
        lemma_varint_dec_len(data@.skip(pos + n1 + 1 + n2 as int));
    }
    let (compression, n4) = match read_varint(data, pos + n1 + 1 + n2 + n3) {
        None => {
            return None;
        },
        Some(x) => x,
    };
    proof {
        lemma_varint_dec_len(data@.skip(pos + n1 + 1 + n2 + n3 as int));
    }
    if compression > u32::MAX as u64 {
        return None;
    }
    Some(
        (
            ManifestChange {
                id,
                delete: op == 1,
                level: level as u32,
                key_id,
                compression: compression as u32,
            },
            pos + n1 + 1 + n2 + n3 + n4,
        ),
    )
}

/// Round-trip law: parsing a serialized change, with anything after it,
/// gives the change back.
#[verifier::rlimit(80)]
pub proof fn lemma_change_roundtrip(c: ManifestChange, rest: Seq<u8>)
    ensures
        ({
            let s = change_serial(c) + rest;
            change_parse(s, 0) == Some((c, change_serial(c).len() as int))
        }),
{
    let s = change_serial(c) + rest;
    let op_byte: u8 = if c.delete {
        1u8
    } else {
        0u8
    };
    let rest1 = seq![op_byte] + varint_enc(c.level as u64) + varint_enc(c.key_id) + varint_enc(
        c.compression as u64,
    ) + rest;
    assert(s.skip(0) =~= varint_enc(c.id) + rest1);
    lemma_varint_roundtrip(c.id, rest1);
    let n1 = varint_len(c.id);
    assert(s[n1] == op_byte);
    let rest2 = varint_enc(c.key_id) + varint_enc(c.compression as u64) + rest;
    assert(s.skip(n1 + 1) =~= varint_enc(c.level as u64) + rest2);
    lemma_varint_roundtrip(c.level as u64, rest2);
    let n2 = varint_len(c.level as u64);
    let rest3 = varint_enc(c.compression as u64) + rest;
    assert(s.skip(n1 + 1 + n2) =~= varint_enc(c.key_id) + rest3);
    lemma_varint_roundtrip(c.key_id, rest3);
    let n3 = varint_len(c.key_id);
    assert(s.skip(n1 + 1 + n2 + n3) =~= varint_enc(c.compression as u64) + rest);
    lemma_varint_roundtrip(c.compression as u64, rest);
}

/// Parses the changes of a set after its count, `k` of them, from `pos`.
pub open spec fn changes_parse_from(s: Seq<u8>, pos: int, k: int) -> Option<
    (Seq<ManifestChange>, int),
>
    decreases k,
{
    if k <= 0 {
        Some((Seq::empty(), pos))
    } else {
        match change_parse(s, pos) {
            None => None,
            Some((c, next)) => match changes_parse_from(s, next, k - 1) {
                None => None,
                Some((rest, end)) => Some((seq![c] + rest, end)),
            },
        }
    }
}

/// Parses a whole serialized change set; every byte must be consumed.
pub open spec fn change_set_parse(s: Seq<u8>) -> Option<Seq<ManifestChange>> {
    match varint_dec(s) {
        None => None,
        Some((count, n)) => if count > usize::MAX as int {
            None
        } else {
            match changes_parse_from(s, n, count) {
                None => None,
                Some((changes, end)) => if end == s.len() {
                    Some(changes)
                } else {
                    None
                },
            }
        },
    }
}

/// Parses a serialized change set; `None` when the bytes are not exactly
/// one well-formed set.
pub fn decode_change_set(data: &[u8]) -> (r: Option<ManifestChangeSet>)
    ensures
        match change_set_parse(data@) {
            None => r is None,
            Some(changes) => r is Some && r.unwrap().changes@ == changes,
        },
{
    let dlen = data.len();
    let (count, n) = match read_varint(data, 0) {
        None => {
            proof {
                assert(data@.skip(0) =~= data@);
            }
            return None;
        },
        Some(x) => x,
    };
    proof {
        assert(data@.skip(0) =~= data@);
        lemma_varint_dec_len(data@);
    }
    if count > usize::MAX as u64 {
        return None;
    }
    let count = count as usize;
    let mut changes: Vec<ManifestChange> = Vec::new();
    let mut pos: usize = n;
    let mut k: usize = 0;
    while k < count
        invariant
            k <= count,
            data@.len() <= usize::MAX,
            pos <= data@.len(),
            varint_dec(data@) is Some,
            varint_dec(data@).unwrap().0 == count as int,
            varint_dec(data@).unwrap().1 == n as int,
            changes@.len() == k,
            changes_parse_from(data@, n as int, count as int) == (match changes_parse_from(
                data@,
                pos as int,
                count - k,
            ) {
                None => None::<(Seq<ManifestChange>, int)>,
                Some((rest, end)) => Some((changes@ + rest, end)),
            }),
        decreases count - k,
    {
        let ghost old_pos = pos as int;
        let ghost m = count - k;
        let (c, next) = match read_change(data, pos) {
            None => {
                proof {
                    assert(changes_parse_from(data@, pos as int, (count - k) as int) is None);
                    assert(changes_parse_from(data@, n as int, count as int) is None);
                }
                return None;
            },
            Some(x) => x,
        };
        proof {
            assert(change_parse(data@, old_pos) == Some((c, next as int)));
            assert(next <= data@.len());
            assert(m >= 1);
            assert(changes_parse_from(data@, old_pos, m as int) == (match changes_parse_from(
                data@,
                next as int,
                m as int - 1,
            ) {
                None => None::<(Seq<ManifestChange>, int)>,
                Some((rest, end)) => Some((seq![c] + rest, end)),
            }));
            assert(changes@.push(c) + changes_rest_tail(data@, next as int, m as int - 1)
                =~= changes@ + (seq![c] + changes_rest_tail(data@, next as int, m as int - 1)));
        }
        changes.push(c);
        pos = next;
        k = k + 1;
    }
    if pos != data.len() {
        return None;
    }
    Some(ManifestChangeSet { changes })
}

/// The changes a successful tail parse yields.
pub open spec fn changes_rest_tail(s: Seq<u8>, pos: int, k: int) -> Seq<ManifestChange> {
    match changes_parse_from(s, pos, k) {
        None => Seq::empty(),
        Some((rest, _)) => rest,
    }
}

/// Round-trip law: parsing a serialized change set gives the changes back.
pub proof fn lemma_change_set_roundtrip(changes: Seq<ManifestChange>)
    requires
        changes.len() <= usize::MAX,
    ensures
        change_set_parse(change_set_serial(changes)) == Some(changes),
{
    let s = change_set_serial(changes);
    lemma_varint_roundtrip(changes.len() as u64, change_set_serial_from(changes, 0));
    assert(s =~= varint_enc(changes.len() as u64) + change_set_serial_from(changes, 0));
    let n = varint_len(changes.len() as u64);
    lemma_changes_parse_from(changes, 0, s, n);
    let parsed = changes_parse_from(s, n, changes.len() as int);
    assert(parsed is Some);
    assert(parsed.unwrap().0 =~= changes.skip(0));
    assert(changes.skip(0) =~= changes);
}

/// Parsing the serialized tail of `changes` from `k` yields that tail.
proof fn lemma_changes_parse_from(changes: Seq<ManifestChange>, k: int, s: Seq<u8>, pos: int)
    requires
        0 <= k <= changes.len(),
        0 <= pos <= s.len(),
        s.skip(pos) =~= change_set_serial_from(changes, k),
    ensures
        ({
            let parsed = changes_parse_from(s, pos, changes.len() - k);
            &&& parsed is Some
            &&& parsed.unwrap().0 =~= changes.skip(k)
            &&& parsed.unwrap().1 == s.len()
        }),
    decreases changes.len() - k,
{
    if k == changes.len() {
        assert(changes_parse_from(s, pos, 0) == Some((Seq::<ManifestChange>::empty(), pos)));
        assert(s.skip(pos).len() == 0);
        assert(changes.skip(k) =~= Seq::<ManifestChange>::empty());
    } else {
        let c = changes[k];
        let tail = change_set_serial_from(changes, k + 1);
        assert(s.skip(pos) =~= change_serial(c) + tail);
        lemma_change_roundtrip_at(c, tail, s, pos);
        let next = pos + change_serial(c).len();
        assert(s.skip(next) =~= tail) by {
            assert(s.skip(pos).skip(change_serial(c).len() as int) =~= s.skip(next));
            assert((change_serial(c) + tail).skip(change_serial(c).len() as int) =~= tail);
        }
        lemma_changes_parse_from(changes, k + 1, s, next);
        assert(seq![c] + changes.skip(k + 1) =~= changes.skip(k));
    }
}

/// `change_parse` at `pos` sees exactly the serialized change there.
proof fn lemma_change_roundtrip_at(c: ManifestChange, rest: Seq<u8>, s: Seq<u8>, pos: int)
    requires
        0 <= pos <= s.len(),
        s.skip(pos) =~= change_serial(c) + rest,
    ensures
        change_parse(s, pos) == Some((c, pos + change_serial(c).len())),
{
    lemma_change_roundtrip(c, rest);
    lemma_change_parse_shift(s, pos);
}

/// Parsing at `pos` is parsing the dropped-prefix sequence at zero.
proof fn lemma_change_parse_shift(s: Seq<u8>, pos: int)
    requires
        0 <= pos <= s.len(),
    ensures
        change_parse(s, pos) == (match change_parse(s.skip(pos), 0) {
            None => None::<(ManifestChange, int)>,
            Some((c, next)) => Some((c, pos + next)),
        }),
{
    let t = s.skip(pos);
    assert(t.skip(0) =~= s.skip(pos));
    match varint_dec(s.skip(pos)) {
        None => {},
        Some((id, n1)) => {
            lemma_varint_dec_len(s.skip(pos));
            if pos + n1 < s.len() {
                assert(t[0 + n1] == s[pos + n1]);
                assert(t.skip(n1 + 1) =~= s.skip(pos + n1 + 1));
                match varint_dec(s.skip(pos + n1 + 1)) {
                    None => {},
                    Some((level, n2)) => {
                        lemma_varint_dec_len(s.skip(pos + n1 + 1));
                        assert(t.skip(n1 + 1 + n2) =~= s.skip(pos + n1 + 1 + n2));
                        match varint_dec(s.skip(pos + n1 + 1 + n2)) {
                            None => {},
                            Some((key_id, n3)) => {
                                lemma_varint_dec_len(s.skip(pos + n1 + 1 + n2));
                                assert(t.skip(n1 + 1 + n2 + n3) =~= s.skip(
                                    pos + n1 + 1 + n2 + n3,
                                ));
                            },
                        }
                    },
                }
            }
        },
    }
}

// ---------------------------------------------------------------------------
// The in-memory manifest
// ---------------------------------------------------------------------------

/// What the manifest records of one table.
#[derive(Debug, Clone, Copy, PartialEq, Eq, Structural)]
pub struct TableManifest {
    pub level: u8,
    pub keyid: u64,
    pub compression: u32,
}

/// The ids of one level's tables.
#[derive(Debug)]
pub struct LevelManifest {
    pub tables: Vec<u64>,
}

/// The authoritative record of which tables live at which level, with the
/// change counters that drive periodic rewrite.
#[derive(Debug)]
pub struct Manifest {
    pub levels: Vec<LevelManifest>,
    pub tables: Vec<(u64, TableManifest)>,
    pub creations: i64,
    pub deletions: i64,
}

/// The listed ids hold `id`.
pub open spec fn table_listed(tables: Seq<(u64, TableManifest)>, id: u64) -> bool {
    exists|i: int| 0 <= i < tables.len() && (#[trigger] tables[i]).0 == id
}

/// No table id is recorded twice.
pub open spec fn manifest_wf(m: Manifest) -> bool {
    forall|i: int, j: int|
        0 <= i < j < m.tables@.len() ==> (#[trigger] m.tables@[i]).0 != (#[trigger] m.tables@[
            j
        ]).0
}

/// The spec-level image of a manifest while changes fold over it: the
/// recorded tables and the two change counters.
pub struct ReplayState {
    pub tables: Seq<(u64, TableManifest)>,
    pub creations: int,
    pub deletions: int,
}

/// The spec image of a manifest value.
pub open spec fn manifest_state(m: Manifest) -> ReplayState {
    ReplayState {
        tables: m.tables@,
        creations: m.creations as int,
        deletions: m.deletions as int,
    }
}

/// What one change does to the recorded tables: a creation appends the
/// table, a deletion removes its entry; a creation of a recorded id or a
/// deletion of an unrecorded one fails.
pub open spec fn apply_change_spec(st: ReplayState, c: ManifestChange) -> Result<
    ReplayState,
    DBError,
> {
    if !c.delete {
        if table_listed(st.tables, c.id) {
            Err(DBError::ManifestInvalidChange)
        } else {
            Ok(
                ReplayState {
                    tables: st.tables.push(
                        (
                            c.id,
                            TableManifest {
                                level: #[verifier::truncate] (c.level as u8),
                                keyid: c.key_id,
                                compression: c.compression,
                            },
                        ),
                    ),
                    creations: st.creations + 1,
                    deletions: st.deletions,
                },
            )
        }
    } else {
        if !table_listed(st.tables, c.id) {
            Err(DBError::ManifestInvalidChange)
        } else {
            let idx = choose|i: int| 0 <= i < st.tables.len() && (#[trigger] st.tables[i]).0 == c.id;
            Ok(
                ReplayState {
                    tables: st.tables.remove(idx),
                    creations: st.creations,
                    deletions: st.deletions + 1,
                },
            )
        }
    }
}

/// Folds a change set over the state from position `k`, stopping at the
/// first bad change or exhausted counter.
pub open spec fn apply_set_spec(st: ReplayState, changes: Seq<ManifestChange>, k: int) -> Result<
    ReplayState,
    DBError,
>
    decreases changes.len() - k,
{
    if k < 0 || k >= changes.len() {
        Ok(st)
    } else if st.creations >= i64::MAX || st.deletions >= i64::MAX {
        Err(DBError::ManifestCorrupted)
    } else {
        match apply_change_spec(st, changes[k]) {
            Err(e) => Err(e),
            Ok(st1) => apply_set_spec(st1, changes, k + 1),
        }
    }
}

/// Under unique ids, the listed index of an id is the one found.
proof fn lemma_listed_unique(tables: Seq<(u64, TableManifest)>, id: u64, idx: int)
    requires
        forall|i: int, j: int|
            0 <= i < j < tables.len() ==> (#[trigger] tables[i]).0 != (#[trigger] tables[j]).0,
        0 <= idx < tables.len(),
        tables[idx].0 == id,
    ensures
        (choose|i: int| 0 <= i < tables.len() && (#[trigger] tables[i]).0 == id) == idx,
{
    assert(0 <= idx < tables.len() && tables[idx].0 == id);
    let c = choose|i: int| 0 <= i < tables.len() && (#[trigger] tables[i]).0 == id;
    if c != idx {
        if c < idx {
            assert(tables[c].0 != tables[idx].0);
        } else {
            assert(tables[idx].0 != tables[c].0);
        }
    }
}

/// Every change creates a table whose id is neither recorded yet nor
/// repeated in the set.
pub open spec fn all_fresh_creations(
    tables0: Seq<(u64, TableManifest)>,
    changes: Seq<ManifestChange>,
) -> bool {
    &&& forall|k: int| 0 <= k < changes.len() ==> !(#[trigger] changes[k]).delete
    &&& forall|k: int|
        0 <= k < changes.len() ==> !table_listed(tables0, (#[trigger] changes[k]).id)
    &&& forall|k1: int, k2: int|
        0 <= k1 < k2 < changes.len() ==> (#[trigger] changes[k1]).id != (#[trigger] changes[
            k2
        ]).id
}

impl Manifest {
    pub fn new() -> (r: Self)
        ensures
            manifest_wf(r),
            r.tables@.len() == 0,
            r.levels@.len() == 0,
            r.creations == 0,
            r.deletions == 0,
    {
        Manifest { levels: Vec::new(), tables: Vec::new(), creations: 0, deletions: 0 }
    }

    /// Finds a recorded table.
    fn find_table(&self, id: u64) -> (r: Option<usize>)
        ensures
            match r {
                None => !table_listed(self.tables@, id),
                Some(i) => i < self.tables@.len() && self.tables@[i as int].0 == id,
            },
    {
        let mut i: usize = 0;
        while i < self.tables.len()
            invariant
                i <= self.tables@.len(),
                forall|x: int| 0 <= x < i ==> (#[trigger] self.tables@[x]).0 != id,
            decreases self.tables@.len() - i,
        {
            if self.tables[i].0 == id {
                return Some(i);
            }
            i = i + 1;
        }
        None
    }

    /// Applies one change. A creation of a recorded id or a deletion of an
    /// unrecorded one fails; otherwise the table record and its level's id
    /// list are updated and the matching counter stepped.
    pub fn apply_manifest_change(&mut self, change: &ManifestChange) -> (r: Result<(), DBError>)
        requires
            manifest_wf(*old(self)),
            old(self).creations < i64::MAX,
            old(self).deletions < i64::MAX,
        ensures
            manifest_wf(*final(self)),
            !change.delete && table_listed(old(self).tables@, change.id) ==> r == Err::<
                (),
                DBError,
            >(DBError::ManifestInvalidChange) && *final(self) == *old(self),
            change.delete && !table_listed(old(self).tables@, change.id) ==> r == Err::<
                (),
                DBError,
            >(DBError::ManifestInvalidChange) && *final(self) == *old(self),
            !change.delete && !table_listed(old(self).tables@, change.id) ==> ({
                &&& r is Ok
                &&& final(self).tables@.len() == old(self).tables@.len() + 1
                &&& final(self).tables@.subrange(0, old(self).tables@.len() as int) == old(
                    self,
                ).tables@
                &&& final(self).tables@.last().0 == change.id
                &&& final(self).tables@.last().1 == (TableManifest {
                    level: #[verifier::truncate] (change.level as u8),
                    keyid: change.key_id,
                    compression: change.compression,
                })
                &&& final(self).creations == old(self).creations + 1
                &&& final(self).deletions == old(self).deletions
                &&& final(self).levels@.len() > change.level as int
                &&& final(self).levels@[change.level as int].tables@.last() == change.id
            }),
            change.delete && table_listed(old(self).tables@, change.id) ==> ({
                &&& r is Ok
                &&& final(self).tables@.len() == old(self).tables@.len() - 1
                &&& !table_listed(final(self).tables@, change.id)
                &&& final(self).deletions == old(self).deletions + 1
                &&& final(self).creations == old(self).creations
                &&& (((change.level as int) < old(self).levels@.len()) ==> ({
                    let lvl = change.level as int;
                    &&& final(self).levels@.len() == old(self).levels@.len()
                    &&& final(self).levels@[lvl].tables@ == remove_id_spec(
                        old(self).levels@[lvl].tables@,
                        change.id,
                    )
                    &&& forall|x: int|
                        0 <= x < old(self).levels@.len() && x != lvl ==> final(self).levels@[x]
                            == old(self).levels@[x]
                }))
                &&& (((change.level as int) >= old(self).levels@.len()) ==> final(self).levels
                    == old(self).levels)
            }),
            match apply_change_spec(manifest_state(*old(self)), *change) {
                Err(e) => r == Err::<(), DBError>(e) && *final(self) == *old(self),
                Ok(st1) => r is Ok && manifest_state(*final(self)) == st1,
            },
    {
        if !change.delete {
            match self.find_table(change.id) {
                Some(_) => {
                    return Err(DBError::ManifestInvalidChange);
                },
                None => {},
            }
            let tm = TableManifest {
                level: #[verifier::truncate] (change.level as u8),
                keyid: change.key_id,
                compression: change.compression,
            };
            self.tables.push((change.id, tm));
            let ghost snap = *self;
            while self.levels.len() <= change.level as usize
                invariant
                    self.tables == snap.tables,
                    self.creations == snap.creations,
                    self.deletions == snap.deletions,
                decreases change.level as int + 1 - self.levels@.len(),
            {
                self.levels.push(LevelManifest { tables: Vec::new() });
            }
            let idx = change.level as usize;
            let mut taken = LevelManifest { tables: Vec::new() };
            core::mem::swap(&mut self.levels[idx], &mut taken);
            taken.tables.push(change.id);
            core::mem::swap(&mut self.levels[idx], &mut taken);
            self.creations = self.creations + 1;
            proof {
                assert(manifest_state(*self) == apply_change_spec(
                    manifest_state(*old(self)),
                    *change,
                ).unwrap()) by {
                    assert(self.tables@ =~= old(self).tables@.push(
                        (
                            change.id,
                            TableManifest {
                                level: #[verifier::truncate] (change.level as u8),
                                keyid: change.key_id,
                                compression: change.compression,
                            },
                        ),
                    ));
                }
            }
            Ok(())
        } else {
            let idx = match self.find_table(change.id) {
                None => {
                    return Err(DBError::ManifestInvalidChange);
                },
                Some(i) => i,
            };
            let ghost before = self.tables@;
            self.tables.remove(idx);
            proof {
                assert forall|x: int|
                    0 <= x < self.tables@.len() implies (#[trigger] self.tables@[x]).0
                    != change.id by {
                    if x < idx {
                        assert(self.tables@[x] == before[x]);
                    } else {
                        assert(self.tables@[x] == before[x + 1]);
                    }
                }
                assert forall|i: int, j: int|
                    0 <= i < j < self.tables@.len() implies (#[trigger] self.tables@[i]).0 != (
                #[trigger] self.tables@[j]).0 by {
                    if j < idx {
                    } else if i < idx {
                        assert(self.tables@[i] == before[i]);
                        assert(self.tables@[j] == before[j + 1]);
                    } else {
                        assert(self.tables@[i] == before[i + 1]);
                        assert(self.tables@[j] == before[j + 1]);
                    }
                }
            }
            if (change.level as usize) < self.levels.len() {
                let lidx = change.level as usize;
                let mut taken = LevelManifest { tables: Vec::new() };
                core::mem::swap(&mut self.levels[lidx], &mut taken);
                taken.tables = remove_id(taken.tables, change.id);
                core::mem::swap(&mut self.levels[lidx], &mut taken);
            }
            self.deletions = self.deletions + 1;
            proof {
                lemma_listed_unique(before, change.id, idx as int);
                assert(self.tables@ == before.remove(idx as int));
                assert(manifest_state(*self) == apply_change_spec(
                    manifest_state(*old(self)),
                    *change,
                ).unwrap());
            }
            Ok(())
        }
    }

    /// Applies a change set in order, stopping at the first bad change or
    /// exhausted change counter: exactly the fold of `apply_change_spec`
    /// over the set.
    pub fn apply_change_set(&mut self, set: &ManifestChangeSet) -> (r: Result<(), DBError>)
        requires
            manifest_wf(*old(self)),
        ensures
            manifest_wf(*final(self)),
            match apply_set_spec(manifest_state(*old(self)), set.changes@, 0) {
                Err(e) => r == Err::<(), DBError>(e),
                Ok(st1) => r is Ok && manifest_state(*final(self)) == st1,
            },
    {
        let ghost st0 = manifest_state(*old(self));
        let ghost changes = set.changes@;
        let mut i: usize = 0;
        while i < set.changes.len()
            invariant
                i <= set.changes@.len(),
                changes == set.changes@,
                st0 == manifest_state(*old(self)),
                manifest_wf(*self),
                apply_set_spec(st0, changes, 0) == apply_set_spec(
                    manifest_state(*self),
                    changes,
                    i as int,
                ),
            decreases set.changes@.len() - i,
        {
            if self.creations >= i64::MAX || self.deletions >= i64::MAX {
                proof {
                    assert(apply_set_spec(manifest_state(*self), changes, i as int)
                        == Err::<ReplayState, DBError>(DBError::ManifestCorrupted));
                }
                return Err(DBError::ManifestCorrupted);
            }
            let c = set.changes[i];
            let ghost st_mid = manifest_state(*self);
            match self.apply_manifest_change(&c) {
                Ok(_) => {
                    proof {
                        assert(apply_change_spec(st_mid, c) == Ok::<ReplayState, DBError>(
                            manifest_state(*self),
                        ));
                    }
                },
                Err(e) => {
                    proof {
                        assert(apply_change_spec(st_mid, c) == Err::<ReplayState, DBError>(e));
                    }
                    return Err(e);
                },
            }
            i = i + 1;
        }
        proof {
            assert(apply_set_spec(manifest_state(*self), changes, i as int)
                == Ok::<ReplayState, DBError>(manifest_state(*self)));
        }
        Ok(())
    }

    /// The creation changes that rebuild this manifest's table record.
    pub fn as_changes(&self) -> (r: Vec<ManifestChange>)
        ensures
            r@.len() == self.tables@.len(),
            forall|i: int|
                0 <= i < r@.len() ==> (#[trigger] r@[i]) == (ManifestChange {
                    id: self.tables@[i].0,
                    delete: false,
                    level: self.tables@[i].1.level as u32,
                    key_id: self.tables@[i].1.keyid,
                    compression: self.tables@[i].1.compression,
                }),
    {
        let mut out: Vec<ManifestChange> = Vec::new();
        let mut i: usize = 0;
        while i < self.tables.len()
            invariant
                i <= self.tables@.len(),
                out@.len() == i,
                forall|x: int|
                    0 <= x < i ==> (#[trigger] out@[x]) == (ManifestChange {
                        id: self.tables@[x].0,
                        delete: false,
                        level: self.tables@[x].1.level as u32,
                        key_id: self.tables@[x].1.keyid,
                        compression: self.tables@[x].1.compression,
                    }),
            decreases self.tables@.len() - i,
        {
            let (id, tm) = self.tables[i];
            out.push(
                ManifestChange {
                    id,
                    delete: false,
                    level: tm.level as u32,
                    key_id: tm.keyid,
                    compression: tm.compression,
                },
            );
            i = i + 1;
        }
        out
    }
}

/// The listed ids with every occurrence of `id` removed, in order.
pub open spec fn remove_id_spec(ids: Seq<u64>, id: u64) -> Seq<u64>
    decreases ids.len(),
{
    if ids.len() == 0 {
        Seq::empty()
    } else {
        let rest = remove_id_spec(ids.drop_last(), id);
        if ids.last() == id {
            rest
        } else {
            rest.push(ids.last())
        }
    }
}

/// Removes every occurrence of `id`, keeping order.
fn remove_id(ids: Vec<u64>, id: u64) -> (r: Vec<u64>)
    ensures
        r@ == remove_id_spec(ids@, id),
{
    let mut out: Vec<u64> = Vec::new();
    let mut i: usize = 0;
    while i < ids.len()
        invariant
            i <= ids@.len(),
            out@ == remove_id_spec(ids@.subrange(0, i as int), id),
        decreases ids@.len() - i,
    {
        proof {
            assert(ids@.subrange(0, i + 1).drop_last() =~= ids@.subrange(0, i as int));
            assert(ids@.subrange(0, i + 1).last() == ids@[i as int]);
        }
        if ids[i] != id {
            out.push(ids[i]);
        }
        i = i + 1;
    }
    proof {
        assert(ids@.subrange(0, ids@.len() as int) =~= ids@);
    }
    out
}

// ---------------------------------------------------------------------------
// File framing
// ---------------------------------------------------------------------------

/// The manifest file header: the magic text, the caller's magic, and this
/// crate's format version.
pub open spec fn manifest_header(ext_magic: u16) -> Seq<u8> {
    magic_text() + u16_be_bytes(ext_magic) + u16_be_bytes(BADGER_MAGIC_VERSION)
}

/// One framed record: the payload length, its CRC, and the payload.
pub open spec fn record_serial(payload: Seq<u8>) -> Seq<u8> {
    u32_be_bytes(payload.len() as u32) + u32_be_bytes(crc32_of(payload)) + payload
}

/// Builds the bytes one appended change set adds to the file.
pub fn encode_record(set: &ManifestChangeSet) -> (r: Result<Vec<u8>, DBError>)
    ensures
        r is Ok ==> r.unwrap()@ =~= record_serial(change_set_serial(set.changes@)),
        r is Err ==> change_set_serial(set.changes@).len() > u32::MAX,
    {
    let payload = encode_change_set(set);
    if payload.len() > u32::MAX as usize {
        proof {
            assert(change_set_serial(set.changes@).len() > u32::MAX);
        }
        return Err(DBError::ManifestCorrupted);
    }
    let mut out: Vec<u8> = Vec::new();
    push_u32_be(&mut out, payload.len() as u32);
    let crc = crc32(payload.as_slice());
    push_u32_be(&mut out, crc);
    extend_from_slice(&mut out, payload.as_slice());
    Ok(out)
}

/// Builds a whole rewritten manifest file: the header and one record
/// holding every live table as a creation. Returns the bytes and the net
/// creation count.
pub fn build_rewrite_bytes(manifest: &Manifest, ext_magic: u16) -> (r: Result<
    (Vec<u8>, usize),
    DBError,
>)
    ensures
        r is Ok ==> ({
            let changes = manifest.as_changes_spec();
            &&& r.unwrap().0@ =~= manifest_header(ext_magic) + record_serial(
                change_set_serial(changes),
            )
            &&& r.unwrap().1 == manifest.tables@.len()
        }),
        r is Err ==> change_set_serial(manifest.as_changes_spec()).len() > u32::MAX,
{
    let mut out = magic_text_bytes();
    push_u16_be(&mut out, ext_magic);
    push_u16_be(&mut out, BADGER_MAGIC_VERSION);
    let changes = self_changes(manifest);
    let set = ManifestChangeSet { changes };
    let record = match encode_record(&set) {
        Ok(rec) => rec,
        Err(e) => {
            return Err(e);
        },
    };
    extend_from_slice(&mut out, record.as_slice());
    let net_creations = manifest.tables.len();
    proof {
        assert(set.changes@ =~= manifest.as_changes_spec());
    }
    Ok((out, net_creations))
}

/// Calls `as_changes`.
fn self_changes(manifest: &Manifest) -> (r: Vec<ManifestChange>)
    ensures
        r@ =~= manifest.as_changes_spec(),
{
    let r = manifest.as_changes();
    proof {
        assert(r@ =~= manifest.as_changes_spec());
    }
    r
}

impl Manifest {
    /// The creation changes `as_changes` yields, one per recorded table.
    pub open spec fn as_changes_spec(&self) -> Seq<ManifestChange> {
        Seq::new(
            self.tables@.len(),
            |i: int|
                ManifestChange {
                    id: self.tables@[i].0,
                    delete: false,
                    level: self.tables@[i].1.level as u32,
                    key_id: self.tables@[i].1.keyid,
                    compression: self.tables@[i].1.compression,
                },
        )
    }
}

/// The record walk of a replay, from `offset`: a tail of fewer than eight
/// bytes ends the walk cleanly; a record length past the file or a CRC or
/// payload that does not hold fails; otherwise the decoded change set folds
/// into the state and the walk continues after the record.
pub open spec fn replay_loop_spec(s: Seq<u8>, offset: int, st: ReplayState) -> Result<
    (ReplayState, int),
    DBError,
>
    decreases s.len() - offset,
{
    if offset < 0 || s.len() - offset < 8 {
        Ok((st, offset))
    } else {
        let len = u32_from_be_spec(s.skip(offset)) as int;
        let crc = u32_from_be_spec(s.skip(offset + 4));
        if len > s.len() - offset - 8 {
            Err(DBError::ManifestCorrupted)
        } else {
            let payload = s.subrange(offset + 8, offset + 8 + len);
            if crc32_of(payload) != crc {
                Err(DBError::ChecksumMismatch)
            } else {
                match change_set_parse(payload) {
                    None => Err(DBError::ManifestCorrupted),
                    Some(changes) => match apply_set_spec(st, changes, 0) {
                        Err(e) => Err(e),
                        Ok(st1) => replay_loop_spec(s, offset + 8 + len, st1),
                    },
                }
            }
        }
    }
}

/// The state a replay starts from: nothing recorded.
pub open spec fn replay_initial_state() -> ReplayState {
    ReplayState { tables: Seq::empty(), creations: 0, deletions: 0 }
}

/// Replays a manifest file: checks the magic and versions, then folds each
/// framed record whose length and CRC hold, stopping cleanly at a truncated
/// tail. Returns the manifest and the offset after the last whole record —
/// the truncation point. The result is exactly the walk of
/// `replay_loop_spec` from the empty state.
pub fn replay_manifest_bytes(data: &[u8], ext_magic: u16) -> (r: Result<
    (Manifest, usize),
    DBError,
>)
    ensures
        r is Ok ==> manifest_wf(r.unwrap().0) && r.unwrap().1 <= data@.len(),
        data@.len() < 8 ==> r == Err::<(Manifest, usize), DBError>(DBError::ManifestBadMagic),
        data@.len() >= 8 && data@.subrange(0, 4) != magic_text() ==> r == Err::<
            (Manifest, usize),
            DBError,
        >(DBError::ManifestBadMagic),
        data@.len() >= 8 && data@.subrange(0, 4) == magic_text() ==> ({
            let ext_version = u16_from_be_spec(data@.skip(4));
            let version = u16_from_be_spec(data@.skip(6));
            if version != BADGER_MAGIC_VERSION {
                r == Err::<(Manifest, usize), DBError>(
                    DBError::ManifestVersionMismatch(version, BADGER_MAGIC_VERSION),
                )
            } else if ext_version != ext_magic {
                r == Err::<(Manifest, usize), DBError>(
                    DBError::ManifestVersionMismatch(ext_version, ext_magic),
                )
            } else {
                match replay_loop_spec(data@, 8, replay_initial_state()) {
                    Err(e) => r == Err::<(Manifest, usize), DBError>(e),
                    Ok((st, off)) => {
                        &&& r is Ok
                        &&& manifest_state(r.unwrap().0) == st
                        &&& r.unwrap().1 as int == off
                    },
                }
            }
        }),
{
    let dlen = data.len();
    if dlen < 8 {
        return Err(DBError::ManifestBadMagic);
    }
    let magic = magic_text_bytes();
    let head = &data[0..4];
    let ord = crate::codec::cmp_bytes(head, magic.as_slice());
    proof {
        crate::codec::lemma_lex_cmp_eq(head@, magic@);
        assert(head@ =~= data@.subrange(0, 4));
    }
    if !matches!(ord, core::cmp::Ordering::Equal) {
        return Err(DBError::ManifestBadMagic);
    }
    let ext_version = read_u16_be(data, 4);
    let version = read_u16_be(data, 6);
    if version != BADGER_MAGIC_VERSION {
        return Err(DBError::ManifestVersionMismatch(version, BADGER_MAGIC_VERSION));
    }
    if ext_version != ext_magic {
        return Err(DBError::ManifestVersionMismatch(ext_version, ext_magic));
    }
    let mut manifest = Manifest::new();
    let mut offset: usize = 8;
    proof {
        assert(manifest.tables@ =~= Seq::<(u64, TableManifest)>::empty());
        assert(manifest_state(manifest) == replay_initial_state());
    }
    loop
        invariant
            dlen == data@.len(),
            data@.subrange(0, 4) == magic_text(),
            u16_from_be_spec(data@.skip(6)) == BADGER_MAGIC_VERSION,
            u16_from_be_spec(data@.skip(4)) == ext_magic,
            8 <= offset <= data@.len(),
            data@.len() <= usize::MAX,
            manifest_wf(manifest),
            replay_loop_spec(data@, 8, replay_initial_state()) == replay_loop_spec(
                data@,
                offset as int,
                manifest_state(manifest),
            ),
        ensures
            offset <= data@.len(),
            manifest_wf(manifest),
            replay_loop_spec(data@, 8, replay_initial_state()) == replay_loop_spec(
                data@,
                offset as int,
                manifest_state(manifest),
            ),
            data@.len() - offset < 8,
        decreases data@.len() - offset,
    {
        if dlen - offset < 8 {
            break ;
        }
        let change_len = read_u32_be(data, offset) as usize;
        let crc_stored = read_u32_be(data, offset + 4);
        proof {
            assert(change_len as int == u32_from_be_spec(data@.skip(offset as int)) as int);
            assert(crc_stored == u32_from_be_spec(data@.skip(offset as int + 4)));
        }
        if change_len > dlen - offset - 8 {
            return Err(DBError::ManifestCorrupted);
        }
        let payload = &data[offset + 8..offset + 8 + change_len];
        proof {
            assert(payload@ =~= data@.subrange(
                offset as int + 8,
                offset as int + 8 + change_len as int,
            ));
        }
        let crc_actual = crc32(payload);
        if crc_actual != crc_stored {
            return Err(DBError::ChecksumMismatch);
        }
        let set = match decode_change_set(payload) {
            None => {
                return Err(DBError::ManifestCorrupted);
            },
            Some(set) => set,
        };
        let ghost st_mid = manifest_state(manifest);
        match manifest.apply_change_set(&set) {
            Ok(_) => {
                proof {
                    assert(apply_set_spec(st_mid, set.changes@, 0) == Ok::<ReplayState, DBError>(
                        manifest_state(manifest),
                    ));
                }
            },
            Err(e) => {
                proof {
                    assert(apply_set_spec(st_mid, set.changes@, 0) == Err::<ReplayState, DBError>(
                        e,
                    ));
                }
                return Err(e);
            },
        }
        offset = offset + 8 + change_len;
    }
    proof {
        assert(replay_loop_spec(data@, offset as int, manifest_state(manifest))
            == Ok::<(ReplayState, int), DBError>((manifest_state(manifest), offset as int)));
    }
    Ok((manifest, offset))
}

// ---------------------------------------------------------------------------
// Durability law
// ---------------------------------------------------------------------------

/// Applying fresh creations always succeeds and appends exactly the
/// created tables, in order.
pub proof fn lemma_apply_set_fresh(st: ReplayState, changes: Seq<ManifestChange>, k: int)
    requires
        0 <= k <= changes.len(),
        forall|j: int| k <= j < changes.len() ==> !(#[trigger] changes[j]).delete,
        forall|j: int|
            k <= j < changes.len() ==> !table_listed(st.tables, (#[trigger] changes[j]).id),
        forall|j1: int, j2: int|
            k <= j1 < j2 < changes.len() ==> (#[trigger] changes[j1]).id != (#[trigger] changes[
                j2
            ]).id,
        st.creations + (changes.len() - k) <= i64::MAX,
        st.deletions < i64::MAX,
        st.creations >= 0,
    ensures
        ({
            let res = apply_set_spec(st, changes, k);
            &&& res is Ok
            &&& res.unwrap().tables.len() == st.tables.len() + (changes.len() - k)
            &&& res.unwrap().tables.subrange(0, st.tables.len() as int) == st.tables
            &&& forall|j: int|
                k <= j < changes.len() ==> (#[trigger] res.unwrap().tables[st.tables.len() + (j
                    - k)]) == (
                    changes[j].id,
                    TableManifest {
                        level: #[verifier::truncate] (changes[j].level as u8),
                        keyid: changes[j].key_id,
                        compression: changes[j].compression,
                    },
                )
            &&& res.unwrap().creations == st.creations + (changes.len() - k)
            &&& res.unwrap().deletions == st.deletions
        }),
    decreases changes.len() - k,
{
    if k == changes.len() {
        assert(apply_set_spec(st, changes, k) == Ok::<ReplayState, DBError>(st));
        assert(st.tables.subrange(0, st.tables.len() as int) =~= st.tables);
    } else {
        let c = changes[k];
        assert(!table_listed(st.tables, c.id));
        let st1 = apply_change_spec(st, c).unwrap();
        assert forall|j: int|
            k + 1 <= j < changes.len() implies !table_listed(
            st1.tables,
            (#[trigger] changes[j]).id,
        ) by {
            if table_listed(st1.tables, changes[j].id) {
                let i = choose|i: int|
                    0 <= i < st1.tables.len() && (#[trigger] st1.tables[i]).0 == changes[j].id;
                if i < st.tables.len() {
                    assert(st1.tables[i] == st.tables[i]);
                    assert(table_listed(st.tables, changes[j].id));
                } else {
                    assert(st1.tables[i].0 == c.id);
                    assert(changes[k].id != changes[j].id);
                }
            }
        }
        lemma_apply_set_fresh(st1, changes, k + 1);
        let res = apply_set_spec(st, changes, k);
        assert(res == apply_set_spec(st1, changes, k + 1));
        assert(res.unwrap().tables.subrange(0, st.tables.len() as int) =~= st.tables) by {
            let after = res.unwrap().tables;
            assert(after.subrange(0, st1.tables.len() as int) == st1.tables);
            assert(forall|x: int|
                0 <= x < st1.tables.len() ==> after[x] == #[trigger] st1.tables[x]);
            assert(forall|x: int|
                0 <= x < st.tables.len() ==> st1.tables[x] == #[trigger] st.tables[x]);
        }
        assert forall|j: int|
            k <= j < changes.len() implies (#[trigger] res.unwrap().tables[st.tables.len() + (j
            - k)]) == (
            changes[j].id,
            TableManifest {
                level: #[verifier::truncate] (changes[j].level as u8),
                keyid: changes[j].key_id,
                compression: changes[j].compression,
            },
        ) by {
            let after = res.unwrap().tables;
            if j == k {
                assert(after[st1.tables.len() - 1] == st1.tables[st1.tables.len() - 1]) by {
                    assert(after.subrange(0, st1.tables.len() as int) == st1.tables);
                    assert(after.subrange(0, st1.tables.len() as int)[st1.tables.len() - 1]
                        == after[st1.tables.len() - 1]);
                }
            } else {
                assert(after[st1.tables.len() + (j - (k + 1))] == (
                    changes[j].id,
                    TableManifest {
                        level: #[verifier::truncate] (changes[j].level as u8),
                        keyid: changes[j].key_id,
                        compression: changes[j].compression,
                    },
                ));
            }
        }
    }
}

/// Manifest durability: the changes a rewrite writes are fresh creations
/// against an empty manifest, and replaying them — the exact
/// `apply_change_set` fold the file replay performs — records exactly the
/// tables that were written, in order, with the creation counter at their
/// count. With the change-set and framing round trips, replaying a
/// rewritten file yields the in-memory state that existed when it was
/// written.
pub proof fn lemma_manifest_durability(m: Manifest)
    requires
        manifest_wf(m),
        m.tables@.len() <= i64::MAX,
    ensures
        all_fresh_creations(Seq::empty(), m.as_changes_spec()),
        ({
            let res = apply_set_spec(replay_initial_state(), m.as_changes_spec(), 0);
            &&& res is Ok
            &&& res.unwrap().tables =~= m.tables@
            &&& res.unwrap().creations == m.tables@.len()
            &&& res.unwrap().deletions == 0
        }),
{
    let changes = m.as_changes_spec();
    assert forall|k: int| 0 <= k < changes.len() implies !table_listed(
        Seq::empty(),
        (#[trigger] changes[k]).id,
    ) by {
        assert(Seq::<(u64, TableManifest)>::empty().len() == 0);
    }
    lemma_apply_set_fresh(replay_initial_state(), changes, 0);
    let res = apply_set_spec(replay_initial_state(), changes, 0);
    assert forall|j: int| 0 <= j < m.tables@.len() implies (#[trigger] res.unwrap().tables[j])
        == m.tables@[j] by {
        let c = changes[j];
        assert(res.unwrap().tables[0 + (j - 0)] == (
            c.id,
            TableManifest {
                level: #[verifier::truncate] (c.level as u8),
                keyid: c.key_id,
                compression: c.compression,
            },
        ));
        assert(c.level == m.tables@[j].1.level as u32);
        assert((c.level as u8) as u32 == c.level);
    }
}

} // verus!
