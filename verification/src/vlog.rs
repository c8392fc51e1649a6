//! The value log: an append-only store of records
//! `header | serialized KeyTs | value | crc32`, addressed by `ValuePointer`.
//! Values above the threshold are spilled here; the tree keeps the pointer.

use vstd::prelude::*;

use crate::codec::extend_from_slice;
use crate::codec::push_u32_be;
use crate::codec::push_varint;
use crate::codec::read_u32_be;
use crate::codec::read_varint;
use crate::codec::lemma_varint_dec_len;
use crate::codec::lemma_varint_len_le_10;
use crate::codec::lemma_varint_roundtrip;
use crate::codec::lemma_u32_be_roundtrip;
use crate::codec::u32_be_bytes;
use crate::codec::u32_from_be_spec;
use crate::codec::varint_dec;
use crate::codec::varint_enc;
use crate::codec::varint_len;
use crate::errors::DBError;
use crate::hashing::crc32;
use crate::hashing::crc32_of;
use crate::kv::keyts_serial;
use crate::kv::Entry;
use crate::kv::ValuePointer;
use crate::kv::META_FIN_TXN;
use crate::kv::META_TXN;

verus! {

/// No value-log file may grow past what a 32-bit offset can address.
pub const MAX_VLOG_FILE_SIZE: usize = 0xFFFF_FFFF;

/// The most bytes a record header can take: two flag bytes and three
/// varints.
pub const MAX_HEADER_SIZE: usize = 32;

// ---------------------------------------------------------------------------
// Record framing
// ---------------------------------------------------------------------------

/// The header of a value-log record:
/// `meta(1) | user_meta(1) | varint(key_ts_len) | varint(value_len) |
/// varint(expires_at)`.
pub open spec fn vlog_header_serial(
    meta: u8,
    user_meta: u8,
    key_ts_len: u64,
    value_len: u64,
    expires_at: u64,
) -> Seq<u8> {
    seq![meta, user_meta] + varint_enc(key_ts_len) + varint_enc(value_len) + varint_enc(expires_at)
}

/// A whole record: the header, the serialized key, the value bytes, and a
/// big-endian CRC-32 over everything before it.
pub open spec fn vlog_record_serial(
    key: Seq<u8>,
    ts: u64,
    value: Seq<u8>,
    meta: u8,
    user_meta: u8,
    expires_at: u64,
) -> Seq<u8> {
    let payload = vlog_header_serial(
        meta,
        user_meta,
        (key.len() + 8) as u64,
        value.len() as u64,
        expires_at,
    ) + keyts_serial(key, ts) + value;
    payload + u32_be_bytes(crc32_of(payload))
}

/// What a parsed record holds: the serialized key, the value, the two flag
/// bytes and the expiry.
pub struct ParsedRecord {
    pub key_ts_bytes: Seq<u8>,
    pub value: Seq<u8>,
    pub meta: u8,
    pub user_meta: u8,
    pub expires_at: int,
    pub header_len: int,
}

/// Parses a record: header, then the key and value regions the header
/// announces, then the CRC check over everything before the CRC itself.
pub open spec fn vlog_record_parse(s: Seq<u8>) -> Option<ParsedRecord> {
    if s.len() < 2 {
        None
    } else {
        match varint_dec(s.skip(2)) {
            None => None,
            Some((klen, n1)) => match varint_dec(s.skip(2 + n1)) {
                None => None,
                Some((vlen, n2)) => match varint_dec(s.skip(2 + n1 + n2)) {
                    None => None,
                    Some((expires_at, n3)) => {
                        let header_len = 2 + n1 + n2 + n3;
                        if klen > u64::MAX as int || vlen > u64::MAX as int || expires_at
                            > u64::MAX as int {
                            None
                        } else if s.len() != header_len + klen + vlen + 4 {
                            None
                        } else if u32_from_be_spec(s.skip(s.len() - 4)) != crc32_of(
                            s.subrange(0, s.len() - 4),
                        ) {
                            None
                        } else {
                            Some(
                                ParsedRecord {
                                    key_ts_bytes: s.subrange(header_len, header_len + klen),
                                    value: s.subrange(header_len + klen, header_len + klen + vlen),
                                    meta: s[0],
                                    user_meta: s[1],
                                    expires_at,
                                    header_len,
                                },
                            )
                        }
                    },
                },
            },
        }
    }
}

/// Round-trip law: parsing an encoded record gives the entry back.
#[verifier::rlimit(60)]
pub proof fn lemma_vlog_record_roundtrip(
    key: Seq<u8>,
    ts: u64,
    value: Seq<u8>,
    meta: u8,
    user_meta: u8,
    expires_at: u64,
)
    requires
        key.len() + 8 <= u64::MAX,
        value.len() <= u64::MAX,
    ensures
        ({
            let s = vlog_record_serial(key, ts, value, meta, user_meta, expires_at);
            let p = vlog_record_parse(s);
            &&& p is Some
            &&& p.unwrap().key_ts_bytes == keyts_serial(key, ts)
            &&& p.unwrap().value == value
            &&& p.unwrap().meta == meta
            &&& p.unwrap().user_meta == user_meta
            &&& p.unwrap().expires_at == expires_at as int
        }),
{
    let klen = (key.len() + 8) as u64;
    let vlen = value.len() as u64;
    let header = vlog_header_serial(meta, user_meta, klen, vlen, expires_at);
    let payload = header + keyts_serial(key, ts) + value;
    let s = vlog_record_serial(key, ts, value, meta, user_meta, expires_at);
    let rest1 = varint_enc(vlen) + varint_enc(expires_at) + keyts_serial(key, ts) + value
        + u32_be_bytes(crc32_of(payload));
    assert(s.skip(2) =~= varint_enc(klen) + rest1);
    lemma_varint_roundtrip(klen, rest1);
    let n1 = varint_len(klen);
    let rest2 = varint_enc(expires_at) + keyts_serial(key, ts) + value + u32_be_bytes(
        crc32_of(payload),
    );
    assert(s.skip(2 + n1) =~= varint_enc(vlen) + rest2);
    lemma_varint_roundtrip(vlen, rest2);
    let n2 = varint_len(vlen);
    let rest3 = keyts_serial(key, ts) + value + u32_be_bytes(crc32_of(payload));
    assert(s.skip(2 + n1 + n2) =~= varint_enc(expires_at) + rest3);
    lemma_varint_roundtrip(expires_at, rest3);
    let n3 = varint_len(expires_at);
    let header_len = 2 + n1 + n2 + n3;
    assert(header.len() == header_len);
    assert(s.len() == header_len + klen + vlen + 4);
    assert(s.skip(s.len() - 4) =~= u32_be_bytes(crc32_of(payload)));
    lemma_u32_be_roundtrip(crc32_of(payload));
    assert(s.subrange(0, s.len() - 4) =~= payload);
    assert(s.subrange(header_len, header_len + klen) =~= keyts_serial(key, ts));
    assert(s.subrange(header_len + klen, header_len + klen + vlen as int) =~= value);
}

/// The meta bits a record carries: the commit-group markers are cleared in
/// the value-log copy, they apply only to tree replay.
pub open spec fn vlog_stored_meta(meta: u8) -> u8 {
    meta & !(META_TXN | META_FIN_TXN)
}

/// Encodes `entry` as one value-log record into `buf` (cleared first) and
/// returns the record length. The commit-group bits are cleared in the
/// stored copy.
pub fn encode_entry(buf: &mut Vec<u8>, entry: &Entry) -> (r: usize)
    requires
        entry.key_ts.key@.len() + 8 <= u64::MAX,
        entry.value_meta.value@.len() <= u64::MAX,
        entry.key_ts.key@.len() + entry.value_meta.value@.len() + MAX_HEADER_SIZE + 12
            <= usize::MAX,
    ensures
        final(buf)@ =~= vlog_record_serial(
            entry.key_ts.key@,
            entry.key_ts.txn_ts.0,
            entry.value_meta.value@,
            vlog_stored_meta(entry.value_meta.meta.0),
            entry.value_meta.user_meta,
            entry.value_meta.expires_at.0,
        ),
        r == final(buf)@.len(),
        r <= entry.key_ts.key@.len() + entry.value_meta.value@.len() + MAX_HEADER_SIZE + 12,
{
    buf.clear();
    let stored_meta = entry.value_meta.meta.0 & !(META_TXN | META_FIN_TXN);
    buf.push(stored_meta);
    buf.push(entry.value_meta.user_meta);
    let klen = entry.key_ts.key.len() as u64 + 8;
    push_varint(buf, klen);
    push_varint(buf, entry.value_meta.value.len() as u64);
    push_varint(buf, entry.value_meta.expires_at.0);
    proof {
        lemma_varint_len_le_10(klen);
        lemma_varint_len_le_10(entry.value_meta.value@.len() as u64);
        lemma_varint_len_le_10(entry.value_meta.expires_at.0);
    }
    extend_from_slice(buf, entry.key_ts.key.as_slice());
    crate::codec::push_u64_be(buf, entry.key_ts.txn_ts.0);
    extend_from_slice(buf, entry.value_meta.value.as_slice());
    proof {
        assert(buf@ =~= vlog_header_serial(
            stored_meta,
            entry.value_meta.user_meta,
            klen,
            entry.value_meta.value@.len() as u64,
            entry.value_meta.expires_at.0,
        ) + keyts_serial(entry.key_ts.key@, entry.key_ts.txn_ts.0) + entry.value_meta.value@);
    }
    let crc = crc32(buf.as_slice());
    push_u32_be(buf, crc);
    buf.len()
}

// ---------------------------------------------------------------------------
// The value log itself
// ---------------------------------------------------------------------------

/// One append-only segment file.
pub struct VlogFile {
    pub fid: u32,
    pub data: Vec<u8>,
}

/// Sizing of the value log.
pub struct VlogConfig {
    /// Rotate the writable file once its offset passes this.
    pub vlog_file_size: usize,
    /// Rotate once this many records were written to a file.
    pub vlog_max_entries: usize,
    /// Values shorter than this stay in the tree.
    pub value_threshold: usize,
}

/// A batch handed to the write pipeline: entries paired with the pointer
/// slots the pipeline fills in.
pub struct WriteReq {
    pub entries_vptrs: Vec<(Entry, ValuePointer)>,
}

/// The value log: its segment files, the writable offset in the last one,
/// and a count of records written to it.
pub struct ValueLog {
    pub files: Vec<VlogFile>,
    pub writable_log_offset: usize,
    pub num_entries_written: usize,
    pub config: VlogConfig,
}

/// The value log is coherent: at least one file, file ids are the indexes,
/// the writable offset is the length of the last file, and no file has
/// outgrown a 32-bit offset.
pub open spec fn vlog_wf(v: ValueLog) -> bool {
    &&& v.files@.len() >= 1
    &&& v.files@.len() <= u32::MAX
    &&& forall|i: int| 0 <= i < v.files@.len() ==> (#[trigger] v.files@[i].fid) == i as u32
    &&& v.writable_log_offset == v.files@.last().data@.len()
    &&& forall|i: int| 0 <= i < v.files@.len() ==> (#[trigger] v.files@[i].data@.len())
        <= MAX_VLOG_FILE_SIZE
}

/// The bytes a pointer addresses, when it addresses any.
pub open spec fn record_at(files: Seq<VlogFile>, p: ValuePointer) -> Option<Seq<u8>> {
    if p.fid < files.len() && p.offset + p.len <= files[p.fid as int].data@.len() {
        Some(files[p.fid as int].data@.subrange(p.offset as int, p.offset as int + p.len as int))
    } else {
        None
    }
}

impl ValueLog {
    pub fn new(config: VlogConfig) -> (r: Self)
        ensures
            vlog_wf(r),
            r.files@.len() == 1,
            r.writable_log_offset == 0,
            r.num_entries_written == 0,
            r.config == config,
    {
        let mut files: Vec<VlogFile> = Vec::new();
        files.push(VlogFile { fid: 0, data: Vec::new() });
        ValueLog { files, writable_log_offset: 0, num_entries_written: 0, config }
    }

    pub fn writable_log_offset(&self) -> (r: usize)
        ensures
            r == self.writable_log_offset,
    {
        self.writable_log_offset
    }

    /// Reserves `size` bytes at the current offset and returns where the
    /// reservation starts.
    pub fn writable_log_offset_fetch_add(&mut self, size: usize) -> (r: usize)
        requires
            old(self).writable_log_offset + size <= usize::MAX,
        ensures
            r == old(self).writable_log_offset,
            final(self).writable_log_offset == old(self).writable_log_offset + size,
            final(self).files == old(self).files,
            final(self).num_entries_written == old(self).num_entries_written,
            final(self).config == old(self).config,
    {
        let r = self.writable_log_offset;
        self.writable_log_offset = self.writable_log_offset + size;
        r
    }
}

// ---------------------------------------------------------------------------
// Admission control for a write batch
// ---------------------------------------------------------------------------

/// The budget one entry claims in a file: the largest header, the
/// serialized key, the value, and the CRC.
pub open spec fn entry_budget(e: Entry) -> int {
    MAX_HEADER_SIZE + e.key_ts.key@.len() + 8 + e.value_meta.value@.len() + 4
}

/// The budget a whole request claims.
pub open spec fn req_size(s: Seq<(Entry, ValuePointer)>) -> int
    decreases s.len(),
{
    if s.len() == 0 {
        0
    } else {
        entry_budget(s[0].0) + req_size(s.skip(1))
    }
}

/// Appending a pair adds exactly its budget.
pub proof fn lemma_req_size_push(s: Seq<(Entry, ValuePointer)>, x: (Entry, ValuePointer))
    ensures
        req_size(s.push(x)) == req_size(s) + entry_budget(x.0),
    decreases s.len(),
{
    if s.len() == 0 {
        assert(s.push(x)[0] == x);
        assert(s.push(x).skip(1) =~= Seq::<(Entry, ValuePointer)>::empty());
        assert(req_size(s.push(x)) == entry_budget(x.0) + req_size(s.push(x).skip(1)));
        assert(req_size(s.push(x).skip(1)) == 0);
        assert(req_size(s) == 0);
    } else {
        assert(s.push(x)[0] == s[0]);
        assert(s.push(x).skip(1) =~= s.skip(1).push(x));
        lemma_req_size_push(s.skip(1), x);
        assert(req_size(s.push(x)) == entry_budget(s.push(x)[0].0) + req_size(s.push(x).skip(1)));
        assert(req_size(s) == entry_budget(s[0].0) + req_size(s.skip(1)));
    }
}

pub proof fn lemma_req_size_nonneg(s: Seq<(Entry, ValuePointer)>)
    ensures
        req_size(s) >= 0,
    decreases s.len(),
{
    if s.len() > 0 {
        lemma_req_size_nonneg(s.skip(1));
    }
}

/// Whether a batch fits: walking the requests with their budgets, no
/// running estimate may pass the largest file size; an estimate at or past
/// the rotation point starts the next file at zero.
pub open spec fn validate_from(reqs: Seq<WriteReq>, offset: int, file_size: int) -> bool
    decreases reqs.len(),
{
    if reqs.len() == 0 {
        true
    } else {
        let est = offset + req_size(reqs[0].entries_vptrs@);
        if est > MAX_VLOG_FILE_SIZE as int {
            false
        } else {
            validate_from(reqs.skip(1), if est >= file_size { 0 } else { est }, file_size)
        }
    }
}

impl ValueLog {
    /// Rejects a batch whose running size would push any single file past
    /// the largest offset a value pointer can address.
    pub fn validate_write(&self, reqs: &Vec<WriteReq>) -> (r: Result<(), DBError>)
        requires
            vlog_wf(*self),
        ensures
            r is Ok <==> validate_from(
                reqs@,
                self.writable_log_offset as int,
                self.config.vlog_file_size as int,
            ),
            r is Err ==> r == Err::<(), DBError>(DBError::ValuelogSize),
    {
        let mut vlog_offset: u128 = self.writable_log_offset as u128;
        let mut i: usize = 0;
        proof {
            assert(reqs@.skip(0) =~= reqs@);
        }
        while i < reqs.len()
            invariant
                i <= reqs@.len(),
                vlog_offset <= MAX_VLOG_FILE_SIZE,
                validate_from(
                    reqs@,
                    self.writable_log_offset as int,
                    self.config.vlog_file_size as int,
                ) == validate_from(
                    reqs@.skip(i as int),
                    vlog_offset as int,
                    self.config.vlog_file_size as int,
                ),
            decreases reqs@.len() - i,
        {
            let entries = &reqs[i].entries_vptrs;
            let ghost es = entries@;
            let mut size: u128 = 0;
            let mut j: usize = 0;
            let mut overflowed = false;
            proof {
                assert(es.skip(0) =~= es);
            }
            while j < entries.len()
                invariant
                    j <= es.len(),
                    es == entries@,
                    !overflowed ==> size as int + req_size(es.skip(j as int)) == req_size(es),
                    !overflowed ==> size <= MAX_VLOG_FILE_SIZE as u128 + 1,
                    overflowed ==> req_size(es) > MAX_VLOG_FILE_SIZE as int,
                decreases es.len() - j,
            {
                if !overflowed {
                    let e = &entries[j].0;
                    proof {
                        assert(es.skip(j as int)[0] == es[j as int]);
                        assert(es.skip(j as int).skip(1) =~= es.skip(j as int + 1));
                        lemma_req_size_nonneg(es.skip(j as int + 1));
                    }
                    let budget: u128 = MAX_HEADER_SIZE as u128 + e.key_ts.key.len() as u128 + 8
                        + e.value_meta.value.len() as u128 + 4;
                    size = size + budget;
                    if size > MAX_VLOG_FILE_SIZE as u128 {
                        overflowed = true;
                    }
                } else {
                    proof {
                        assert(es.skip(j as int).skip(1) =~= es.skip(j as int + 1));
                    }
                }
                j = j + 1;
            }
            proof {
                assert(es.skip(es.len() as int) =~= Seq::<(Entry, ValuePointer)>::empty());
                assert(reqs@.skip(i as int)[0] == reqs@[i as int]);
                assert(reqs@.skip(i as int).skip(1) =~= reqs@.skip(i as int + 1));
            }
            if overflowed {
                return Err(DBError::ValuelogSize);
            }
            let estimate: u128 = vlog_offset + size;
            if estimate > MAX_VLOG_FILE_SIZE as u128 {
                return Err(DBError::ValuelogSize);
            }
            if estimate >= self.config.vlog_file_size as u128 {
                vlog_offset = 0;
            } else {
                vlog_offset = estimate;
            }
            i = i + 1;
        }
        proof {
            assert(reqs@.skip(i as int) =~= Seq::<WriteReq>::empty());
        }
        Ok(())
    }

    /// Follows a value pointer: finds the file, checks the bounds and the
    /// CRC, and decodes the record back into an entry. The stored entry
    /// carries only the key, version and value; header flags stay with the
    /// record.
    pub fn read(&self, p: &ValuePointer) -> (r: Result<Entry, DBError>)
        ensures
            match record_at(self.files@, *p) {
                None => r == Err::<Entry, DBError>(DBError::InvalidValuePointer),
                Some(bytes) => match vlog_record_parse(bytes) {
                    None => r is Err,
                    Some(pr) => {
                        &&& r is Ok
                        &&& r.unwrap().key_ts.key@ == crate::kv::keyts_parse_key(pr.key_ts_bytes)
                        &&& r.unwrap().key_ts.txn_ts.0 == crate::kv::keyts_parse_ts(
                            pr.key_ts_bytes,
                        )
                        &&& r.unwrap().value_meta.value@ == pr.value
                        &&& r.unwrap().offset == p.offset
                        &&& r.unwrap().header_len as int == pr.header_len
                    },
                },
            },
    {
        let fid = p.fid as usize;
        if fid >= self.files.len() {
            return Err(DBError::InvalidValuePointer);
        }
        let file = &self.files[fid];
        let offset = p.offset as usize;
        let len = p.len as usize;
        if offset > file.data.len() || len > file.data.len() - offset {
            return Err(DBError::InvalidValuePointer);
        }
        let record = &file.data[offset..offset + len];
        let ghost bytes = record@;
        proof {
            assert(record_at(self.files@, *p) == Some(bytes));
        }
        if len < 2 {
            return Err(DBError::ChecksumMismatch);
        }
        let (klen, n1) = match read_varint(record, 2) {
            None => {
                return Err(DBError::ChecksumMismatch);
            },
            Some(x) => x,
        };
        proof {
            lemma_varint_dec_len(bytes.skip(2));
        }
        let (vlen, n2) = match read_varint(record, 2 + n1) {
            None => {
                return Err(DBError::ChecksumMismatch);
            },
            Some(x) => x,
        };
        proof {
            lemma_varint_dec_len(bytes.skip(2 + n1 as int));
        }
        let (expires_at, n3) = match read_varint(record, 2 + n1 + n2) {
            None => {
                return Err(DBError::ChecksumMismatch);
            },
            Some(x) => x,
        };
        proof {
            lemma_varint_dec_len(bytes.skip(2 + n1 as int + n2 as int));
        }
        let header_len = 2 + n1 + n2 + n3;
        if len - header_len < 4 {
            return Err(DBError::ChecksumMismatch);
        }
        let body = len - header_len - 4;
        if klen > body as u64 {
            return Err(DBError::ChecksumMismatch);
        }
        let klen = klen as usize;
        if vlen != (body - klen) as u64 {
            return Err(DBError::ChecksumMismatch);
        }
        let vlen = vlen as usize;
        let crc_stored = read_u32_be(record, len - 4);
        let crc_actual = crc32(&record[0..len - 4]);
        proof {
            assert(bytes.subrange(0, len - 4) =~= record@.subrange(0, len - 4));
        }
        if crc_stored != crc_actual {
            return Err(DBError::ChecksumMismatch);
        }
        let key_ts_bytes = &record[header_len..header_len + klen];
        let value = &record[header_len + klen..header_len + klen + vlen];
        proof {
            assert(key_ts_bytes@ =~= bytes.subrange(
                header_len as int,
                header_len as int + klen as int,
            ));
            assert(value@ =~= bytes.subrange(
                header_len as int + klen as int,
                header_len as int + klen as int + vlen as int,
            ));
        }
        Ok(Entry::new_ts(key_ts_bytes, value, offset, header_len))
    }
}

// ---------------------------------------------------------------------------
// The write path
// ---------------------------------------------------------------------------

/// `f2` extends `f1`: same files, each grown at most by appending, possibly
/// with new files after them.
pub open spec fn files_extend(f1: Seq<VlogFile>, f2: Seq<VlogFile>) -> bool {
    &&& f1.len() <= f2.len()
    &&& forall|i: int|
        0 <= i < f1.len() ==> (#[trigger] f2[i].fid) == f1[i].fid && f1[i].data@.is_prefix_of(
            f2[i].data@,
        )
}

/// Extending the files keeps every readable record in place.
pub proof fn lemma_records_preserved(f1: Seq<VlogFile>, f2: Seq<VlogFile>)
    requires
        files_extend(f1, f2),
    ensures
        forall|p: ValuePointer| (#[trigger] record_at(f1, p)) is Some ==> record_at(f2, p)
            == record_at(f1, p),
{
    assert forall|p: ValuePointer| (#[trigger] record_at(f1, p)) is Some implies record_at(f2, p)
        == record_at(f1, p) by {
        let i = p.fid as int;
        assert(f2[i].fid == f1[i].fid);
        assert(f1[i].data@.is_prefix_of(f2[i].data@));
        assert(f2[i].data@.subrange(p.offset as int, p.offset as int + p.len as int) =~= f1[
            i
        ].data@.subrange(p.offset as int, p.offset as int + p.len as int));
    }
}

pub proof fn lemma_files_extend_trans(f1: Seq<VlogFile>, f2: Seq<VlogFile>, f3: Seq<VlogFile>)
    requires
        files_extend(f1, f2),
        files_extend(f2, f3),
    ensures
        files_extend(f1, f3),
{
    assert forall|i: int|
        0 <= i < f1.len() implies (#[trigger] f3[i].fid) == f1[i].fid
        && f1[i].data@.is_prefix_of(f3[i].data@) by {
        assert(f2[i].fid == f1[i].fid);
        assert(f3[i].fid == f2[i].fid);
        let a = f1[i].data@;
        let b = f2[i].data@;
        let c = f3[i].data@;
        assert(a.is_prefix_of(b));
        assert(b.is_prefix_of(c));
        assert(a =~= c.subrange(0, a.len() as int)) by {
            assert(forall|k: int|
                0 <= k < a.len() ==> a[k] == #[trigger] b.subrange(0, a.len() as int)[k]);
            assert(forall|k: int| 0 <= k < b.len() ==> b[k] == #[trigger] c.subrange(
                0,
                b.len() as int,
            )[k]);
        }
    }
}

/// What the write path owes one `(entry, pointer)` pair: the entry comes
/// through unchanged but for its threshold being set; a value under the
/// threshold leaves the sentinel pointer; a value at or over it leaves a
/// pointer whose record holds the entry, with the commit-group bits
/// cleared in the stored copy.
pub open spec fn written_pair_ok(
    e0: Entry,
    e1: Entry,
    p1: ValuePointer,
    files: Seq<VlogFile>,
    default_threshold: usize,
) -> bool {
    let thr: usize = if e0.value_threshold == 0 {
        default_threshold
    } else {
        e0.value_threshold
    };
    let rec = vlog_record_serial(
        e0.key_ts.key@,
        e0.key_ts.txn_ts.0,
        e0.value_meta.value@,
        vlog_stored_meta(e0.value_meta.meta.0),
        e0.value_meta.user_meta,
        e0.value_meta.expires_at.0,
    );
    &&& e1.key_ts.key@ == e0.key_ts.key@
    &&& e1.key_ts.txn_ts == e0.key_ts.txn_ts
    &&& e1.value_meta.value@ == e0.value_meta.value@
    &&& e1.value_meta.expires_at == e0.value_meta.expires_at
    &&& e1.value_meta.user_meta == e0.value_meta.user_meta
    &&& e1.value_meta.meta == e0.value_meta.meta
    &&& e1.offset == e0.offset
    &&& e1.header_len == e0.header_len
    &&& e1.value_threshold == thr
    &&& if e0.value_meta.value@.len() < thr {
        p1.fid == 0 && p1.len == 0 && p1.offset == 0
    } else {
        record_at(files, p1) == Some(rec) && p1.len as int == rec.len() && !(p1.fid == 0 && p1.len
            == 0 && p1.offset == 0)
    }
}

/// Every pair of a finished batch meets `written_pair_ok`.
pub open spec fn written_batch_ok(
    reqs: Seq<WriteReq>,
    out: Seq<WriteReq>,
    files: Seq<VlogFile>,
    default_threshold: usize,
) -> bool {
    &&& out.len() == reqs.len()
    &&& forall|i: int|
        0 <= i < reqs.len() ==> (#[trigger] out[i].entries_vptrs@.len())
            == reqs[i].entries_vptrs@.len()
    &&& forall|i: int, j: int|
        0 <= i < reqs.len() && 0 <= j < reqs[i].entries_vptrs@.len() ==> written_pair_ok(
            reqs[i].entries_vptrs@[j].0,
            (#[trigger] out[i].entries_vptrs@[j]).0,
            out[i].entries_vptrs@[j].1,
            files,
            default_threshold,
        )
}

/// When the write path owes success: the batch passes admission, there is
/// room in the 32-bit file ids for one rotation per request, and either
/// every request leaves headroom for a full file's worth of offset or the
/// rotation threshold lies beyond what a file can hold at all. The
/// admission walk predicts rotations from size estimates; the headroom
/// clause covers a request that starts after a predicted rotation that did
/// not happen.
pub open spec fn write_fits(v: ValueLog, reqs: Seq<WriteReq>) -> bool {
    &&& validate_from(reqs, v.writable_log_offset as int, v.config.vlog_file_size as int)
    &&& v.files@.len() + reqs.len() < u32::MAX
    &&& ((v.config.vlog_file_size as int > MAX_VLOG_FILE_SIZE as int) || (forall|i: int|
        0 <= i < reqs.len() ==> req_size((#[trigger] reqs[i]).entries_vptrs@)
            + v.config.vlog_file_size as int <= MAX_VLOG_FILE_SIZE as int))
}

impl ValueLog {
    /// Opens the next segment file and makes it writable.
    fn create_vlog_file(&mut self) -> (r: Result<(), DBError>)
        requires
            vlog_wf(*old(self)),
        ensures
            vlog_wf(*final(self)),
            final(self).config == old(self).config,
            files_extend(old(self).files@, final(self).files@),
            r is Ok ==> final(self).writable_log_offset == 0 && final(self).num_entries_written
                == 0,
            r is Err ==> *final(self) == *old(self),
            old(self).files@.len() < u32::MAX ==> r is Ok,
            r is Ok ==> final(self).files@.len() == old(self).files@.len() + 1,
            r is Err ==> r == Err::<(), DBError>(DBError::ValuelogSize),
    {
        if self.files.len() >= u32::MAX as usize {
            return Err(DBError::ValuelogSize);
        }
        let fid = self.files.len() as u32;
        self.files.push(VlogFile { fid, data: Vec::new() });
        self.writable_log_offset = 0;
        self.num_entries_written = 0;
        Ok(())
    }

    /// The write path. Values under the threshold skip the value log and
    /// leave the sentinel pointer; larger ones are framed, checksummed and
    /// appended, and their pointer filled in. The writable file rotates
    /// once it outgrows its size or record budget. Fails when the batch
    /// does not pass admission or a file would outgrow a 32-bit offset; an
    /// error leaves the log coherent, with everything already appended
    /// still in place.
    #[verifier::rlimit(100)]
    pub fn write(&mut self, reqs: &Vec<WriteReq>) -> (r: Result<Vec<WriteReq>, DBError>)
        requires
            vlog_wf(*old(self)),
        ensures
            vlog_wf(*final(self)),
            final(self).config == old(self).config,
            files_extend(old(self).files@, final(self).files@),
            !validate_from(
                reqs@,
                old(self).writable_log_offset as int,
                old(self).config.vlog_file_size as int,
            ) ==> r is Err,
            write_fits(*old(self), reqs@) ==> r is Ok,
            r is Err ==> r == Err::<Vec<WriteReq>, DBError>(DBError::ValuelogSize),
            r is Ok ==> written_batch_ok(
                reqs@,
                r.unwrap()@,
                final(self).files@,
                old(self).config.value_threshold,
            ),
    {
        match self.validate_write(reqs) {
            Ok(_) => {},
            Err(e) => {
                return Err(e);
            },
        }
        let default_threshold = self.config.value_threshold;
        let ghost ant = write_fits(*old(self), reqs@);
        let ghost fs_int = old(self).config.vlog_file_size as int;
        let ghost mut v_assumed: int = old(self).writable_log_offset as int;
        proof {
            assert(reqs@.skip(0) =~= reqs@);
        }
        let mut out: Vec<WriteReq> = Vec::new();
        let mut buf: Vec<u8> = Vec::new();
        let mut i: usize = 0;
        while i < reqs.len()
            invariant
                i <= reqs@.len(),
                vlog_wf(*self),
                self.config == old(self).config,
                default_threshold == old(self).config.value_threshold,
                files_extend(old(self).files@, self.files@),
                ant == write_fits(*old(self), reqs@),
                fs_int == old(self).config.vlog_file_size as int,
                self.files@.len() <= old(self).files@.len() + i,
                ant ==> ({
                    &&& v_assumed >= 0
                    &&& validate_from(reqs@.skip(i as int), v_assumed, fs_int)
                    &&& (self.writable_log_offset as int <= v_assumed || (fs_int
                        <= MAX_VLOG_FILE_SIZE as int && self.writable_log_offset as int <= fs_int))
                }),
                out@.len() == i,
                forall|x: int|
                    0 <= x < i ==> (#[trigger] out@[x].entries_vptrs@.len())
                        == reqs@[x].entries_vptrs@.len(),
                forall|x: int, y: int|
                    0 <= x < i && 0 <= y < reqs@[x].entries_vptrs@.len() ==> written_pair_ok(
                        reqs@[x].entries_vptrs@[y].0,
                        (#[trigger] out@[x].entries_vptrs@[y]).0,
                        out@[x].entries_vptrs@[y].1,
                        self.files@,
                        default_threshold,
                    ),
            decreases reqs@.len() - i,
        {
            let entries = &reqs[i].entries_vptrs;
            let ghost off_start = self.writable_log_offset as int;
            let ghost s_req = req_size(entries@);
            proof {
                if ant {
                    // The whole request fits under the largest offset: from
                    // the admission walk when the offset tracks it, from
                    // the per-request headroom otherwise.
                    assert(reqs@.skip(i as int)[0] == reqs@[i as int]);
                    assert(validate_from(reqs@.skip(i as int), v_assumed, fs_int));
                    assert(v_assumed + s_req <= MAX_VLOG_FILE_SIZE as int);
                    if !(self.writable_log_offset as int <= v_assumed) {
                        assert(fs_int <= MAX_VLOG_FILE_SIZE as int);
                        assert(s_req + fs_int <= MAX_VLOG_FILE_SIZE as int);
                    }
                    assert(off_start + s_req <= MAX_VLOG_FILE_SIZE as int);
                    assert(entries@.skip(0) =~= entries@);
                }
            }
            let mut new_entries: Vec<(Entry, ValuePointer)> = Vec::new();
            let mut j: usize = 0;
            while j < entries.len()
                invariant
                    j <= entries@.len(),
                    entries@ == reqs@[i as int].entries_vptrs@,
                    0 <= i < reqs@.len(),
                    vlog_wf(*self),
                    self.config == old(self).config,
                    default_threshold == old(self).config.value_threshold,
                    files_extend(old(self).files@, self.files@),
                    ant == write_fits(*old(self), reqs@),
                    ant ==> ({
                        &&& off_start + s_req <= MAX_VLOG_FILE_SIZE as int
                        &&& s_req == req_size(entries@)
                        &&& self.writable_log_offset as int + req_size(entries@.skip(j as int))
                            <= off_start + s_req
                        &&& off_start <= self.writable_log_offset as int
                    }),
                    self.files@.len() <= old(self).files@.len() + i,
                    out@.len() == i,
                    new_entries@.len() == j,
                    forall|x: int|
                        0 <= x < i ==> (#[trigger] out@[x].entries_vptrs@.len())
                            == reqs@[x].entries_vptrs@.len(),
                    forall|x: int, y: int|
                        0 <= x < i && 0 <= y < reqs@[x].entries_vptrs@.len() ==> written_pair_ok(
                            reqs@[x].entries_vptrs@[y].0,
                            (#[trigger] out@[x].entries_vptrs@[y]).0,
                            out@[x].entries_vptrs@[y].1,
                            self.files@,
                            default_threshold,
                        ),
                    forall|y: int|
                        0 <= y < j ==> written_pair_ok(
                            entries@[y].0,
                            (#[trigger] new_entries@[y]).0,
                            new_entries@[y].1,
                            self.files@,
                            default_threshold,
                        ),
                decreases entries@.len() - j,
            {
                let ghost files_before = self.files@;
                let mut e = entries[j].0.clone();
                e.try_set_value_threshold(default_threshold);
                proof {
                    if ant {
                        // The entry's budget is part of the request's
                        // remaining budget.
                        assert(entries@.skip(j as int)[0] == entries@[j as int]);
                        assert(entries@.skip(j as int).skip(1) =~= entries@.skip(j as int + 1));
                        lemma_req_size_nonneg(entries@.skip(j as int + 1));
                        assert(req_size(entries@.skip(j as int)) == entry_budget(
                            entries@[j as int].0,
                        ) + req_size(entries@.skip(j as int + 1)));
                        assert(e.key_ts.key@.len() == entries@[j as int].0.key_ts.key@.len());
                        assert(e.value_meta.value@.len()
                            == entries@[j as int].0.value_meta.value@.len());
                    }
                }
                if e.value().len() < e.value_threshold() {
                    new_entries.push((e, ValuePointer { fid: 0, len: 0, offset: 0 }));
                } else {
                    // Capacity guards: the record must fit under the
                    // largest addressable offset of the current file.
                    let mut cap = MAX_VLOG_FILE_SIZE - self.writable_log_offset;
                    if e.key_ts.key.len() > cap {
                        proof {
                            if ant {
                                assert(false);
                            }
                        }
                        return Err(DBError::ValuelogSize);
                    }
                    cap = cap - e.key_ts.key.len();
                    if MAX_HEADER_SIZE + 12 > cap {
                        proof {
                            if ant {
                                assert(false);
                            }
                        }
                        return Err(DBError::ValuelogSize);
                    }
                    cap = cap - (MAX_HEADER_SIZE + 12);
                    if e.value_meta.value.len() > cap {
                        proof {
                            if ant {
                                assert(false);
                            }
                        }
                        return Err(DBError::ValuelogSize);
                    }
                    let offset = self.writable_log_offset;
                    let len = encode_entry(&mut buf, &e);
                    let fid = self.files.len() as u32 - 1;
                    let mut last = match self.files.pop() {
                        Some(f) => f,
                        None => {
                            return Err(DBError::ValuelogSize);
                        },
                    };
                    extend_from_slice(&mut last.data, buf.as_slice());
                    self.files.push(last);
                    self.writable_log_offset = self.writable_log_offset + len;
                    if self.num_entries_written < usize::MAX {
                        self.num_entries_written = self.num_entries_written + 1;
                    }
                    let vptr = ValuePointer::new(fid, len, offset);
                    proof {
                        if ant {
                            assert(len as int <= entry_budget(entries@[j as int].0));
                        }
                        assert(files_extend(files_before, self.files@)) by {
                            assert(forall|x: int|
                                0 <= x < files_before.len() - 1 ==> self.files@[x]
                                    == #[trigger] files_before[x]);
                            assert(files_before.last().data@.is_prefix_of(
                                self.files@.last().data@,
                            ));
                        }
                        lemma_files_extend_trans(old(self).files@, files_before, self.files@);
                        lemma_records_preserved(files_before, self.files@);
                        assert(self.files@.last().data@.subrange(
                            offset as int,
                            offset as int + len as int,
                        ) =~= buf@);
                        assert(record_at(self.files@, vptr) == Some(buf@));
                    }
                    new_entries.push((e, vptr));
                }
                proof {
                    lemma_records_preserved(files_before, self.files@);
                }
                j = j + 1;
            }
            let ghost out_before = out@;
            let ghost new_entries_view = new_entries@;
            out.push(WriteReq { entries_vptrs: new_entries });
            let ghost files_post_req = self.files@;
            let ghost offset_after = self.writable_log_offset as int;
            let ghost rotated: bool;
            // Rotate once the writable file is past its size or its record
            // budget.
            if self.writable_log_offset > self.config.vlog_file_size || self.num_entries_written
                > self.config.vlog_max_entries {
                proof {
                    rotated = true;
                    if ant {
                        assert(self.files@.len() < u32::MAX);
                    }
                }
                let ghost files_before = self.files@;
                match self.create_vlog_file() {
                    Ok(_) => {},
                    Err(e) => {
                        proof {
                            if ant {
                                assert(false);
                            }
                        }
                        return Err(e);
                    },
                }
                proof {
                    lemma_files_extend_trans(old(self).files@, files_before, self.files@);
                    lemma_records_preserved(files_before, self.files@);
                }
            } else {
                proof {
                    rotated = false;
                }
            }
            proof {
                lemma_records_preserved(files_post_req, self.files@);
                assert forall|x: int|
                    0 <= x < i + 1 implies (#[trigger] out@[x].entries_vptrs@.len())
                    == reqs@[x].entries_vptrs@.len() by {
                    if x == i {
                        assert(out@[x].entries_vptrs@ == new_entries_view);
                        assert(new_entries_view.len() == entries@.len());
                        assert(entries@ == reqs@[i as int].entries_vptrs@);
                        assert(out@[x].entries_vptrs@.len() == reqs@[x].entries_vptrs@.len());
                    } else {
                        assert(out@[x] == out_before[x]);
                        assert(out_before[x].entries_vptrs@.len()
                            == reqs@[x].entries_vptrs@.len());
                        assert(out@[x].entries_vptrs@.len() == reqs@[x].entries_vptrs@.len());
                    }
                }
                assert forall|x: int, y: int|
                    0 <= x < i + 1 && 0 <= y < reqs@[x].entries_vptrs@.len() implies written_pair_ok(
                    reqs@[x].entries_vptrs@[y].0,
                    (#[trigger] out@[x].entries_vptrs@[y]).0,
                    out@[x].entries_vptrs@[y].1,
                    self.files@,
                    default_threshold,
                ) by {
                    if x == i {
                        assert(out@[x].entries_vptrs@ == new_entries_view);
                        assert(written_pair_ok(
                            entries@[y].0,
                            new_entries_view[y].0,
                            new_entries_view[y].1,
                            files_post_req,
                            default_threshold,
                        ));
                    } else {
                        assert(out@[x] == out_before[x]);
                        assert(written_pair_ok(
                            reqs@[x].entries_vptrs@[y].0,
                            out_before[x].entries_vptrs@[y].0,
                            out_before[x].entries_vptrs@[y].1,
                            files_post_req,
                            default_threshold,
                        ));
                    }
                }
                if ant {
                    // Advance the admission walk's assumed offset and keep
                    // the actual offset at or under it, or under the file
                    // size after a predicted rotation that did not happen.
                    assert(entries@.skip(entries@.len() as int)
                        =~= Seq::<(Entry, ValuePointer)>::empty());
                    assert(offset_after <= off_start + s_req);
                    assert(reqs@.skip(i as int)[0] == reqs@[i as int]);
                    assert(reqs@.skip(i as int).skip(1) =~= reqs@.skip(i as int + 1));
                    let est = v_assumed + s_req;
                    assert(est <= MAX_VLOG_FILE_SIZE as int);
                    let v_next: int = if est >= fs_int {
                        0int
                    } else {
                        est
                    };
                    assert(validate_from(reqs@.skip(i as int + 1), v_next, fs_int));
                    if rotated {
                        assert(self.writable_log_offset == 0);
                    } else {
                        assert(self.writable_log_offset as int == offset_after);
                        assert(offset_after <= fs_int);
                        if off_start <= v_assumed {
                            if est < fs_int {
                                assert(offset_after <= est);
                            } else {
                                assert(fs_int <= MAX_VLOG_FILE_SIZE as int);
                            }
                        } else {
                            assert(fs_int <= MAX_VLOG_FILE_SIZE as int);
                        }
                    }
                    lemma_req_size_nonneg(entries@);
                    v_assumed = v_next;
                }
            }
            i = i + 1;
        }
        Ok(out)
    }
}

} // verus!
