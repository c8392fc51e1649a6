//! Core of an embedded, ordered key-value storage engine: an LSM tree with a
//! separate value log and snapshot-isolation MVCC. This crate holds the
//! verified logic: the versioned key model, the timestamp oracle, transaction
//! bookkeeping, level handling and compaction planning, the manifest journal,
//! discard statistics, and the value-log framing. File and network I/O live
//! outside the crate and hand plain values in and out.

pub mod codec;
pub mod compaction;
pub mod db;
pub mod discard;
pub mod errors;
pub mod hashing;
pub mod kv;
pub mod level;
pub mod manifest;
pub mod oracle;
pub mod table_opt;
pub mod txn;
pub mod vlog;
