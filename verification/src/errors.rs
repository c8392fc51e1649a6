//! The engine's error taxonomy. Variants are stable identities; callers
//! match on them rather than on message text.

use vstd::prelude::*;

verus! {

/// Every way the engine can refuse or fail an operation.
#[derive(Debug, Clone, Copy, PartialEq, Eq, Structural)]
pub enum DBError {
    /// The configured value-log file size is out of range.
    ValuelogSize,
    /// The key has no visible version.
    KeyNotFound,
    /// The transaction exceeds the batch count or size budget.
    TxnTooBig,
    /// Another commit wrote a key this transaction read; retry.
    Conflict,
    /// A write was attempted in a read-only transaction.
    ReadOnlyTxn,
    /// The transaction was already discarded.
    DiscardedTxn,
    /// The key is empty.
    EmptyKey,
    /// The key starts with the reserved internal prefix.
    InvalidKey,
    /// The key falls under a banned namespace.
    BannedKey,
    /// Value-log garbage collection needs a non-zero threshold.
    ThresholdZero,
    /// An encryption key must be 16 or 32 bytes.
    InvalidEncryptionKey,
    /// The stored and configured encryption keys differ.
    EncryptionKeyMismatch,
    /// A data-key id did not resolve.
    InvalidDataKeyID,
    /// The engine is closed.
    DBClosed,
    /// A log ends before its last recorded offset; opening must opt in to
    /// truncation. Carries the end offset and the file size.
    TruncateNeeded(usize, usize),
    /// Writes are blocked, for instance during drop-all or close.
    BlockedWrites,
    /// A key is longer than the engine accepts.
    KeyTooBig,
    /// A value is longer than a value-log file can hold.
    ValueTooBig,
    /// A stored record's CRC does not match its bytes.
    ChecksumMismatch,
    /// A value pointer addresses no stored record.
    InvalidValuePointer,
    /// A managed-mode commit needs a caller-supplied, non-zero commit
    /// timestamp.
    ZeroCommitTs,
    /// The manifest does not start with the magic bytes.
    ManifestBadMagic,
    /// The manifest was written by an incompatible version.
    ManifestVersionMismatch(u16, u16),
    /// A manifest record is malformed or runs past the file.
    ManifestCorrupted,
    /// A manifest change creates a table that exists or deletes one that
    /// does not.
    ManifestInvalidChange,
}

} // verus!
