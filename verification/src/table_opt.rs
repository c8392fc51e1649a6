//! Options for SSTable access, as far as the core consumes them.

use vstd::prelude::*;

verus! {

/// When table block checksums are verified.
#[derive(Debug, Clone, Copy, PartialEq, Eq, Structural)]
pub enum ChecksumVerificationMode {
    /// Never verify checksums.
    NoVerification,
    /// Verify when a table is opened.
    OnTableRead,
    /// Verify on every block read.
    OnBlockRead,
    /// Verify on table open and on every block read.
    OnTableAndBlockRead,
}

impl Default for ChecksumVerificationMode {
    fn default() -> (r: Self)
        ensures
            r == ChecksumVerificationMode::NoVerification,
    {
        ChecksumVerificationMode::NoVerification
    }
}

/// Sizing and verification options of one table. The capacity keeps a
/// twentieth of the table size free.
#[derive(Debug, Clone, Copy)]
pub struct TableOption {
    pub table_size: usize,
    pub table_capacity: u64,
    pub checksum_verify_mode: ChecksumVerificationMode,
    pub block_size: usize,
    pub zstd_compression_level: i32,
}

impl Default for TableOption {
    fn default() -> (r: Self)
        ensures
            r.table_size == 2097152,
            r.table_capacity == 0,
            r.checksum_verify_mode == ChecksumVerificationMode::NoVerification,
            r.block_size == 4096,
            r.zstd_compression_level == 1,
    {
        TableOption {
            table_size: 2097152,
            table_capacity: 0,
            checksum_verify_mode: ChecksumVerificationMode::NoVerification,
            block_size: 4096,
            zstd_compression_level: 1,
        }
    }
}

impl TableOption {
    pub fn block_size(&self) -> (r: usize)
        ensures
            r == self.block_size,
    {
        self.block_size
    }

    pub fn checksum_verify_mode(&self) -> (r: ChecksumVerificationMode)
        ensures
            r == self.checksum_verify_mode,
    {
        self.checksum_verify_mode
    }

    pub fn table_size(&self) -> (r: usize)
        ensures
            r == self.table_size,
    {
        self.table_size
    }

    /// Sets the table size; the capacity follows at ninety-five percent.
    pub fn set_table_size(&mut self, table_size: usize)
        requires
            table_size <= u64::MAX,
        ensures
            final(self).table_size == table_size,
            final(self).table_capacity == table_size as u64 / 20 * 19,
            final(self).checksum_verify_mode == old(self).checksum_verify_mode,
            final(self).block_size == old(self).block_size,
            final(self).zstd_compression_level == old(self).zstd_compression_level,
    {
        self.table_size = table_size;
        self.table_capacity = table_size as u64 / 20 * 19;
    }

    pub fn zstd_compression_level(&self) -> (r: i32)
        ensures
            r == self.zstd_compression_level,
    {
        self.zstd_compression_level
    }
}

} // verus!
