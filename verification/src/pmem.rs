//! Statistics of the persistent-memory file system, and the bounds of its
//! transaction log, which is appended to one page.

use vstd::prelude::*;
use crate::storage::PAGE_SIZE;
use crate::types::{Result, VelociError};

verus! {

/// PMEM statistics.
#[derive(Debug, Clone, Copy, PartialEq, Eq, Structural)]
pub struct PmemStats {
    pub total_pages: u64,
    pub allocated_pages: u64,
    pub cache_line_flushes: u64,
    pub non_temporal_stores: u64,
}

impl Default for PmemStats {
    /// All counts zero.
    fn default() -> (s: PmemStats)
        ensures
            s == (PmemStats { total_pages: 0, allocated_pages: 0, cache_line_flushes: 0, non_temporal_stores: 0 }),
    {
        PmemStats { total_pages: 0, allocated_pages: 0, cache_line_flushes: 0, non_temporal_stores: 0 }
    }
}

/// Reserves `len` bytes of the log at `write_offset`, the offset its
/// writer reached: `Ok` with that offset when the bytes fit in the log's
/// page, `StorageError("Log page full")` when they do not.
pub fn log_reserve(write_offset: u64, len: u64) -> (r: Result<u64>)
    ensures
        write_offset + len <= PAGE_SIZE ==> r == Ok::<u64, VelociError>(write_offset),
        write_offset + len > PAGE_SIZE ==> (r matches Err(VelociError::StorageError(m)) && m@ == "Log page full"@),
{
    if len > PAGE_SIZE as u64 || write_offset > PAGE_SIZE as u64 - len {
        Err(VelociError::StorageError(String::from_str("Log page full")))
    } else {
        Ok(write_offset)
    }
}

/// Whether `length` bytes from `offset` lie within the log's page.
pub fn log_range_ok(offset: u64, length: usize) -> (b: bool)
    ensures
        b == (offset + length <= PAGE_SIZE),
{
    (length as u64) <= (PAGE_SIZE as u64) && offset <= (PAGE_SIZE as u64) - (length as u64)
}

} // verus!
