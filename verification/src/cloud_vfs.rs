//! Configuration of the cloud-storage virtual file system.

use vstd::prelude::*;

verus! {

/// Cloud VFS configuration.
#[derive(Debug, Clone, Copy, PartialEq, Eq, Structural)]
pub struct CloudVfsConfig {
    /// Cache capacity in pages.
    pub cache_capacity: usize,
    /// Prefetch window size.
    pub prefetch_window: usize,
    /// Whether the write-back cache is enabled.
    pub write_back_cache: bool,
    /// Batch size for multipart uploads.
    pub multipart_batch_size: usize,
}

impl Default for CloudVfsConfig {
    /// 1024 cached pages, a window of 16, write-back on, batches of 64.
    fn default() -> (c: CloudVfsConfig)
        ensures
            c == (CloudVfsConfig {
                cache_capacity: 1024,
                prefetch_window: 16,
                write_back_cache: true,
                multipart_batch_size: 64,
            }),
    {
        CloudVfsConfig { cache_capacity: 1024, prefetch_window: 16, write_back_cache: true, multipart_batch_size: 64 }
    }
}

} // verus!
