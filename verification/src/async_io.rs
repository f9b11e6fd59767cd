//! Value types of the asynchronous I/O layer: cache statistics and batched
//! I/O requests. The layer itself performs I/O and lives outside the library.

use vstd::prelude::*;
use crate::storage::Page;
use crate::types::PageId;

verus! {

/// Statistics of a page cache: how many pages it holds and how many it can.
#[derive(Debug, Clone, Copy, PartialEq, Eq, Structural)]
pub struct CacheStats {
    pub size: usize,
    pub capacity: usize,
}

/// An I/O request for batching.
#[derive(Debug)]
pub enum IoRequest {
    Read { page_id: PageId },
    Write { page_id: PageId, page: Page },
}

} // verus!
