//! VelociDB: an embedded database engine whose logic (values, SQL parsing,
//! B-tree pages, query execution, MVCC, CRDT replication, lock management and
//! the vectorised kernels) is specified and proved with Verus.

pub mod types;
pub mod text;
pub mod storage;
pub mod bytes;
pub mod btree;
pub mod parser;
pub mod transaction;
pub mod executor;
pub mod database;
pub mod btree_optimized;
pub mod lockfree;
pub mod mvcc;
pub mod crdt;
pub mod simd;
pub mod hybrid_storage;
pub mod async_io;
pub mod cloud_vfs;
pub mod pmem;
pub mod shell;

pub use database::Database;
pub use types::{Column, QueryResult, Row, Value};
pub use mvcc::{MvccManager, Snapshot, VersionedRecord};
pub use lockfree::{LockFreeCounter, LockFreeIoQueue, LockFreePageCache};
pub use simd::{VectorBatch, VectorizedAggregation, VectorizedFilter};
pub use btree_optimized::{CacheOptimizedNode, CachePrefetcher};
pub use crdt::{CrdtOperation, CrdtStore, SyncProtocol};
pub use cloud_vfs::CloudVfsConfig;
pub use hybrid_storage::{ColumnStorage, HybridTable, StorageLayout};
