# velocidb

An embedded SQL database engine whose logic is specified and proved with
Verus: values and pages, the SQL parser, the page-based B-tree, statement
execution, transactions and table locks, multi-version concurrency control,
last-write-wins replication (CRDT), lock-free-style caches and queues,
vectorised filters and aggregates, and hybrid row/column storage.

## Layout

- `src/` — the verified library. Each module models its data with spec
  functions and views, and every public function states what it returns
  or changes. Laws that span several functions are public proof functions
  named `law_*` (for example `executor::law_insert_then_select`,
  `executor::law_delete_then_select`, `btree::law_insert_then_scan`,
  `btree::law_search_reads_scan`, `btree::law_history_then_read`,
  `btree::law_root_split_then_search`, `btree::law_height_two_insert_then_search`,
  `btree::law_height_two_insert_keeps_shape`,
  `crdt::law_ops_commute`,
  `transaction::law_lock_compatibility`).
- `tests/` — tests of the library on concrete values.
- `app/` — the program around the library: the interactive shell (whose
  choice of command is `shell::classify_command`), the lock-waiting loop
  (whose decisions are `transaction::lock_wait_step`), the
  file-backed database, asynchronous and memory-mapped page I/O, and the
  floating-point results (averages, hit rates).

`lockfree::LockFreeIoQueue<T>` and `lockfree::LockFreeRingBuffer<T>` keep
their items in a `VecDeque`: a contract over crossbeam's `SegQueue<T>` and
`ArrayQueue<T>` would need a trusted name for the contents of a queue of any
item type, and a trusted name here is given for one concrete type only. The
page cache's queue of page numbers, a `SegQueue<u64>`, is crossbeam's.

The few calls into other crates (`regex`, `dashmap`, `crossbeam-queue`) and
into parts of `std` that Verus does not describe go through small trusted
wrappers whose contracts are stated next to them.
