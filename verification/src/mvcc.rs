//! Multi-version concurrency control: versions of records with snapshot
//! visibility.
//!
//! A snapshot sees a version when the version was created at or before the
//! snapshot's time by a transaction it sees, and was not deleted at or before
//! that time nor by a transaction it sees.

use vstd::prelude::*;
use std::collections::{BTreeMap, HashMap};
use dashmap::DashMap;
use vstd::std_specs::cmp::OrdSpec;
use crate::types::{Result, TransactionId, Value, ValueView, VelociError};

verus! {

broadcast use {vstd::std_specs::hash::group_hash_axioms, vstd::std_specs::btree::group_btree_axioms};

/// A point in the manager's logical time.
pub type Timestamp = u64;

/// Who created and deleted a version, and when.
#[derive(Debug, Clone, Copy, PartialEq, Eq, Structural)]
pub struct VersionInfo {
    /// The transaction that created the version.
    pub xmin: TransactionId,
    /// The transaction that deleted it (0 while it stands).
    pub xmax: TransactionId,
    /// When it was created.
    pub created_at: Timestamp,
    /// When it was deleted (0 while it stands).
    pub deleted_at: Timestamp,
}

/// What a transaction sees: the time it started, the transactions active
/// then, and its own number.
#[derive(Debug, Clone)]
pub struct Snapshot {
    pub timestamp: Timestamp,
    pub active_transactions: Vec<TransactionId>,
    pub txn_id: TransactionId,
}

/// A snapshot sees the work of transaction `t`: its own, or that of an
/// earlier transaction not active when it started.
pub open spec fn txn_visible(s: Snapshot, t: TransactionId) -> bool {
    t == s.txn_id || (t < s.txn_id && !s.active_transactions@.contains(t))
}

/// A snapshot sees a version.
pub open spec fn version_visible(v: VersionInfo, s: Snapshot) -> bool {
    &&& v.created_at <= s.timestamp
    &&& !(v.deleted_at > 0 && v.deleted_at <= s.timestamp)
    &&& txn_visible(s, v.xmin)
    &&& !(v.xmax > 0 && txn_visible(s, v.xmax))
}

impl VersionInfo {
    /// A version created by `xmin` at `created_at`, not deleted.
    pub fn new(xmin: TransactionId, created_at: Timestamp) -> (v: VersionInfo)
        ensures
            v == (VersionInfo { xmin, xmax: 0, created_at, deleted_at: 0 }),
    {
        VersionInfo { xmin, xmax: 0, created_at, deleted_at: 0 }
    }

    /// Whether `snapshot` sees this version.
    pub fn is_visible(&self, snapshot: &Snapshot) -> (b: bool)
        ensures
            b == version_visible(*self, *snapshot),
    {
        if self.created_at > snapshot.timestamp {
            return false;
        }
        if self.deleted_at > 0 && self.deleted_at <= snapshot.timestamp {
            return false;
        }
        if !snapshot.is_transaction_visible(self.xmin) {
            return false;
        }
        if self.xmax > 0 && snapshot.is_transaction_visible(self.xmax) {
            return false;
        }
        true
    }

    /// Marks the version deleted by `xmax` at `deleted_at`.
    pub fn mark_deleted(&mut self, xmax: TransactionId, deleted_at: Timestamp)
        ensures
            *final(self) == (VersionInfo { xmax, deleted_at, ..*old(self) }),
    {
        self.xmax = xmax;
        self.deleted_at = deleted_at;
    }
}

impl Snapshot {
    /// A snapshot taken at `timestamp` for `txn_id`.
    pub fn new(timestamp: Timestamp, txn_id: TransactionId, active_transactions: Vec<TransactionId>) -> (s: Snapshot)
        ensures
            s.timestamp == timestamp,
            s.txn_id == txn_id,
            s.active_transactions@ == active_transactions@,
    {
        Snapshot { timestamp, txn_id, active_transactions }
    }

    /// Whether the snapshot sees the work of `txn_id`.
    pub fn is_transaction_visible(&self, txn_id: TransactionId) -> (b: bool)
        ensures
            b == txn_visible(*self, txn_id),
    {
        if txn_id == self.txn_id {
            return true;
        }
        if txn_id >= self.txn_id {
            return false;
        }
        let mut i: usize = 0;
        while i < self.active_transactions.len()
            invariant
                i <= self.active_transactions@.len(),
                txn_id != self.txn_id,
                txn_id < self.txn_id,
                forall|j: int| 0 <= j < i ==> self.active_transactions@[j] != txn_id,
            decreases self.active_transactions.len() - i,
        {
            if self.active_transactions[i] == txn_id {
                assert(self.active_transactions@[i as int] == txn_id);
                assert(self.active_transactions@.contains(txn_id));
                return false;
            }
            i = i + 1;
        }
        true
    }

    /// A copy of the snapshot.
    pub fn copy(&self) -> (s: Snapshot)
        ensures
            s.timestamp == self.timestamp,
            s.txn_id == self.txn_id,
            s.active_transactions@ == self.active_transactions@,
    {
        Snapshot { timestamp: self.timestamp, txn_id: self.txn_id, active_transactions: self.active_transactions.clone() }
    }
}

/// One version of a record: when it was valid, and its values.
#[derive(Debug, Clone)]
pub struct RecordVersion {
    pub version_info: VersionInfo,
    pub data: Vec<Value>,
}

impl RecordVersion {
    /// A version of `data` created by `xmin` at `created_at`.
    pub fn new(xmin: TransactionId, created_at: Timestamp, data: Vec<Value>) -> (v: RecordVersion)
        ensures
            v.version_info == (VersionInfo { xmin, xmax: 0, created_at, deleted_at: 0 }),
            v.data == data,
    {
        RecordVersion { version_info: VersionInfo::new(xmin, created_at), data }
    }

    /// Whether `snapshot` sees this version.
    pub fn is_visible(&self, snapshot: &Snapshot) -> (b: bool)
        ensures
            b == version_visible(self.version_info, *snapshot),
    {
        self.version_info.is_visible(snapshot)
    }
}

/// The versions of one record, oldest first.
#[derive(Debug, Clone)]
pub struct VersionedRecord {
    pub key: i64,
    pub versions: Vec<RecordVersion>,
}

/// The index of the newest of the first `n` versions that `s` sees.
pub open spec fn latest_visible(vs: Seq<RecordVersion>, s: Snapshot, n: int) -> Option<int>
    decreases n,
{
    if n <= 0 {
        None
    } else if version_visible(vs[n - 1].version_info, s) {
        Some(n - 1)
    } else {
        latest_visible(vs, s, n - 1)
    }
}

/// The values of the newest version of `r` that `s` sees.
pub open spec fn visible_data(r: VersionedRecord, s: Snapshot) -> Option<Seq<ValueView>> {
    match latest_visible(r.versions@, s, r.versions@.len() as int) {
        Some(i) => Some(r.versions@[i].data.deep_view()),
        None => None,
    }
}

/// A snapshot sees a live version that a transaction committed before it
/// began wrote before the snapshot's time: the work of a transaction that
/// was not active when the snapshot was taken.
pub proof fn law_sees_committed_before(v: VersionInfo, s: Snapshot)
    requires
        v.xmax == 0,
        v.deleted_at == 0,
        v.created_at <= s.timestamp,
        v.xmin < s.txn_id,
        !s.active_transactions@.contains(v.xmin),
    ensures
        version_visible(v, s),
{
}

/// A snapshot does not see a version written after its time, nor one by a
/// transaction (other than its own) that was active when it began.
pub proof fn law_ignores_later_or_concurrent(v: VersionInfo, s: Snapshot)
    requires
        v.created_at > s.timestamp || (v.xmin != s.txn_id && s.active_transactions@.contains(v.xmin)),
    ensures
        !version_visible(v, s),
{
}

/// Reading a record gives the newest version the snapshot sees: with a
/// visible version appended, a read gives that version's values.
pub proof fn law_newest_visible_wins(r: VersionedRecord, s: Snapshot)
    requires
        r.versions@.len() > 0,
        version_visible(r.versions@.last().version_info, s),
    ensures
        visible_data(r, s) == Some(r.versions@.last().data.deep_view()),
{
}

/// A version survives a vacuum at `min_ts` when it is not deleted or was
/// deleted at or after `min_ts`.
pub open spec fn survives(v: RecordVersion, min_ts: Timestamp) -> bool {
    v.version_info.deleted_at == 0 || v.version_info.deleted_at >= min_ts
}

proof fn lemma_latest_visible_bounds(vs: Seq<RecordVersion>, s: Snapshot, n: int)
    ensures
        latest_visible(vs, s, n) matches Some(i) ==> 0 <= i < n && version_visible(vs[i].version_info, s),
    decreases n,
{
    if n > 0 && !version_visible(vs[n - 1].version_info, s) {
        lemma_latest_visible_bounds(vs, s, n - 1);
    }
}

/// A copy of `vs` with the same models.
fn copy_values(vs: &Vec<Value>) -> (c: Vec<Value>)
    ensures
        c.deep_view() == vs.deep_view(),
{
    let mut c: Vec<Value> = Vec::new();
    let mut i: usize = 0;
    while i < vs.len()
        invariant
            i <= vs@.len(),
            c.deep_view() == vs.deep_view().take(i as int),
        decreases vs.len() - i,
    {
        let ghost before = c.deep_view();
        c.push(vs[i].duplicate());
        proof {
            assert(c.deep_view() =~= before.push(vs@[i as int]@));
            assert(vs.deep_view().take(i + 1) =~= vs.deep_view().take(i as int).push(vs@[i as int]@));
        }
        i = i + 1;
    }
    assert(vs.deep_view().take(i as int) =~= vs.deep_view());
    c
}

impl VersionedRecord {
    /// A record with no versions.
    pub fn new(key: i64) -> (r: VersionedRecord)
        ensures
            r.key == key,
            r.versions@ == Seq::<RecordVersion>::empty(),
    {
        VersionedRecord { key, versions: Vec::new() }
    }

    /// Adds a newest version.
    pub fn add_version(&mut self, version: RecordVersion)
        ensures
            final(self).key == old(self).key,
            final(self).versions@ == old(self).versions@.push(version),
    {
        self.versions.push(version);
    }

    /// The newest version that `snapshot` sees.
    pub fn get_visible_version(&self, snapshot: &Snapshot) -> (r: Option<&RecordVersion>)
        ensures
            match latest_visible(self.versions@, *snapshot, self.versions@.len() as int) {
                Some(i) => r == Some(&self.versions@[i]),
                None => r is None,
            },
    {
        let mut n = self.versions.len();
        while n > 0
            invariant
                n <= self.versions@.len(),
                latest_visible(self.versions@, *snapshot, self.versions@.len() as int) == latest_visible(
                    self.versions@,
                    *snapshot,
                    n as int,
                ),
            decreases n,
        {
            if self.versions[n - 1].is_visible(snapshot) {
                return Some(&self.versions[n - 1]);
            }
            n = n - 1;
        }
        None
    }

    /// Marks the newest version deleted by `xmax` at `deleted_at`;
    /// `NotFound` when there are no versions.
    pub fn mark_deleted(&mut self, xmax: TransactionId, deleted_at: Timestamp) -> (r: Result<()>)
        ensures
            final(self).key == old(self).key,
            old(self).versions@.len() == 0 ==> (r matches Err(VelociError::NotFound(_)) && *final(self) == *old(self)),
            old(self).versions@.len() > 0 ==> r is Ok && ({
                let last = old(self).versions@.len() - 1;
                final(self).versions@ == old(self).versions@.update(
                    last,
                    RecordVersion {
                        version_info: VersionInfo { xmax, deleted_at, ..old(self).versions@[last].version_info },
                        ..old(self).versions@[last]
                    },
                )
            }),
    {
        let n = self.versions.len();
        if n == 0 {
            return Err(VelociError::NotFound(String::from_str("No versions to delete")));
        }
        let mut v = self.versions.remove(n - 1);
        v.version_info.mark_deleted(xmax, deleted_at);
        self.versions.push(v);
        proof {
            let last = old(self).versions@.len() - 1;
            assert(self.versions@ =~= old(self).versions@.update(
                last,
                RecordVersion {
                    version_info: VersionInfo { xmax, deleted_at, ..old(self).versions@[last].version_info },
                    ..old(self).versions@[last]
                },
            ));
        }
        Ok(())
    }

    /// Drops the versions deleted before `min_active_timestamp`.
    pub fn vacuum(&mut self, min_active_timestamp: Timestamp)
        ensures
            final(self).key == old(self).key,
            final(self).versions@ == old(self).versions@.filter(|v: RecordVersion| survives(v, min_active_timestamp)),
    {
        let ghost vs = self.versions@;
        let mut old_versions: Vec<RecordVersion> = Vec::new();
        std::mem::swap(&mut old_versions, &mut self.versions);
        let mut kept: Vec<RecordVersion> = Vec::new();
        let mut rest = old_versions;
        let ghost all = rest@;
        let mut taken: usize = 0;
        let n = rest.len();
        let mut reversed: Vec<RecordVersion> = Vec::new();
        while rest.len() > 0
            invariant
                reversed@.len() + rest@.len() == n,
                rest@ == all.take(rest@.len() as int),
                forall|j: int| 0 <= j < reversed@.len() ==> reversed@[j] == all[n - 1 - j],
                n == all.len(),
            decreases rest.len(),
        {
            let v = rest.pop().unwrap();
            reversed.push(v);
        }
        proof {
            assert(vs == all);
        }
        let mut i: usize = 0;
        while reversed.len() > 0
            invariant
                reversed@.len() + i == n,
                forall|j: int| 0 <= j < reversed@.len() ==> reversed@[j] == all[n - 1 - j],
                kept@ == all.take(i as int).filter(|v: RecordVersion| survives(v, min_active_timestamp)),
                n == all.len(),
                i <= n,
            decreases reversed.len(),
        {
            let v = reversed.pop().unwrap();
            proof {
                reveal(Seq::filter);
                assert(v == all[i as int]);
                assert(all.take(i + 1).drop_last() =~= all.take(i as int));
                assert(all.take(i + 1).last() == all[i as int]);
            }
            if v.version_info.deleted_at == 0 || v.version_info.deleted_at >= min_active_timestamp {
                kept.push(v);
            }
            i = i + 1;
        }
        proof {
            assert(all.take(n as int) =~= all);
        }
        self.versions = kept;
    }
}

// ---------------------------------------------------------------------------
// The manager

/// The versions of one table, by record key.
pub type TableVersions = BTreeMap<i64, VersionedRecord>;

/// The version store: tables by name.
pub type VersionStore = DashMap<String, TableVersions>;

/// The tables that a version store holds, by name.
pub uninterp spec fn stored_tables(m: VersionStore) -> Map<Seq<char>, Map<i64, VersionedRecord>>;

/// A store without tables.
pub open spec fn no_tables() -> Map<Seq<char>, Map<i64, VersionedRecord>> {
    Map::empty()
}

/// `DashMap::new`: an empty store.
#[verifier::external_body]
fn store_new() -> (r: VersionStore)
    ensures
        stored_tables(r) == no_tables(),
{
    DashMap::new()
}

/// `DashMap::remove`, keeping the value: takes table `name` out of the
/// store, if it is there.
#[verifier::external_body]
fn store_take(m: &mut VersionStore, name: &str) -> (r: Option<TableVersions>)
    ensures
        stored_tables(*final(m)) == stored_tables(*old(m)).remove(name@),
        match r {
            Some(t) => stored_tables(*old(m)).contains_key(name@) && t@ == stored_tables(*old(m))[name@],
            None => !stored_tables(*old(m)).contains_key(name@),
        },
{
    match m.remove(name) {
        Some((_, t)) => Some(t),
        None => None,
    }
}

/// `DashMap::insert`: table `name` becomes `t`.
#[verifier::external_body]
fn store_put(m: &mut VersionStore, name: String, t: TableVersions)
    ensures
        stored_tables(*final(m)) == stored_tables(*old(m)).insert(name@, t@),
{
    m.insert(name, t);
}

/// The table names in the store, each once, in the map's own order (which
/// is not stated).
#[verifier::external_body]
fn store_names(m: &VersionStore) -> (ks: Vec<String>)
    ensures
        ks@.map_values(|k: String| k@).to_set() == stored_tables(*m).dom(),
        ks@.map_values(|k: String| k@).no_duplicates(),
{
    let mut keys = Vec::new();
    for entry in m.iter() {
        keys.push(entry.key().clone());
    }
    keys
}

/// The statistics of a version store, without the derived ratio.
#[derive(Debug, Clone)]
pub struct MvccCounts {
    pub active_snapshots: usize,
    pub total_records: usize,
    pub total_versions: usize,
}

/// Coordinates snapshots, commits and the versions of records.
pub struct MvccManager {
    current_timestamp: u64,
    next_txn_id: u64,
    active_snapshots: Vec<Snapshot>,
    version_store: VersionStore,
    committed_transactions: BTreeMap<TransactionId, Timestamp>,
}

/// The numbers of the transactions of the snapshots.
pub open spec fn txn_ids(ss: Seq<Snapshot>) -> Seq<TransactionId> {
    ss.map_values(|s: Snapshot| s.txn_id)
}

/// The snapshots without that of `txn`.
pub open spec fn without_snapshot(ss: Seq<Snapshot>, txn: TransactionId) -> Seq<Snapshot> {
    ss.filter(|s: Snapshot| s.txn_id != txn)
}

impl MvccManager {
    /// The current logical time.
    pub closed spec fn now(&self) -> u64 {
        self.current_timestamp
    }

    /// The number the next transaction gets.
    pub closed spec fn next_txn(&self) -> u64 {
        self.next_txn_id
    }

    /// The snapshots of the active transactions, oldest first.
    pub closed spec fn active(&self) -> Seq<Snapshot> {
        self.active_snapshots@
    }

    /// The commit times of committed transactions.
    pub closed spec fn committed(&self) -> Map<TransactionId, Timestamp> {
        self.committed_transactions@
    }

    /// The versions of the records, by table name and key.
    pub closed spec fn tables(&self) -> Map<Seq<char>, Map<i64, VersionedRecord>> {
        stored_tables(self.version_store)
    }

    /// A manager at time 1 whose first transaction is number 1.
    pub fn new() -> (m: MvccManager)
        ensures
            m.now() == 1,
            m.next_txn() == 1,
            m.active() == Seq::<Snapshot>::empty(),
            m.committed() == Map::<TransactionId, Timestamp>::empty(),
            m.tables() == no_tables(),
    {
        MvccManager {
            current_timestamp: 1,
            next_txn_id: 1,
            active_snapshots: Vec::new(),
            version_store: store_new(),
            committed_transactions: BTreeMap::new(),
        }
    }

    /// Starts a transaction: the next number, the current time (which
    /// advances), and the transactions active now, oldest first.
    pub fn begin_transaction(&mut self) -> (s: Snapshot)
        ensures
            s.txn_id == old(self).next_txn(),
            s.timestamp == old(self).now(),
            s.active_transactions@ == txn_ids(old(self).active()),
            final(self).next_txn() == crate::lockfree::next_u64(old(self).next_txn()),
            final(self).now() == crate::lockfree::next_u64(old(self).now()),
            final(self).active().len() == old(self).active().len() + 1,
            final(self).active().drop_last() == old(self).active(),
            final(self).active().last().txn_id == s.txn_id,
            final(self).active().last().timestamp == s.timestamp,
            final(self).active().last().active_transactions@ == s.active_transactions@,
            final(self).committed() == old(self).committed(),
            final(self).tables() == old(self).tables(),
    {
        let txn_id = self.next_txn_id;
        self.next_txn_id = self.next_txn_id.wrapping_add(1);
        let timestamp = self.current_timestamp;
        self.current_timestamp = self.current_timestamp.wrapping_add(1);
        let mut active: Vec<TransactionId> = Vec::new();
        let mut i: usize = 0;
        while i < self.active_snapshots.len()
            invariant
                i <= self.active_snapshots@.len(),
                active@ == txn_ids(self.active_snapshots@).take(i as int),
            decreases self.active_snapshots.len() - i,
        {
            active.push(self.active_snapshots[i].txn_id);
            proof {
                assert(txn_ids(self.active_snapshots@).take(i + 1) =~= txn_ids(self.active_snapshots@).take(i as int).push(
                    self.active_snapshots@[i as int].txn_id,
                ));
            }
            i = i + 1;
        }
        proof {
            assert(txn_ids(self.active_snapshots@).take(i as int) =~= txn_ids(self.active_snapshots@));
        }
        let snapshot = Snapshot::new(timestamp, txn_id, active);
        let ghost before = self.active_snapshots@;
        self.active_snapshots.push(snapshot.copy());
        proof {
            assert(self.active_snapshots@.drop_last() =~= before);
        }
        snapshot
    }

    fn forget_snapshot(&mut self, txn: TransactionId)
        ensures
            final(self).active() == without_snapshot(old(self).active(), txn),
            final(self).now() == old(self).now(),
            final(self).next_txn() == old(self).next_txn(),
            final(self).committed() == old(self).committed(),
            final(self).tables() == old(self).tables(),
    {
        let mut rest: Vec<Snapshot> = Vec::new();
        std::mem::swap(&mut rest, &mut self.active_snapshots);
        let ghost all = rest@;
        let n = rest.len();
        let mut reversed: Vec<Snapshot> = Vec::new();
        while rest.len() > 0
            invariant
                reversed@.len() + rest@.len() == n,
                rest@ == all.take(rest@.len() as int),
                forall|j: int| 0 <= j < reversed@.len() ==> reversed@[j] == all[n - 1 - j],
                n == all.len(),
            decreases rest.len(),
        {
            let v = rest.pop().unwrap();
            reversed.push(v);
        }
        let mut kept: Vec<Snapshot> = Vec::new();
        let mut i: usize = 0;
        while reversed.len() > 0
            invariant
                reversed@.len() + i == n,
                forall|j: int| 0 <= j < reversed@.len() ==> reversed@[j] == all[n - 1 - j],
                kept@ == without_snapshot(all.take(i as int), txn),
                n == all.len(),
                i <= n,
            decreases reversed.len(),
        {
            let v = reversed.pop().unwrap();
            proof {
                reveal(Seq::filter);
                assert(v == all[i as int]);
                assert(all.take(i + 1).drop_last() =~= all.take(i as int));
                assert(all.take(i + 1).last() == all[i as int]);
            }
            if v.txn_id != txn {
                kept.push(v);
            }
            i = i + 1;
        }
        proof {
            assert(all.take(n as int) =~= all);
        }
        self.active_snapshots = kept;
    }

    /// Commits the transaction of `snapshot` at the current time (which
    /// advances) and forgets its snapshot. Always `Ok`.
    pub fn commit_transaction(&mut self, snapshot: &Snapshot) -> (r: Result<()>)
        ensures
            r is Ok,
            final(self).now() == crate::lockfree::next_u64(old(self).now()),
            final(self).committed() == old(self).committed().insert(snapshot.txn_id, old(self).now()),
            final(self).active() == without_snapshot(old(self).active(), snapshot.txn_id),
            final(self).next_txn() == old(self).next_txn(),
            final(self).tables() == old(self).tables(),
    {
        let commit_timestamp = self.current_timestamp;
        self.current_timestamp = self.current_timestamp.wrapping_add(1);
        self.committed_transactions.insert(snapshot.txn_id, commit_timestamp);
        self.forget_snapshot(snapshot.txn_id);
        Ok(())
    }

    /// Forgets the snapshot of the transaction. Always `Ok`; the versions
    /// it wrote stay.
    pub fn abort_transaction(&mut self, snapshot: &Snapshot) -> (r: Result<()>)
        ensures
            r is Ok,
            final(self).active() == without_snapshot(old(self).active(), snapshot.txn_id),
            final(self).now() == old(self).now(),
            final(self).next_txn() == old(self).next_txn(),
            final(self).committed() == old(self).committed(),
            final(self).tables() == old(self).tables(),
    {
        self.forget_snapshot(snapshot.txn_id);
        Ok(())
    }
}



proof fn lemma_increasing_pair<K: Ord>(s: Seq<K>, i: int, j: int)
    requires
        vstd::std_specs::btree::increasing_seq(s),
        vstd::laws_cmp::obeys_cmp::<K>(),
        0 <= i < j < s.len(),
    ensures
        s[i].cmp_spec(&s[j]) is Less,
{
    vstd::std_specs::btree::axiom_increasing_seq_meaning::<K>(s);
}

proof fn lemma_increasing_keys(s: Seq<&i64>)
    requires
        vstd::std_specs::btree::increasing_seq(s),
    ensures
        forall|i: int, j: int| 0 <= i < j < s.len() ==> *s[i] < *s[j],
{
    broadcast use vstd::laws_cmp::group_laws_cmp, vstd::laws_cmp::lemma_ref_obeys_cmp_spec;
    assert(vstd::laws_cmp::obeys_cmp::<i64>());
    assert(vstd::laws_cmp::obeys_cmp::<&i64>());
    vstd::std_specs::btree::axiom_increasing_seq_meaning::<&i64>(s);
    assert forall|i: int, j: int| 0 <= i < j < s.len() implies *s[i] < *s[j] by {
        broadcast use vstd::std_specs::btree::axiom_increasing_seq_meaning, vstd::laws_cmp::group_laws_cmp, vstd::laws_cmp::lemma_ref_obeys_cmp_spec;
        lemma_increasing_pair::<&i64>(s, i, j);
    }
}

/// The keys of a map keyed by integers, in increasing order.
pub fn table_keys<V>(t: &BTreeMap<i64, V>) -> (ks: Vec<i64>)
    ensures
        ks@.to_set() == t@.dom(),
        forall|i: int, j: int| 0 <= i < j < ks@.len() ==> ks@[i] < ks@[j],
        ks@.no_duplicates(),
{
    let mut ks: Vec<i64> = Vec::new();
    let ghost s0 = vstd::std_specs::iter::IteratorSpec::remaining(&vstd::std_specs::btree::spec_keys_iter(t));
    for k in it: t.keys()
        invariant
            ks@.len() == it.index(),
            forall|i: int| 0 <= i < ks@.len() ==> ks@[i] == *it.seq()[i],
            it.seq() == s0,
    {
        ks.push(*k);
    }
    proof {
        assert(ks@.len() == s0.len());
        assert(ks@ =~= s0.unref());
        lemma_increasing_keys(s0);
        assert forall|i: int, j: int| 0 <= i < ks@.len() && 0 <= j < ks@.len() && i != j implies ks@[i] != ks@[j] by {
            if i < j {
                assert(ks@[i] < ks@[j]);
            } else {
                assert(ks@[j] < ks@[i]);
            }
        }
    }
    ks
}



/// The keys of a map of commit times, in increasing order.
fn commit_keys(t: &BTreeMap<u64, u64>) -> (ks: Vec<u64>)
    ensures
        ks@.to_set() == t@.dom(),
        forall|i: int, j: int| 0 <= i < j < ks@.len() ==> ks@[i] < ks@[j],
{
    let mut ks: Vec<u64> = Vec::new();
    let ghost s0 = vstd::std_specs::iter::IteratorSpec::remaining(&vstd::std_specs::btree::spec_keys_iter(t));
    for k in it: t.keys()
        invariant
            ks@.len() == it.index(),
            forall|i: int| 0 <= i < ks@.len() ==> ks@[i] == *it.seq()[i],
            it.seq() == s0,
    {
        ks.push(*k);
    }
    proof {
        assert(ks@.len() == s0.len());
        assert(ks@ =~= s0.unref());
        lemma_increasing_commit_keys(s0);
    }
    ks
}

proof fn lemma_increasing_commit_keys(s: Seq<&u64>)
    requires
        vstd::std_specs::btree::increasing_seq(s),
    ensures
        forall|i: int, j: int| 0 <= i < j < s.len() ==> *s[i] < *s[j],
{
    broadcast use vstd::laws_cmp::group_laws_cmp, vstd::laws_cmp::lemma_ref_obeys_cmp_spec;
    assert(vstd::laws_cmp::obeys_cmp::<u64>());
    assert(vstd::laws_cmp::obeys_cmp::<&u64>());
    assert forall|i: int, j: int| 0 <= i < j < s.len() implies *s[i] < *s[j] by {
        lemma_increasing_pair::<&u64>(s, i, j);
    }
}

/// The table `name` of a store: empty when absent.
pub open spec fn table_of(t: Map<Seq<char>, Map<i64, VersionedRecord>>, name: Seq<char>) -> Map<i64, VersionedRecord> {
    if t.contains_key(name) { t[name] } else { Map::empty() }
}

/// The versions of record `key` in table `name`: none when absent.
pub open spec fn versions_of(t: Map<Seq<char>, Map<i64, VersionedRecord>>, name: Seq<char>, key: i64) -> Seq<RecordVersion> {
    if table_of(t, name).contains_key(key) { table_of(t, name)[key].versions@ } else { Seq::empty() }
}

/// What a snapshot reads of record `key` in table `name`.
pub open spec fn spec_read(t: Map<Seq<char>, Map<i64, VersionedRecord>>, name: Seq<char>, key: i64, s: Snapshot) -> Option<Seq<ValueView>> {
    if table_of(t, name).contains_key(key) { visible_data(table_of(t, name)[key], s) } else { None }
}

/// The earliest snapshot time among the active transactions, or `now`
/// when there are none.
pub open spec fn min_active(ss: Seq<Snapshot>, now: u64) -> u64
    decreases ss.len(),
{
    if ss.len() == 0 {
        now
    } else if ss.len() == 1 {
        ss[0].timestamp
    } else {
        let m = min_active(ss.drop_last(), now);
        if ss.last().timestamp < m { ss.last().timestamp } else { m }
    }
}

/// The vacuum threshold is the earliest active snapshot time: no active
/// snapshot is earlier than it, it is the time of one of them when any is
/// active, and it is `now` when none is.
pub proof fn law_min_active_is_earliest(ss: Seq<Snapshot>, now: u64)
    ensures
        forall|i: int| 0 <= i < ss.len() ==> min_active(ss, now) <= (#[trigger] ss[i]).timestamp,
        ss.len() > 0 ==> exists|i: int| 0 <= i < ss.len() && min_active(ss, now) == (#[trigger] ss[i]).timestamp,
        ss.len() == 0 ==> min_active(ss, now) == now,
    decreases ss.len(),
{
    if ss.len() > 1 {
        let p = ss.drop_last();
        law_min_active_is_earliest(p, now);
        assert forall|i: int| 0 <= i < ss.len() implies min_active(ss, now) <= (#[trigger] ss[i]).timestamp by {
            if i < ss.len() - 1 {
                assert(ss[i] == p[i]);
            }
        }
        if ss.last().timestamp < min_active(p, now) {
            assert(min_active(ss, now) == ss[ss.len() - 1].timestamp);
        } else {
            let i = choose|i: int| 0 <= i < p.len() && min_active(p, now) == (#[trigger] p[i]).timestamp;
            assert(min_active(ss, now) == ss[i].timestamp);
        }
    } else if ss.len() == 1 {
        assert(min_active(ss, now) == ss[0].timestamp);
    }
}

fn name_string(name: &str) -> (s: String)
    ensures
        s@ == name@,
{
    crate::text::string_of(crate::text::chars_of(name).as_slice())
}

impl MvccManager {
    /// Adds a version of `data` to record `key` of table `table` (both made
    /// when absent), created by the snapshot's transaction at the current
    /// time. Always `Ok`.
    pub fn insert_version(&mut self, table: &str, key: i64, data: Vec<Value>, snapshot: &Snapshot) -> (r: Result<()>)
        ensures
            r is Ok,
            final(self).now() == old(self).now(),
            final(self).next_txn() == old(self).next_txn(),
            final(self).active() == old(self).active(),
            final(self).committed() == old(self).committed(),
            final(self).tables().dom() == old(self).tables().dom().insert(table@),
            final(self).tables().remove(table@) == old(self).tables().remove(table@),
            final(self).tables()[table@].dom() == table_of(old(self).tables(), table@).dom().insert(key),
            final(self).tables()[table@].remove(key) == table_of(old(self).tables(), table@).remove(key),
            final(self).tables()[table@][key].key == (if table_of(old(self).tables(), table@).contains_key(key) {
                table_of(old(self).tables(), table@)[key].key
            } else {
                key
            }),
            final(self).tables()[table@][key].versions@ == versions_of(old(self).tables(), table@, key).push(
                RecordVersion {
                    version_info: VersionInfo { xmin: snapshot.txn_id, xmax: 0, created_at: old(self).now(), deleted_at: 0 },
                    data,
                },
            ),
    {
        let created_at = self.current_timestamp;
        let version = RecordVersion::new(snapshot.txn_id, created_at, data);
        let mut t = match store_take(&mut self.version_store, table) {
            Some(t) => t,
            None => BTreeMap::new(),
        };
        let ghost tm = t@;
        assert(tm == table_of(old(self).tables(), table@));
        let mut rec = match t.remove(&key) {
            Some(r) => r,
            None => VersionedRecord::new(key),
        };
        rec.add_version(version);
        t.insert(key, rec);
        proof {
            assert(t@.remove(key) =~= tm.remove(key));
            assert(t@.dom() =~= tm.dom().insert(key));
        }
        store_put(&mut self.version_store, name_string(table), t);
        proof {
            assert(self.tables().remove(table@) =~= old(self).tables().remove(table@));
            assert(self.tables().dom() =~= old(self).tables().dom().insert(table@));
        }
        Ok(())
    }

    /// The values of the newest version of record `key` in table `table`
    /// that `snapshot` sees, if any. Always `Ok`.
    pub fn read_version(&mut self, table: &str, key: i64, snapshot: &Snapshot) -> (r: Result<Option<Vec<Value>>>)
        ensures
            final(self).tables() == old(self).tables(),
            final(self).now() == old(self).now(),
            final(self).next_txn() == old(self).next_txn(),
            final(self).active() == old(self).active(),
            final(self).committed() == old(self).committed(),
            match spec_read(old(self).tables(), table@, key, *snapshot) {
                Some(d) => r matches Ok(Some(v)) && v.deep_view() == d,
                None => r matches Ok(None),
            },
    {
        let t = match store_take(&mut self.version_store, table) {
            Some(t) => t,
            None => return Ok(None),
        };
        let mut result: Option<Vec<Value>> = None;
        match t.get(&key) {
            Some(rec) => match rec.get_visible_version(snapshot) {
                Some(v) => {
                    result = Some(copy_values(&v.data));
                },
                None => {},
            },
            None => {},
        }
        store_put(&mut self.version_store, name_string(table), t);
        proof {
            assert(self.tables() =~= old(self).tables());
        }
        Ok(result)
    }

    /// Marks the newest version of record `key` in table `table` deleted by
    /// the snapshot's transaction at the current time (which advances either
    /// way); `NotFound` when the record is absent or has no versions.
    pub fn delete_version(&mut self, table: &str, key: i64, snapshot: &Snapshot) -> (r: Result<()>)
        ensures
            final(self).now() == crate::lockfree::next_u64(old(self).now()),
            final(self).next_txn() == old(self).next_txn(),
            final(self).active() == old(self).active(),
            final(self).committed() == old(self).committed(),
            versions_of(old(self).tables(), table@, key).len() == 0 ==> (r matches Err(VelociError::NotFound(_))
                && final(self).tables() == old(self).tables()),
            versions_of(old(self).tables(), table@, key).len() > 0 ==> r is Ok && ({
                let t = old(self).tables()[table@];
                let rec = t[key];
                let last = rec.versions@.len() - 1;
                final(self).tables() == old(self).tables().insert(
                    table@,
                    t.insert(
                        key,
                        VersionedRecord {
                            versions: final(self).tables()[table@][key].versions,
                            ..rec
                        },
                    ),
                ) && final(self).tables()[table@][key].versions@ == rec.versions@.update(
                    last,
                    RecordVersion {
                        version_info: VersionInfo { xmax: snapshot.txn_id, deleted_at: old(self).now(), ..rec.versions@[last].version_info },
                        ..rec.versions@[last]
                    },
                )
            }),
    {
        let deleted_at = self.current_timestamp;
        self.current_timestamp = self.current_timestamp.wrapping_add(1);
        let mut t = match store_take(&mut self.version_store, table) {
            Some(t) => t,
            None => return Err(VelociError::NotFound(String::from_str("Record not found"))),
        };
        let ghost tm = t@;
        let res = match t.remove(&key) {
            Some(mut rec) => {
                let r = rec.mark_deleted(snapshot.txn_id, deleted_at);
                t.insert(key, rec);
                r
            },
            None => Err(VelociError::NotFound(String::from_str("Record not found"))),
        };
        proof {
            if tm.contains_key(key) {
                assert(t@ =~= tm.insert(key, t@[key]));
                if tm[key].versions@.len() == 0 {
                    assert(t@[key] == tm[key]);
                    assert(t@ =~= tm);
                }
            } else {
                assert(t@ =~= tm);
            }
        }
        store_put(&mut self.version_store, name_string(table), t);
        proof {
            assert(self.tables() =~= old(self).tables().insert(table@, t@));
            if !(tm.contains_key(key) && tm[key].versions@.len() > 0) {
                assert(self.tables() =~= old(self).tables());
            }
        }
        res
    }
}



/// The rows a scan gives: in increasing key order, each record that the
/// snapshot sees a version of, once, with that version's values.
pub open spec fn scan_result(t: Map<i64, VersionedRecord>, s: Snapshot, res: Seq<(i64, Seq<ValueView>)>) -> bool {
    &&& forall|i: int, j: int| 0 <= i < j < res.len() ==> res[i].0 < res[j].0
    &&& forall|i: int| 0 <= i < res.len() ==> t.contains_key(#[trigger] res[i].0) && visible_data(t[res[i].0], s) == Some(res[i].1)
    &&& forall|k: i64| t.contains_key(k) && (#[trigger] visible_data(t[k], s)) is Some ==> exists|i: int| 0 <= i < res.len() && res[i].0 == k
}

/// Rows as models.
pub open spec fn rows_of(v: Seq<(i64, Vec<Value>)>) -> Seq<(i64, Seq<ValueView>)> {
    v.map_values(|x: (i64, Vec<Value>)| (x.0, x.1.deep_view()))
}

/// The record counts of the tables named `ks`, summed with wrapping.
pub open spec fn sum_records(ks: Seq<Seq<char>>, t: Map<Seq<char>, Map<i64, VersionedRecord>>) -> usize
    decreases ks.len(),
{
    if ks.len() == 0 {
        0
    } else {
        sum_records(ks.drop_last(), t).wrapping_add(t[ks.last()].len() as usize)
    }
}

/// The version counts of the records `keys` of table `tm`, summed with
/// wrapping onto `acc`.
pub open spec fn sum_versions_in(keys: Seq<i64>, tm: Map<i64, VersionedRecord>, acc: usize) -> usize
    decreases keys.len(),
{
    if keys.len() == 0 {
        acc
    } else {
        sum_versions_in(keys.drop_last(), tm, acc).wrapping_add(tm[keys.last()].versions@.len() as usize)
    }
}

impl MvccManager {
    /// The records of table `table` that `snapshot` sees, in key order,
    /// with the values of their newest visible versions. Always `Ok`.
    pub fn scan_table(&mut self, table: &str, snapshot: &Snapshot) -> (r: Result<Vec<(i64, Vec<Value>)>>)
        ensures
            final(self).tables() == old(self).tables(),
            final(self).now() == old(self).now(),
            final(self).next_txn() == old(self).next_txn(),
            final(self).active() == old(self).active(),
            final(self).committed() == old(self).committed(),
            r matches Ok(v) && scan_result(table_of(old(self).tables(), table@), *snapshot, rows_of(v@)),
    {
        let t = match store_take(&mut self.version_store, table) {
            Some(t) => t,
            None => {
                let v: Vec<(i64, Vec<Value>)> = Vec::new();
                proof {
                    assert(rows_of(v@) =~= Seq::<(i64, Seq<ValueView>)>::empty());
                }
                return Ok(v);
            },
        };
        let ghost tm = t@;
        let keys = table_keys(&t);
        let mut res: Vec<(i64, Vec<Value>)> = Vec::new();
        let mut i: usize = 0;
        while i < keys.len()
            invariant
                i <= keys@.len(),
                tm == t@,
                keys@.to_set() == tm.dom(),
                forall|a: int, b: int| 0 <= a < b < keys@.len() ==> keys@[a] < keys@[b],
                forall|a: int, b: int| 0 <= a < b < res@.len() ==> res@[a].0 < res@[b].0,
                i < keys@.len() ==> forall|m: int| 0 <= m < res@.len() ==> res@[m].0 < keys@[i as int],
                forall|m: int| 0 <= m < res@.len() ==> tm.contains_key(#[trigger] rows_of(res@)[m].0) && visible_data(tm[rows_of(res@)[m].0], *snapshot) == Some(rows_of(res@)[m].1),
                forall|a: int| 0 <= a < i ==> (#[trigger] visible_data(tm[keys@[a]], *snapshot)) is Some ==> exists|m: int| 0 <= m < res@.len() && res@[m].0 == keys@[a],
            decreases keys.len() - i,
        {
            let k = keys[i];
            let ghost before = res@;
            proof {
                assert(keys@.to_set().contains(k));
            }
            match t.get(&k) {
                Some(rec) => match rec.get_visible_version(snapshot) {
                    Some(v) => {
                        let data = copy_values(&v.data);
                        res.push((k, data));
                        proof {
                            lemma_latest_visible_bounds(rec.versions@, *snapshot, rec.versions@.len() as int);
                            assert(rows_of(res@) =~= rows_of(before).push((k, data.deep_view())));
                            assert(res@[before.len() as int].0 == k);
                        }
                    },
                    None => {},
                },
                None => {},
            }
            proof {
                if i + 1 < keys@.len() {
                    assert(keys@[i as int] < keys@[i + 1]);
                }
                assert(forall|m: int| 0 <= m < before.len() ==> res@[m] == before[m]);
                assert forall|a: int| 0 <= a < i + 1 && (#[trigger] visible_data(tm[keys@[a]], *snapshot)) is Some implies exists|m: int|
                    0 <= m < res@.len() && res@[m].0 == keys@[a] by {
                    if a < i {
                        let m = choose|m: int| 0 <= m < before.len() && before[m].0 == keys@[a];
                        assert(res@[m].0 == keys@[a]);
                    } else {
                        lemma_latest_visible_bounds(tm[k].versions@, *snapshot, tm[k].versions@.len() as int);
                        assert(res@.len() == before.len() + 1);
                        assert(res@[before.len() as int].0 == keys@[a]);
                    }
                }
            }
            i = i + 1;
        }
        store_put(&mut self.version_store, name_string(table), t);
        proof {
            assert(self.tables() =~= old(self).tables());
            assert(table_of(old(self).tables(), table@) == tm);
            assert forall|k: i64| tm.contains_key(k) && (#[trigger] visible_data(tm[k], *snapshot)) is Some implies exists|m: int|
                0 <= m < rows_of(res@).len() && rows_of(res@)[m].0 == k by {
                assert(keys@.to_set().contains(k));
                let a = choose|a: int| 0 <= a < keys@.len() && keys@[a] == k;
                let m = choose|m: int| 0 <= m < res@.len() && res@[m].0 == keys@[a];
                assert(rows_of(res@)[m].0 == k);
            }
        }
        Ok(res)
    }
}



/// The version counts of the tables named `ks`, each table's records taken
/// in the order `kss` gives, summed with wrapping.
pub open spec fn sum_versions(ks: Seq<Seq<char>>, kss: Seq<Seq<i64>>, t: Map<Seq<char>, Map<i64, VersionedRecord>>) -> usize
    decreases ks.len(),
{
    if ks.len() == 0 || kss.len() == 0 {
        0
    } else {
        sum_versions_in(kss.last(), t[ks.last()], sum_versions(ks.drop_last(), kss.drop_last(), t))
    }
}

/// `tm2` is the table `tm` vacuumed at `m`: the same records, each keeping
/// the versions that survive.
pub open spec fn vacuumed(tm: Map<i64, VersionedRecord>, tm2: Map<i64, VersionedRecord>, m: Timestamp) -> bool {
    &&& tm2.dom() == tm.dom()
    &&& forall|k: i64| #[trigger] tm.contains_key(k) ==> tm2[k].key == tm[k].key
        && tm2[k].versions@ == tm[k].versions@.filter(|v: RecordVersion| survives(v, m))
}

impl MvccManager {
    fn min_active_timestamp(&self) -> (m: u64)
        ensures
            m == min_active(self.active(), self.now()),
    {
        let n = self.active_snapshots.len();
        if n == 0 {
            return self.current_timestamp;
        }
        let ghost ss = self.active_snapshots@;
        let mut cur = self.active_snapshots[0].timestamp;
        let mut i: usize = 1;
        proof {
            assert(ss.take(1).len() == 1);
        }
        while i < n
            invariant
                1 <= i <= n,
                n == ss.len(),
                ss == self.active_snapshots@,
                cur == min_active(ss.take(i as int), self.current_timestamp),
            decreases n - i,
        {
            proof {
                assert(ss.take(i + 1).drop_last() =~= ss.take(i as int));
                assert(ss.take(i + 1).last() == ss[i as int]);
            }
            if self.active_snapshots[i].timestamp < cur {
                cur = self.active_snapshots[i].timestamp;
            }
            i = i + 1;
        }
        proof {
            assert(ss.take(n as int) =~= ss);
        }
        cur
    }

    fn vacuum_table(t: &mut TableVersions, m: Timestamp)
        ensures
            vacuumed(old(t)@, final(t)@, m),
    {
        let ghost t0 = t@;
        let keys = table_keys(t);
        let mut i: usize = 0;
        while i < keys.len()
            invariant
                i <= keys@.len(),
                keys@.to_set() == t0.dom(),
                forall|a: int, b: int| 0 <= a < b < keys@.len() ==> keys@[a] < keys@[b],
                t@.dom() == t0.dom(),
                forall|k: i64| #[trigger] t0.contains_key(k) && keys@.take(i as int).contains(k) ==> t@[k].key == t0[k].key
                    && t@[k].versions@ == t0[k].versions@.filter(|v: RecordVersion| survives(v, m)),
                forall|k: i64| #[trigger] t0.contains_key(k) && !keys@.take(i as int).contains(k) ==> t@[k] == t0[k],
            decreases keys.len() - i,
        {
            let k = keys[i];
            proof {
                assert(keys@.to_set().contains(k));
                assert(keys@.take(i + 1) =~= keys@.take(i as int).push(k));
                assert(!keys@.take(i as int).contains(k)) by {
                    if keys@.take(i as int).contains(k) {
                        let j = choose|j: int| 0 <= j < i && #[trigger] keys@.take(i as int)[j] == k;
                        assert(keys@[j] < keys@[i as int]);
                    }
                }
            }
            let ghost before = t@;
            match t.remove(&k) {
                Some(mut rec) => {
                    rec.vacuum(m);
                    t.insert(k, rec);
                },
                None => {},
            }
            proof {
                assert(t@.dom() =~= t0.dom());
                assert forall|x: i64| #[trigger] t0.contains_key(x) && keys@.take(i + 1).contains(x) implies t@[x].key == t0[x].key
                    && t@[x].versions@ == t0[x].versions@.filter(|v: RecordVersion| survives(v, m)) by {
                    if x != k {
                        assert(keys@.take(i as int).contains(x)) by {
                            let j = choose|j: int| 0 <= j < i + 1 && #[trigger] keys@.take(i + 1)[j] == x;
                            assert(j != i);
                            assert(keys@.take(i as int)[j] == x);
                        }
                    }
                }
                assert forall|x: i64| #[trigger] t0.contains_key(x) && !keys@.take(i + 1).contains(x) implies t@[x] == t0[x] by {
                    if x == k {
                        assert(keys@.take(i + 1)[i as int] == k);
                    }
                    assert(!keys@.take(i as int).contains(x)) by {
                        if keys@.take(i as int).contains(x) {
                            let j = choose|j: int| 0 <= j < i && #[trigger] keys@.take(i as int)[j] == x;
                            assert(keys@.take(i + 1)[j] == x);
                        }
                    }
                }
            }
            i = i + 1;
        }
        proof {
            assert(keys@.take(i as int) =~= keys@);
            assert forall|k: i64| #[trigger] t0.contains_key(k) implies t@[k].key == t0[k].key
                && t@[k].versions@ == t0[k].versions@.filter(|v: RecordVersion| survives(v, m)) by {
                assert(keys@.to_set().contains(k));
            }
        }
    }

    /// Drops what no active transaction can see any more: commit records
    /// older than the earliest active snapshot (or the current time when
    /// none is active), and the versions deleted before it.
    pub fn vacuum(&mut self)
        ensures
            final(self).now() == old(self).now(),
            final(self).next_txn() == old(self).next_txn(),
            final(self).active() == old(self).active(),
            ({
                let m = min_active(old(self).active(), old(self).now());
                &&& final(self).committed().dom() == old(self).committed().dom().filter(|k: u64| old(self).committed()[k] >= m)
                &&& forall|k: u64| #[trigger] final(self).committed().contains_key(k) ==> final(self).committed()[k] == old(self).committed()[k]
                &&& final(self).tables().dom() == old(self).tables().dom()
                &&& forall|name: Seq<char>| #[trigger] old(self).tables().contains_key(name) ==> vacuumed(old(self).tables()[name], final(self).tables()[name], m)
            }),
    {
        let m = self.min_active_timestamp();
        let ghost c0 = self.committed_transactions@;
        let ks = commit_keys(&self.committed_transactions);
        let mut i: usize = 0;
        while i < ks.len()
            invariant
                i <= ks@.len(),
                ks@.to_set() == c0.dom(),
                forall|a: int, b: int| 0 <= a < b < ks@.len() ==> ks@[a] < ks@[b],
                self.committed_transactions@.dom() == c0.dom().filter(|k: u64| !ks@.take(i as int).contains(k) || c0[k] >= m),
                forall|k: u64| #[trigger] self.committed_transactions@.contains_key(k) ==> self.committed_transactions@[k] == c0[k],
                self.current_timestamp == old(self).current_timestamp,
                self.next_txn_id == old(self).next_txn_id,
                self.active_snapshots == old(self).active_snapshots,
                self.version_store == old(self).version_store,
            decreases ks.len() - i,
        {
            let k = ks[i];
            proof {
                assert(ks@.to_set().contains(k));
                assert(ks@.take(i + 1) =~= ks@.take(i as int).push(k));
                assert(!ks@.take(i as int).contains(k)) by {
                    if ks@.take(i as int).contains(k) {
                        let j = choose|j: int| 0 <= j < i && #[trigger] ks@.take(i as int)[j] == k;
                        assert(ks@[j] < ks@[i as int]);
                    }
                }
                assert(self.committed_transactions@.contains_key(k));
            }
            let ts = match self.committed_transactions.get(&k) {
                Some(t) => *t,
                None => m,
            };
            if ts < m {
                self.committed_transactions.remove(&k);
            }
            proof {
                assert(ts == c0[k]);
                assert forall|x: u64| #[trigger] c0.dom().contains(x) implies (self.committed_transactions@.dom().contains(x) == (
                    !ks@.take(i + 1).contains(x) || c0[x] >= m)) by {
                    if x != k {
                        assert(ks@.take(i + 1).contains(x) == ks@.take(i as int).contains(x)) by {
                            if ks@.take(i + 1).contains(x) {
                                let a = choose|a: int| 0 <= a < i + 1 && #[trigger] ks@.take(i + 1)[a] == x;
                                assert(a != i);
                                assert(ks@.take(i as int)[a] == x);
                            }
                            if ks@.take(i as int).contains(x) {
                                let a = choose|a: int| 0 <= a < i && #[trigger] ks@.take(i as int)[a] == x;
                                assert(ks@.take(i + 1)[a] == x);
                            }
                        }
                    } else {
                        assert(ks@.take(i + 1)[i as int] == k);
                    }
                }
                assert(self.committed_transactions@.dom() =~= c0.dom().filter(|x: u64| !ks@.take(i + 1).contains(x) || c0[x] >= m));
            }
            i = i + 1;
        }
        proof {
            assert(ks@.take(i as int) =~= ks@);
            assert(self.committed_transactions@.dom() =~= c0.dom().filter(|k: u64| c0[k] >= m));
        }
        let ghost t0 = self.tables();
        let names = store_names(&self.version_store);
        let ghost ns = names@.map_values(|k: String| k@);
        let mut j: usize = 0;
        while j < names.len()
            invariant
                j <= names@.len(),
                ns == names@.map_values(|k: String| k@),
                ns.to_set() == t0.dom(),
                ns.no_duplicates(),
                self.tables().dom() == t0.dom(),
                forall|name: Seq<char>| #[trigger] t0.contains_key(name) && ns.take(j as int).contains(name) ==> vacuumed(t0[name], self.tables()[name], m),
                forall|name: Seq<char>| #[trigger] t0.contains_key(name) && !ns.take(j as int).contains(name) ==> self.tables()[name] == t0[name],
                self.current_timestamp == old(self).current_timestamp,
                self.next_txn_id == old(self).next_txn_id,
                self.active_snapshots == old(self).active_snapshots,
                self.committed_transactions@.dom() == c0.dom().filter(|k: u64| c0[k] >= m),
                forall|k: u64| #[trigger] self.committed_transactions@.contains_key(k) ==> self.committed_transactions@[k] == c0[k],
            decreases names.len() - j,
        {
            let ghost name = ns[j as int];
            proof {
                assert(ns[j as int] == names@[j as int]@);
                assert(ns.to_set().contains(name));
                assert(ns.take(j + 1) =~= ns.take(j as int).push(name));
                assert(!ns.take(j as int).contains(name)) by {
                    if ns.take(j as int).contains(name) {
                        let a = choose|a: int| 0 <= a < j && #[trigger] ns.take(j as int)[a] == name;
                        assert(ns[a] == ns[j as int]);
                    }
                }
            }
            let ghost before = self.tables();
            match store_take(&mut self.version_store, names[j].as_str()) {
                Some(mut t) => {
                    MvccManager::vacuum_table(&mut t, m);
                    store_put(&mut self.version_store, name_string(names[j].as_str()), t);
                },
                None => {},
            }
            proof {
                assert(self.tables().dom() =~= t0.dom());
                assert forall|x: Seq<char>| #[trigger] t0.contains_key(x) && ns.take(j + 1).contains(x) implies vacuumed(t0[x], self.tables()[x], m) by {
                    if x != name {
                        assert(ns.take(j as int).contains(x)) by {
                            let a = choose|a: int| 0 <= a < j + 1 && #[trigger] ns.take(j + 1)[a] == x;
                            assert(a != j);
                            assert(ns.take(j as int)[a] == x);
                        }
                    }
                }
                assert forall|x: Seq<char>| #[trigger] t0.contains_key(x) && !ns.take(j + 1).contains(x) implies self.tables()[x] == t0[x] by {
                    if x == name {
                        assert(ns.take(j + 1)[j as int] == name);
                    }
                    assert(!ns.take(j as int).contains(x)) by {
                        if ns.take(j as int).contains(x) {
                            let a = choose|a: int| 0 <= a < j && #[trigger] ns.take(j as int)[a] == x;
                            assert(ns.take(j + 1)[a] == x);
                        }
                    }
                }
            }
            j = j + 1;
        }
        proof {
            assert(ns.take(j as int) =~= ns);
            assert forall|name: Seq<char>| #[trigger] t0.contains_key(name) implies vacuumed(t0[name], self.tables()[name], m) by {
                assert(ns.to_set().contains(name));
            }
        }
    }
}



impl MvccManager {
    /// The number of active snapshots, and the numbers of records and of
    /// versions over all tables (summed with wrapping).
    pub fn get_counts(&mut self) -> (c: MvccCounts)
        ensures
            final(self).tables() == old(self).tables(),
            final(self).now() == old(self).now(),
            final(self).next_txn() == old(self).next_txn(),
            final(self).active() == old(self).active(),
            final(self).committed() == old(self).committed(),
            c.active_snapshots == old(self).active().len(),
            exists|ks: Seq<Seq<char>>, kss: Seq<Seq<i64>>|
                #![trigger sum_versions(ks, kss, old(self).tables())]
                ks.to_set() == old(self).tables().dom() && ks.no_duplicates() && kss.len() == ks.len() && (forall|j: int|
                    0 <= j < ks.len() ==> (#[trigger] kss[j]).to_set() == old(self).tables()[ks[j]].dom()
                        && kss[j].no_duplicates()) && c.total_records == sum_records(ks, old(self).tables())
                    && c.total_versions == sum_versions(ks, kss, old(self).tables()),
    {
        let ghost t0 = self.tables();
        let names = store_names(&self.version_store);
        let ghost ns = names@.map_values(|k: String| k@);
        let ghost mut kss: Seq<Seq<i64>> = Seq::empty();
        let mut records: usize = 0;
        let mut versions: usize = 0;
        let mut j: usize = 0;
        while j < names.len()
            invariant
                j <= names@.len(),
                ns == names@.map_values(|k: String| k@),
                ns.to_set() == t0.dom(),
                ns.no_duplicates(),
                self.tables() == t0,
                kss.len() == j,
                forall|a: int| 0 <= a < j ==> (#[trigger] kss[a]).to_set() == t0[ns[a]].dom() && kss[a].no_duplicates(),
                records == sum_records(ns.take(j as int), t0),
                versions == sum_versions(ns.take(j as int), kss, t0),
                self.current_timestamp == old(self).current_timestamp,
                self.next_txn_id == old(self).next_txn_id,
                self.active_snapshots == old(self).active_snapshots,
                self.committed_transactions == old(self).committed_transactions,
            decreases names.len() - j,
        {
            let ghost name = ns[j as int];
            proof {
                assert(ns[j as int] == names@[j as int]@);
                assert(ns.to_set().contains(name));
                assert(ns.take(j + 1).drop_last() =~= ns.take(j as int));
                assert(ns.take(j + 1).last() == name);
            }
            match store_take(&mut self.version_store, names[j].as_str()) {
                Some(t) => {
                    records = records.wrapping_add(t.len());
                    let keys = table_keys(&t);
                    let ghost start = versions;
                    let mut i: usize = 0;
                    while i < keys.len()
                        invariant
                            i <= keys@.len(),
                            t@ == t0[name],
                            keys@.to_set() == t@.dom(),
                            versions == sum_versions_in(keys@.take(i as int), t@, start),
                        decreases keys.len() - i,
                    {
                        let k = keys[i];
                        proof {
                            assert(keys@.to_set().contains(k));
                            assert(keys@.take(i + 1).drop_last() =~= keys@.take(i as int));
                            assert(keys@.take(i + 1).last() == k);
                        }
                        let n = match t.get(&k) {
                            Some(rec) => rec.versions.len(),
                            None => 0,
                        };
                        versions = versions.wrapping_add(n);
                        i = i + 1;
                    }
                    proof {
                        assert(keys@.take(i as int) =~= keys@);
                        let prev = kss;
                        kss = kss.push(keys@);
                        assert(kss.drop_last() =~= prev);
                        assert(kss.last() == keys@);
                        assert(ns.take(j + 1).len() == kss.len());
                    }
                    store_put(&mut self.version_store, name_string(names[j].as_str()), t);
                    proof {
                        assert(self.tables() =~= t0);
                    }
                },
                None => {
                    proof {
                        assert(false);
                    }
                },
            }
            j = j + 1;
        }
        proof {
            assert(ns.take(j as int) =~= ns);
        }
        MvccCounts { active_snapshots: self.active_snapshots.len(), total_records: records, total_versions: versions }
    }
}

} // verus!
