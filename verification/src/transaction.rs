//! Transactions, the transaction manager, and the table lock manager.
//!
//! A transaction moves from `Active` to `Committed` or `Aborted`, once. The
//! lock manager grants shared locks to any number of transactions and an
//! exclusive lock to one, per resource.

use vstd::prelude::*;
use std::collections::HashMap;
use dashmap::DashMap;
use crate::types::{Result, TransactionId, VelociError};
use crate::text::{str_eq, string_of, chars_of};

verus! {

broadcast use vstd::std_specs::hash::group_hash_axioms;

/// The state of a transaction.
#[derive(Debug, Clone, Copy, PartialEq, Eq, Structural)]
pub enum TransactionState {
    Active,
    Committed,
    Aborted,
}

/// The state that a stored state number names: 0 is active, 1 committed,
/// anything else aborted.
pub open spec fn state_of_u8(value: u8) -> TransactionState {
    if value == 0 {
        TransactionState::Active
    } else if value == 1 {
        TransactionState::Committed
    } else {
        TransactionState::Aborted
    }
}

impl From<u8> for TransactionState {
    fn from(value: u8) -> (r: TransactionState) {
        if value == 0 {
            TransactionState::Active
        } else if value == 1 {
            TransactionState::Committed
        } else {
            TransactionState::Aborted
        }
    }
}

impl vstd::std_specs::convert::FromSpecImpl<u8> for TransactionState {
    open spec fn obeys_from_spec() -> bool {
        true
    }

    open spec fn from_spec(value: u8) -> TransactionState {
        state_of_u8(value)
    }
}

/// A transaction: its number and its state.
#[derive(Debug, Clone, Copy)]
pub struct Transaction {
    id: TransactionId,
    state: TransactionState,
}

impl Transaction {
    /// The number of the transaction.
    pub closed spec fn spec_id(&self) -> TransactionId {
        self.id
    }

    /// The state of the transaction.
    pub closed spec fn spec_state(&self) -> TransactionState {
        self.state
    }

    /// A new active transaction.
    pub fn new(id: TransactionId) -> (t: Transaction)
        ensures
            t.spec_id() == id,
            t.spec_state() == TransactionState::Active,
    {
        Transaction { id, state: TransactionState::Active }
    }

    /// The transaction's number.
    pub fn id(&self) -> (id: TransactionId)
        ensures
            id == self.spec_id(),
    {
        self.id
    }

    /// The transaction's state.
    pub fn state(&self) -> (s: TransactionState)
        ensures
            s == self.spec_state(),
    {
        self.state
    }

    /// Commits an active transaction; `TransactionError`, with the state
    /// unchanged, when it is not active.
    pub fn commit(&mut self) -> (r: Result<()>)
        ensures
            final(self).spec_id() == old(self).spec_id(),
            old(self).spec_state() == TransactionState::Active ==> (r is Ok && final(self).spec_state()
                == TransactionState::Committed),
            old(self).spec_state() != TransactionState::Active ==> (r matches Err(
                VelociError::TransactionError(_),
            ) && final(self).spec_state() == old(self).spec_state()),
    {
        match self.state {
            TransactionState::Active => {
                self.state = TransactionState::Committed;
                Ok(())
            },
            _ => Err(VelociError::TransactionError(String::from_str("Transaction is not active"))),
        }
    }

    /// Aborts an active transaction; `TransactionError`, with the state
    /// unchanged, when it is not active.
    pub fn abort(&mut self) -> (r: Result<()>)
        ensures
            final(self).spec_id() == old(self).spec_id(),
            old(self).spec_state() == TransactionState::Active ==> (r is Ok && final(self).spec_state()
                == TransactionState::Aborted),
            old(self).spec_state() != TransactionState::Active ==> (r matches Err(
                VelociError::TransactionError(_),
            ) && final(self).spec_state() == old(self).spec_state()),
    {
        match self.state {
            TransactionState::Active => {
                self.state = TransactionState::Aborted;
                Ok(())
            },
            _ => Err(VelociError::TransactionError(String::from_str("Transaction is not active"))),
        }
    }
}

/// Hands out transaction numbers and keeps the active transactions.
pub struct TransactionManager {
    next_txn_id: u64,
    active_transactions: HashMap<TransactionId, Transaction>,
}

impl TransactionManager {
    /// The number the next transaction gets.
    pub closed spec fn next_id(&self) -> u64 {
        self.next_txn_id
    }

    /// The active transactions, by number.
    pub closed spec fn active(&self) -> Map<TransactionId, Transaction> {
        self.active_transactions@
    }

    /// A manager whose first transaction is number 1.
    pub fn new() -> (m: TransactionManager)
        ensures
            m.next_id() == 1,
            m.active() == Map::<TransactionId, Transaction>::empty(),
    {
        TransactionManager { next_txn_id: 1, active_transactions: HashMap::new() }
    }

    /// Starts a transaction with the next number (numbers wrap around after
    /// `u64::MAX`) and records it as active.
    pub fn begin(&mut self) -> (t: Transaction)
        ensures
            t.spec_id() == old(self).next_id(),
            t.spec_state() == TransactionState::Active,
            final(self).next_id() == (if old(self).next_id() == u64::MAX { 0 } else { old(self).next_id() + 1 }),
            final(self).active() == old(self).active().insert(t.spec_id(), t),
    {
        let txn_id = self.next_txn_id;
        self.next_txn_id = self.next_txn_id.wrapping_add(1);
        let txn = Transaction::new(txn_id);
        self.active_transactions.insert(txn_id, txn);
        txn
    }

    /// Commits `txn` and forgets it; when it was not active, the error of
    /// [`Transaction::commit`] and nothing changes.
    pub fn commit(&mut self, txn: &mut Transaction) -> (r: Result<()>)
        ensures
            final(txn).spec_id() == old(txn).spec_id(),
            old(txn).spec_state() == TransactionState::Active ==> r is Ok && final(txn).spec_state()
                == TransactionState::Committed && final(self).active() == old(self).active().remove(
                old(txn).spec_id(),
            ),
            old(txn).spec_state() != TransactionState::Active ==> (r matches Err(
                VelociError::TransactionError(_),
            ) && final(txn).spec_state() == old(txn).spec_state() && final(self).active() == old(
                self,
            ).active()),
            final(self).next_id() == old(self).next_id(),
    {
        match txn.commit() {
            Ok(()) => {},
            Err(e) => return Err(e),
        }
        let id = txn.id();
        self.active_transactions.remove(&id);
        Ok(())
    }

    /// Aborts `txn` and forgets it; when it was not active, the error of
    /// [`Transaction::abort`] and nothing changes.
    pub fn abort(&mut self, txn: &mut Transaction) -> (r: Result<()>)
        ensures
            final(txn).spec_id() == old(txn).spec_id(),
            old(txn).spec_state() == TransactionState::Active ==> r is Ok && final(txn).spec_state()
                == TransactionState::Aborted && final(self).active() == old(self).active().remove(
                old(txn).spec_id(),
            ),
            old(txn).spec_state() != TransactionState::Active ==> (r matches Err(
                VelociError::TransactionError(_),
            ) && final(txn).spec_state() == old(txn).spec_state() && final(self).active() == old(
                self,
            ).active()),
            final(self).next_id() == old(self).next_id(),
    {
        match txn.abort() {
            Ok(()) => {},
            Err(e) => return Err(e),
        }
        let id = txn.id();
        self.active_transactions.remove(&id);
        Ok(())
    }

    /// The active transaction with number `txn_id`, if there is one.
    pub fn get_transaction(&self, txn_id: TransactionId) -> (r: Option<Transaction>)
        ensures
            match r {
                Some(t) => self.active().contains_key(txn_id) && self.active()[txn_id] == t,
                None => !self.active().contains_key(txn_id),
            },
    {
        match self.active_transactions.get(&txn_id) {
            Some(t) => Some(*t),
            None => None,
        }
    }

    /// The number of active transactions.
    pub fn active_count(&self) -> (n: usize)
        ensures
            n == self.active().len(),
    {
        self.active_transactions.len()
    }
}

// ---------------------------------------------------------------------------
// Locks

/// The kind of a lock.
#[derive(Debug, Clone, Copy, PartialEq, Eq, Structural)]
pub enum LockType {
    Shared,
    Exclusive,
}

/// A lock held by a transaction.
#[derive(Debug, Clone, Copy)]
pub struct LockEntry {
    pub txn_id: TransactionId,
    pub lock_type: LockType,
}

/// The concurrent map of the dashmap crate.
#[verifier::external_type_specification]
#[verifier::external_body]
#[verifier::reject_recursive_types(K)]
#[verifier::reject_recursive_types(V)]
#[verifier::reject_recursive_types(S)]
pub struct ExDashMap<K, V, S>(dashmap::DashMap<K, V, S>);

/// A table of locks: a concurrent map from resource names to the locks on
/// them.
pub type LockTable = DashMap<String, Vec<LockEntry>>;

/// The locks that a lock table holds, by resource name.
pub uninterp spec fn lock_table(m: LockTable) -> Map<Seq<char>, Seq<LockEntry>>;

/// A table without locks.
pub open spec fn no_locks() -> Map<Seq<char>, Seq<LockEntry>> {
    Map::empty()
}

/// `DashMap::new`: an empty table.
#[verifier::external_body]
fn lock_table_new() -> (r: LockTable)
    ensures
        lock_table(r) == no_locks(),
{
    DashMap::new()
}

/// `DashMap::get`, with the entries copied out: the locks of `resource`,
/// if the table has an entry for it.
#[verifier::external_body]
fn lock_table_get(m: &DashMap<String, Vec<LockEntry>>, resource: &str) -> (r: Option<Vec<LockEntry>>)
    ensures
        match r {
            Some(v) => lock_table(*m).contains_key(resource@) && lock_table(*m)[resource@] == v@,
            None => !lock_table(*m).contains_key(resource@),
        },
{
    match m.get(resource) {
        Some(entry) => Some(entry.value().clone()),
        None => None,
    }
}

/// `DashMap::insert`: the entry of `resource` becomes `v`.
#[verifier::external_body]
fn lock_table_insert(m: &mut DashMap<String, Vec<LockEntry>>, resource: String, v: Vec<LockEntry>)
    ensures
        lock_table(*final(m)) == lock_table(*old(m)).insert(resource@, v@),
{
    m.insert(resource, v);
}

/// `DashMap::remove`: the entry of `resource` goes.
#[verifier::external_body]
fn lock_table_remove(m: &mut DashMap<String, Vec<LockEntry>>, resource: &str)
    ensures
        lock_table(*final(m)) == lock_table(*old(m)).remove(resource@),
{
    m.remove(resource);
}

/// The names in the table, each once, in the map's own order (which is not
/// stated).
#[verifier::external_body]
fn lock_table_keys(m: &LockTable) -> (ks: Vec<String>)
    ensures
        ks@.map_values(|k: String| k@).to_set() == lock_table(*m).dom(),
        ks@.map_values(|k: String| k@).no_duplicates(),
{
    let mut keys = Vec::new();
    for entry in m.iter() {
        keys.push(entry.key().clone());
    }
    keys
}

/// What a lock request decides.
pub enum LockDecision {
    /// The lock is granted; the resource's locks become these.
    Granted(Seq<LockEntry>),
    /// The transaction already holds this kind of lock.
    Held,
    /// Another transaction's lock conflicts with the request.
    Conflict,
    /// The transaction holds an exclusive lock and asks for a shared one.
    Downgrade,
}

/// The locks `es` without those of `txn`.
pub open spec fn without_txn(es: Seq<LockEntry>, txn: TransactionId) -> Seq<LockEntry> {
    es.filter(|e: LockEntry| e.txn_id != txn)
}

/// The decision on a request by `txn` for a lock of kind `lt`, reading the
/// held locks `es` in order from `i`: the first lock of `txn` decides
/// (an upgrade from shared to exclusive drops its locks and is granted
/// without reading further); a lock of another transaction conflicts unless
/// both are shared; a request that meets neither is granted.
pub open spec fn lock_decision(es: Seq<LockEntry>, i: int, txn: TransactionId, lt: LockType) -> LockDecision
    decreases es.len() - i,
{
    if i < 0 || i >= es.len() {
        LockDecision::Granted(es.push(LockEntry { txn_id: txn, lock_type: lt }))
    } else if es[i].txn_id == txn {
        match (es[i].lock_type, lt) {
            (LockType::Shared, LockType::Exclusive) => LockDecision::Granted(
                without_txn(es, txn).push(LockEntry { txn_id: txn, lock_type: lt }),
            ),
            (LockType::Exclusive, LockType::Shared) => LockDecision::Downgrade,
            _ => LockDecision::Held,
        }
    } else if lt == LockType::Shared && es[i].lock_type == LockType::Shared {
        lock_decision(es, i + 1, txn, lt)
    } else {
        LockDecision::Conflict
    }
}

proof fn lemma_lock_decision_others(es: Seq<LockEntry>, i: int, txn: TransactionId, lt: LockType)
    requires
        0 <= i <= es.len(),
        forall|j: int| 0 <= j < es.len() ==> (#[trigger] es[j]).txn_id != txn,
    ensures
        lock_decision(es, i, txn, lt) is Conflict <==> (i < es.len() && (lt == LockType::Exclusive
            || exists|j: int| i <= j < es.len() && (#[trigger] es[j]).lock_type == LockType::Exclusive)),
        !(lock_decision(es, i, txn, lt) is Conflict) ==> lock_decision(es, i, txn, lt) == LockDecision::Granted(
            es.push(LockEntry { txn_id: txn, lock_type: lt }),
        ),
    decreases es.len() - i,
{
    if i < es.len() {
        assert(es[i].txn_id != txn);
        if lt == LockType::Shared && es[i].lock_type == LockType::Shared {
            lemma_lock_decision_others(es, i + 1, txn, lt);
            if exists|j: int| i <= j < es.len() && (#[trigger] es[j]).lock_type == LockType::Exclusive {
                let j = choose|j: int| i <= j < es.len() && (#[trigger] es[j]).lock_type == LockType::Exclusive;
                assert(j != i);
            }
        }
    }
}

/// Shared locks are compatible and an exclusive lock excludes: a request by
/// a transaction that holds no lock on the resource conflicts exactly when
/// the resource is locked and the request, or a held lock, is exclusive;
/// otherwise it is granted and added.
pub proof fn law_lock_compatibility(es: Seq<LockEntry>, txn: TransactionId, lt: LockType)
    requires
        forall|j: int| 0 <= j < es.len() ==> (#[trigger] es[j]).txn_id != txn,
    ensures
        lock_decision(es, 0, txn, lt) is Conflict <==> (es.len() > 0 && (lt == LockType::Exclusive
            || exists|j: int| 0 <= j < es.len() && (#[trigger] es[j]).lock_type == LockType::Exclusive)),
        !(lock_decision(es, 0, txn, lt) is Conflict) ==> lock_decision(es, 0, txn, lt) == LockDecision::Granted(
            es.push(LockEntry { txn_id: txn, lock_type: lt }),
        ),
{
    lemma_lock_decision_others(es, 0, txn, lt);
}

/// The locks a resource has in a table: none when it has no entry.
pub open spec fn locks_of(t: Map<Seq<char>, Seq<LockEntry>>, resource: Seq<char>) -> Seq<LockEntry> {
    if t.contains_key(resource) { t[resource] } else { Seq::empty() }
}

proof fn lemma_without_txn_step(es: Seq<LockEntry>, j: int, txn: TransactionId)
    requires
        0 <= j < es.len(),
    ensures
        without_txn(es.take(j + 1), txn) == (if es[j].txn_id != txn {
            without_txn(es.take(j), txn).push(es[j])
        } else {
            without_txn(es.take(j), txn)
        }),
{
    reveal(Seq::filter);
    let p = |e: LockEntry| e.txn_id != txn;
    let t = es.take(j + 1);
    assert(t.drop_last() =~= es.take(j));
    assert(t.last() == es[j]);
    assert(t.len() > 0);
    assert(t.filter(p) == (if p(t.last()) { t.drop_last().filter(p).push(t.last()) } else { t.drop_last().filter(p) }));
}

/// Per-resource locks of transactions.
pub struct LockManager {
    locks: LockTable,
}

impl LockManager {
    /// The locks, by resource name.
    pub closed spec fn table(&self) -> Map<Seq<char>, Seq<LockEntry>> {
        lock_table(self.locks)
    }

    /// A manager with no locks.
    pub fn new() -> (m: LockManager)
        ensures
            m.table() == Map::<Seq<char>, Seq<LockEntry>>::empty(),
    {
        LockManager { locks: lock_table_new() }
    }

    /// One attempt to lock `resource` for `txn`. The resource gets an
    /// entry (empty when it had none) whatever the decision; a granted
    /// request records the new locks. `Busy` on a conflict,
    /// `ConstraintViolation` on a downgrade.
    pub fn try_acquire_lock_once(&mut self, resource: &str, txn_id: TransactionId, lock_type: LockType) -> (r: Result<()>)
        ensures
            match lock_decision(locks_of(old(self).table(), resource@), 0, txn_id, lock_type) {
                LockDecision::Granted(es) => r is Ok && final(self).table() == old(self).table().insert(resource@, es),
                LockDecision::Held => r is Ok && final(self).table() == old(self).table().insert(
                    resource@,
                    locks_of(old(self).table(), resource@),
                ),
                LockDecision::Conflict => r matches Err(VelociError::Busy) && final(self).table()
                    == old(self).table().insert(resource@, locks_of(old(self).table(), resource@)),
                LockDecision::Downgrade => r matches Err(VelociError::ConstraintViolation(_))
                    && final(self).table() == old(self).table().insert(
                    resource@,
                    locks_of(old(self).table(), resource@),
                ),
            },
    {
        let entries = match lock_table_get(&self.locks, resource) {
            Some(v) => v,
            None => Vec::new(),
        };
        let ghost es = entries@;
        let key = string_of(chars_of(resource).as_slice());
        let mut i: usize = 0;
        while i < entries.len()
            invariant
                i <= entries@.len(),
                es == entries@,
                es == locks_of(lock_table(self.locks), resource@),
                lock_table(self.locks) == old(self).table(),
                key@ == resource@,
                lock_decision(es, 0, txn_id, lock_type) == lock_decision(es, i as int, txn_id, lock_type),
            decreases entries.len() - i,
        {
            let existing = entries[i];
            if existing.txn_id == txn_id {
                match (existing.lock_type, lock_type) {
                    (LockType::Shared, LockType::Exclusive) => {
                        let mut kept: Vec<LockEntry> = Vec::new();
                        let mut j: usize = 0;
                        while j < entries.len()
                            invariant
                                j <= entries@.len(),
                                es == entries@,
                                kept@ == without_txn(es.take(j as int), txn_id),
                            decreases entries.len() - j,
                        {
                            proof {
                                lemma_without_txn_step(es, j as int, txn_id);
                            }
                            if entries[j].txn_id != txn_id {
                                kept.push(entries[j]);
                            }
                            j = j + 1;
                        }
                        proof {
                            assert(es.take(j as int) =~= es);
                        }
                        kept.push(LockEntry { txn_id, lock_type });
                        lock_table_insert(&mut self.locks, key, kept);
                        return Ok(());
                    },
                    (LockType::Exclusive, LockType::Shared) => {
                        lock_table_insert(&mut self.locks, key, entries);
                        return Err(VelociError::ConstraintViolation(String::from_str("Cannot downgrade exclusive lock to shared")));
                    },
                    _ => {
                        lock_table_insert(&mut self.locks, key, entries);
                        return Ok(());
                    },
                }
            } else {
                match (lock_type, existing.lock_type) {
                    (LockType::Shared, LockType::Shared) => {},
                    _ => {
                        lock_table_insert(&mut self.locks, key, entries);
                        return Err(VelociError::Busy);
                    },
                }
            }
            i = i + 1;
        }
        let mut entries = entries;
        entries.push(LockEntry { txn_id, lock_type });
        lock_table_insert(&mut self.locks, key, entries);
        Ok(())
    }

    /// Releases the locks of `txn_id` on `resource`; the resource's entry
    /// goes when no lock is left. Always `Ok`.
    pub fn release_lock(&mut self, resource: &str, txn_id: TransactionId) -> (r: Result<()>)
        ensures
            r is Ok,
            final(self).table() == (if old(self).table().contains_key(resource@) {
                let kept = without_txn(old(self).table()[resource@], txn_id);
                if kept.len() == 0 {
                    old(self).table().remove(resource@)
                } else {
                    old(self).table().insert(resource@, kept)
                }
            } else {
                old(self).table()
            }),
    {
        match lock_table_get(&self.locks, resource) {
            Some(entries) => {
                let ghost es = entries@;
                let mut kept: Vec<LockEntry> = Vec::new();
                let mut j: usize = 0;
                while j < entries.len()
                    invariant
                        j <= entries@.len(),
                        es == entries@,
                        kept@ == without_txn(es.take(j as int), txn_id),
                    decreases entries.len() - j,
                {
                    proof {
                        lemma_without_txn_step(es, j as int, txn_id);
                    }
                    if entries[j].txn_id != txn_id {
                        kept.push(entries[j]);
                    }
                    j = j + 1;
                }
                proof {
                    assert(es.take(j as int) =~= es);
                }
                if kept.len() == 0 {
                    lock_table_remove(&mut self.locks, resource);
                } else {
                    let key = string_of(chars_of(resource).as_slice());
                    lock_table_insert(&mut self.locks, key, kept);
                }
            },
            None => {},
        }
        Ok(())
    }

    /// Releases every lock of `txn_id`.
    pub fn release_all_locks(&mut self, txn_id: TransactionId)
        ensures
            final(self).table().dom().subset_of(old(self).table().dom()),
            forall|k: Seq<char>| #[trigger] final(self).table().contains_key(k) ==> final(self).table()[k]
                == without_txn(old(self).table()[k], txn_id) && final(self).table()[k].len() > 0,
            forall|k: Seq<char>| old(self).table().contains_key(k) && !(#[trigger] final(self).table().contains_key(k))
                ==> without_txn(old(self).table()[k], txn_id).len() == 0,
    {
        let keys = lock_table_keys(&self.locks);
        let ghost ks = keys@.map_values(|k: String| k@);
        let ghost t0 = self.table();
        let mut i: usize = 0;
        while i < keys.len()
            invariant
                i <= keys@.len(),
                ks == keys@.map_values(|k: String| k@),
                ks.to_set() == t0.dom(),
                ks.no_duplicates(),
                self.table().dom().subset_of(t0.dom()),
                forall|k: Seq<char>| #[trigger] self.table().contains_key(k) && !ks.take(i as int).contains(k)
                    ==> self.table()[k] == t0[k],
                forall|k: Seq<char>| #[trigger] self.table().contains_key(k) && ks.take(i as int).contains(k)
                    ==> self.table()[k] == without_txn(t0[k], txn_id) && self.table()[k].len() > 0,
                forall|k: Seq<char>| t0.contains_key(k) && ks.take(i as int).contains(k) && !(
                #[trigger] self.table().contains_key(k)) ==> without_txn(t0[k], txn_id).len() == 0,
                forall|k: Seq<char>| t0.contains_key(k) && !ks.take(i as int).contains(k) ==> #[trigger] self.table().contains_key(k),
            decreases keys.len() - i,
        {
            proof {
                assert(ks[i as int] == keys@[i as int]@);
                assert(ks.take(i + 1) =~= ks.take(i as int).push(ks[i as int]));
                assert(ks.contains(ks[i as int]));
                assert(!ks.take(i as int).contains(ks[i as int])) by {
                    if ks.take(i as int).contains(ks[i as int]) {
                        let j = choose|j: int| 0 <= j < i && ks.take(i as int)[j] == ks[i as int];
                        assert(ks[j] == ks[i as int]);
                    }
                }
            }
            let ghost before = self.table();
            self.release_lock(keys[i].as_str(), txn_id);
            proof {
                let k0 = ks[i as int];
                assert forall|k: Seq<char>| k != k0 implies (#[trigger] self.table().contains_key(k)
                    == before.contains_key(k) && (before.contains_key(k) ==> self.table()[k] == before[k])) by {
                    if before.contains_key(k0) {
                        let kept = without_txn(before[k0], txn_id);
                        if kept.len() == 0 {
                            assert(self.table() == before.remove(k0));
                        } else {
                            assert(self.table() == before.insert(k0, kept));
                        }
                    }
                }
                assert forall|k: Seq<char>| t0.contains_key(k) && !ks.take(i + 1).contains(k) implies #[trigger] self.table().contains_key(k) by {
                    if k == k0 {
                        assert(ks.take(i + 1)[i as int] == k0);
                    }
                    assert(!ks.take(i as int).contains(k)) by {
                        if ks.take(i as int).contains(k) {
                            let m = choose|m: int| 0 <= m < i && #[trigger] ks.take(i as int)[m] == k;
                            assert(ks.take(i + 1)[m] == k);
                        }
                    }
                }
                assert forall|k: Seq<char>| #[trigger] self.table().contains_key(k) && !ks.take(i + 1).contains(k)
                    implies self.table()[k] == t0[k] by {
                    if k == k0 {
                        assert(ks.take(i + 1)[i as int] == k0);
                    }
                    assert(!ks.take(i as int).contains(k)) by {
                        if ks.take(i as int).contains(k) {
                            let m = choose|m: int| 0 <= m < i && #[trigger] ks.take(i as int)[m] == k;
                            assert(ks.take(i + 1)[m] == k);
                        }
                    }
                }
                assert forall|k: Seq<char>| #[trigger] self.table().contains_key(k) && ks.take(i + 1).contains(k)
                    implies self.table()[k] == without_txn(t0[k], txn_id) && self.table()[k].len() > 0 by {
                    if k != k0 {
                        let m = choose|m: int| 0 <= m < i + 1 && #[trigger] ks.take(i + 1)[m] == k;
                        assert(m != i);
                        assert(ks.take(i as int)[m] == k);
                    } else {
                        assert(before.contains_key(k0));
                        assert(before[k0] == t0[k0]);
                    }
                }
                assert forall|k: Seq<char>| t0.contains_key(k) && ks.take(i + 1).contains(k) && !(
                    #[trigger] self.table().contains_key(k)) implies without_txn(t0[k], txn_id).len() == 0 by {
                    if k != k0 {
                        let m = choose|m: int| 0 <= m < i + 1 && #[trigger] ks.take(i + 1)[m] == k;
                        assert(m != i);
                        assert(ks.take(i as int)[m] == k);
                    } else {
                        assert(before.contains_key(k0));
                        assert(before[k0] == t0[k0]);
                    }
                }
            }
            i = i + 1;
        }
        proof {
            assert(ks.take(i as int) =~= ks);
            assert forall|k: Seq<char>| #[trigger] self.table().contains_key(k) implies ks.take(i as int).contains(k) by {
                assert(t0.dom().contains(k));
                assert(ks.to_set().contains(k));
            }
            assert forall|k: Seq<char>| old(self).table().contains_key(k) && !(#[trigger] self.table().contains_key(k))
                implies ks.take(i as int).contains(k) by {
                assert(ks.to_set().contains(k));
            }
        }
    }

    /// Whether `txn_id` holds a lock on any resource.
    pub fn has_locks(&self, txn_id: TransactionId) -> (b: bool)
        ensures
            b == exists|k: Seq<char>, j: int| #[trigger] self.table().contains_key(k) && 0 <= j < self.table()[k].len()
                && #[trigger] self.table()[k][j].txn_id == txn_id,
    {
        let keys = lock_table_keys(&self.locks);
        let ghost ks = keys@.map_values(|k: String| k@);
        let mut i: usize = 0;
        while i < keys.len()
            invariant
                i <= keys@.len(),
                ks == keys@.map_values(|k: String| k@),
                ks.to_set() == self.table().dom(),
                forall|m: int, j: int| 0 <= m < i && 0 <= j < self.table()[ks[m]].len() ==> #[trigger] self.table()[ks[m]][j].txn_id != txn_id,
            decreases keys.len() - i,
        {
            proof {
                assert(ks[i as int] == keys@[i as int]@);
                assert(ks.to_set().contains(ks[i as int]));
                assert(self.table().dom().contains(ks[i as int]));
            }
            match lock_table_get(&self.locks, keys[i].as_str()) {
                Some(entries) => {
                    let mut j: usize = 0;
                    while j < entries.len()
                        invariant
                            j <= entries@.len(),
                            0 <= i < ks.len(),
                            self.table().contains_key(ks[i as int]),
                            entries@ == self.table()[ks[i as int]],
                            forall|m: int| 0 <= m < j ==> entries@[m].txn_id != txn_id,
                        decreases entries.len() - j,
                    {
                        if entries[j].txn_id == txn_id {
                            proof {
                                assert(self.table().contains_key(ks[i as int]));
                                assert(self.table()[ks[i as int]][j as int].txn_id == txn_id);
                            }
                            return true;
                        }
                        j = j + 1;
                    }
                },
                None => {},
            }
            i = i + 1;
        }
        proof {
            assert forall|k: Seq<char>, j: int| #[trigger] self.table().contains_key(k) && 0 <= j < self.table()[k].len()
                implies #[trigger] self.table()[k][j].txn_id != txn_id by {
                assert(ks.to_set().contains(k));
                let m = choose|m: int| 0 <= m < ks.len() && ks[m] == k;
                assert(ks[m] == k);
            }
        }
        false
    }
}

/// How long a lock request waits by default before it gives up: 30 seconds,
/// in microseconds.
pub const LOCK_TIMEOUT_MICROS: u64 = 30000000;

/// The next move of a lock request that retries until a timeout.
#[derive(Debug)]
pub enum LockWait {
    /// The lock was granted.
    Granted,
    /// The resource is busy: sleep this long, then try again.
    Retry { sleep_micros: u64 },
    /// The resource stayed busy past the timeout.
    TimedOut,
    /// The attempt failed for another reason, which is reported.
    Failed(VelociError),
}

/// The back-off before the next attempt, `elapsed_micros` into the wait:
/// a tenth of the elapsed milliseconds, in microseconds, at most 100.
pub open spec fn backoff_micros(elapsed_micros: u64) -> u64 {
    if elapsed_micros / 10000 < 100 { (elapsed_micros / 10000) as u64 } else { 100 }
}

/// Decides what a lock request does after one attempt, made
/// `elapsed_micros` after the request began: a granted lock ends the wait;
/// a busy resource is retried after a back-off until the elapsed time
/// exceeds `timeout_micros`; any other error ends the wait with that error.
pub fn lock_wait_step(attempt: Result<()>, elapsed_micros: u64, timeout_micros: u64) -> (w: LockWait)
    ensures
        attempt is Ok ==> w is Granted,
        attempt matches Err(VelociError::Busy) && elapsed_micros > timeout_micros ==> w is TimedOut,
        attempt matches Err(VelociError::Busy) && elapsed_micros <= timeout_micros ==> w == (LockWait::Retry {
            sleep_micros: backoff_micros(elapsed_micros),
        }),
        attempt matches Err(e) ==> (e is Busy || w == LockWait::Failed(e)),
{
    match attempt {
        Ok(()) => LockWait::Granted,
        Err(VelociError::Busy) => {
            if elapsed_micros > timeout_micros {
                LockWait::TimedOut
            } else {
                let ms_tenths = elapsed_micros / 10000;
                LockWait::Retry { sleep_micros: if ms_tenths < 100 { ms_tenths } else { 100 } }
            }
        },
        Err(e) => LockWait::Failed(e),
    }
}

} // verus!
