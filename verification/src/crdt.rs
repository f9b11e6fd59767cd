//! Conflict-free replicated records: last-write-wins by Lamport time, ties
//! broken by node name, with tombstones for deletes.

use vstd::prelude::*;
use std::collections::BTreeMap;
use crate::types::{Result, Value, ValueView, VelociError};
use crate::text::{chars_of, str_eq};

verus! {

broadcast use vstd::std_specs::btree::group_btree_axioms;

/// A Lamport time.
pub type LamportTimestamp = u64;

/// The name of a replica.
pub type NodeId = String;

/// A Lamport clock: the next time it hands out.
pub struct LamportClock {
    pub value: u64,
}

impl LamportClock {
    /// A clock whose first time is 1.
    pub fn new() -> (c: LamportClock)
        ensures
            c.value == 1,
    {
        LamportClock { value: 1 }
    }
}

/// Hands out the clock's time and advances it (wrapping after `u64::MAX`).
pub fn next_timestamp(clock: &mut LamportClock) -> (t: LamportTimestamp)
    ensures
        t == old(clock).value,
        final(clock).value == crate::lockfree::next_u64(old(clock).value),
{
    let t = clock.value;
    clock.value = clock.value.wrapping_add(1);
    t
}

/// Moves the clock past a received time: to one more than the later of the
/// two (wrapping after `u64::MAX`).
pub fn update_timestamp(clock: &mut LamportClock, received: LamportTimestamp)
    ensures
        final(clock).value == crate::lockfree::next_u64(if received > old(clock).value { received } else { old(clock).value }),
{
    let current = clock.value;
    let later = if received > current { received } else { current };
    clock.value = later.wrapping_add(1);
}

/// Whether `a` comes after `b` in the order of `String`: by code points,
/// a proper prefix first.
pub open spec fn text_after(a: Seq<char>, b: Seq<char>) -> bool
    decreases a.len(),
{
    if b.len() == 0 {
        a.len() > 0
    } else if a.len() == 0 {
        false
    } else if a[0] != b[0] {
        a[0] > b[0]
    } else {
        text_after(a.drop_first(), b.drop_first())
    }
}

/// Whether `a` comes after `b` as strings.
pub fn string_after(a: &str, b: &str) -> (r: bool)
    ensures
        r == text_after(a@, b@),
{
    let va = chars_of(a);
    let vb = chars_of(b);
    let mut i: usize = 0;
    assert(a@.skip(0) =~= a@);
    assert(b@.skip(0) =~= b@);
    while i < va.len() && i < vb.len()
        invariant
            i <= va@.len(),
            i <= vb@.len(),
            va@ == a@,
            vb@ == b@,
            text_after(a@, b@) == text_after(a@.skip(i as int), b@.skip(i as int)),
        decreases va.len() - i,
    {
        if va[i] != vb[i] {
            proof {
                assert(a@.skip(i as int)[0] == va@[i as int]);
                assert(b@.skip(i as int)[0] == vb@[i as int]);
            }
            return va[i] > vb[i];
        }
        proof {
            assert(a@.skip(i as int).drop_first() =~= a@.skip(i + 1));
            assert(b@.skip(i as int).drop_first() =~= b@.skip(i + 1));
        }
        i = i + 1;
    }
    i < va.len()
}

/// An operation on replicated state.
#[derive(Debug, Clone, PartialEq)]
pub enum CrdtOperation {
    Insert { table: String, key: i64, values: Vec<Value>, timestamp: LamportTimestamp, node_id: NodeId },
    Update { table: String, key: i64, values: Vec<Value>, timestamp: LamportTimestamp, node_id: NodeId },
    Delete { table: String, key: i64, timestamp: LamportTimestamp, node_id: NodeId },
}

/// The model of an operation.
pub enum OpView {
    Insert { table: Seq<char>, key: i64, values: Seq<ValueView>, timestamp: u64, node_id: Seq<char> },
    Update { table: Seq<char>, key: i64, values: Seq<ValueView>, timestamp: u64, node_id: Seq<char> },
    Delete { table: Seq<char>, key: i64, timestamp: u64, node_id: Seq<char> },
}

impl View for CrdtOperation {
    type V = OpView;

    open spec fn view(&self) -> OpView {
        match self {
            CrdtOperation::Insert { table, key, values, timestamp, node_id } => OpView::Insert {
                table: table@,
                key: *key,
                values: values.deep_view(),
                timestamp: *timestamp,
                node_id: node_id@,
            },
            CrdtOperation::Update { table, key, values, timestamp, node_id } => OpView::Update {
                table: table@,
                key: *key,
                values: values.deep_view(),
                timestamp: *timestamp,
                node_id: node_id@,
            },
            CrdtOperation::Delete { table, key, timestamp, node_id } => OpView::Delete {
                table: table@,
                key: *key,
                timestamp: *timestamp,
                node_id: node_id@,
            },
        }
    }
}

/// The time of an operation.
pub open spec fn op_time(op: OpView) -> u64 {
    match op {
        OpView::Insert { timestamp, .. } => timestamp,
        OpView::Update { timestamp, .. } => timestamp,
        OpView::Delete { timestamp, .. } => timestamp,
    }
}

/// The node of an operation.
pub open spec fn op_node(op: OpView) -> Seq<char> {
    match op {
        OpView::Insert { node_id, .. } => node_id,
        OpView::Update { node_id, .. } => node_id,
        OpView::Delete { node_id, .. } => node_id,
    }
}

/// The table of an operation.
pub open spec fn op_table(op: OpView) -> Seq<char> {
    match op {
        OpView::Insert { table, .. } => table,
        OpView::Update { table, .. } => table,
        OpView::Delete { table, .. } => table,
    }
}

/// A copy of `vs` with the same models.
fn copy_values(vs: &Vec<Value>) -> (c: Vec<Value>)
    ensures
        c.deep_view() == vs.deep_view(),
{
    let mut c: Vec<Value> = Vec::new();
    let mut i: usize = 0;
    while i < vs.len()
        invariant
            i <= vs@.len(),
            c.deep_view() == vs.deep_view().take(i as int),
        decreases vs.len() - i,
    {
        let ghost before = c.deep_view();
        c.push(vs[i].duplicate());
        proof {
            assert(c.deep_view() =~= before.push(vs@[i as int]@));
            assert(vs.deep_view().take(i + 1) =~= vs.deep_view().take(i as int).push(vs@[i as int]@));
        }
        i = i + 1;
    }
    assert(vs.deep_view().take(i as int) =~= vs.deep_view());
    c
}

impl CrdtOperation {
    /// The operation's time.
    pub fn timestamp(&self) -> (t: LamportTimestamp)
        ensures
            t == op_time(self@),
    {
        match self {
            CrdtOperation::Insert { timestamp, .. } => *timestamp,
            CrdtOperation::Update { timestamp, .. } => *timestamp,
            CrdtOperation::Delete { timestamp, .. } => *timestamp,
        }
    }

    /// The operation's node.
    pub fn node_id(&self) -> (n: &NodeId)
        ensures
            n@ == op_node(self@),
    {
        match self {
            CrdtOperation::Insert { node_id, .. } => node_id,
            CrdtOperation::Update { node_id, .. } => node_id,
            CrdtOperation::Delete { node_id, .. } => node_id,
        }
    }

    /// The operation's table.
    pub fn table(&self) -> (t: &str)
        ensures
            t@ == op_table(self@),
    {
        match self {
            CrdtOperation::Insert { table, .. } => table.as_str(),
            CrdtOperation::Update { table, .. } => table.as_str(),
            CrdtOperation::Delete { table, .. } => table.as_str(),
        }
    }

    /// A copy with the same model.
    pub fn copy(&self) -> (c: CrdtOperation)
        ensures
            c@ == self@,
    {
        match self {
            CrdtOperation::Insert { table, key, values, timestamp, node_id } => CrdtOperation::Insert {
                table: table.clone(),
                key: *key,
                values: copy_values(values),
                timestamp: *timestamp,
                node_id: node_id.clone(),
            },
            CrdtOperation::Update { table, key, values, timestamp, node_id } => CrdtOperation::Update {
                table: table.clone(),
                key: *key,
                values: copy_values(values),
                timestamp: *timestamp,
                node_id: node_id.clone(),
            },
            CrdtOperation::Delete { table, key, timestamp, node_id } => CrdtOperation::Delete {
                table: table.clone(),
                key: *key,
                timestamp: *timestamp,
                node_id: node_id.clone(),
            },
        }
    }
}

/// The replicated state of one record.
#[derive(Debug, Clone)]
pub struct CrdtRecord {
    pub key: i64,
    pub values: Vec<Value>,
    pub timestamp: LamportTimestamp,
    pub node_id: NodeId,
    pub is_deleted: bool,
}

/// The model of a record.
pub struct RecordView {
    pub key: i64,
    pub values: Seq<ValueView>,
    pub timestamp: u64,
    pub node_id: Seq<char>,
    pub is_deleted: bool,
}

impl View for CrdtRecord {
    type V = RecordView;

    open spec fn view(&self) -> RecordView {
        RecordView {
            key: self.key,
            values: self.values.deep_view(),
            timestamp: self.timestamp,
            node_id: self.node_id@,
            is_deleted: self.is_deleted,
        }
    }
}

/// Whether `b` wins over `a`: a later time, or the same time from a node
/// that comes later.
pub open spec fn wins(b: RecordView, a: RecordView) -> bool {
    b.timestamp > a.timestamp || (b.timestamp == a.timestamp && text_after(b.node_id, a.node_id))
}

/// Last-write-wins: `a` merged with `b` takes `b`'s state when `b` wins,
/// keeping its own key.
pub open spec fn lww(a: RecordView, b: RecordView) -> RecordView {
    if wins(b, a) {
        RecordView { key: a.key, values: b.values, timestamp: b.timestamp, node_id: b.node_id, is_deleted: b.is_deleted }
    } else {
        a
    }
}

/// A record after a delete at `ts` by `node`: a tombstone when the delete is
/// later than its time.
pub open spec fn tombstone(r: RecordView, ts: u64, node: Seq<char>) -> RecordView {
    if ts > r.timestamp {
        RecordView { is_deleted: true, timestamp: ts, node_id: node, ..r }
    } else {
        r
    }
}

impl CrdtRecord {
    /// A live record.
    pub fn new(key: i64, values: Vec<Value>, timestamp: LamportTimestamp, node_id: NodeId) -> (r: CrdtRecord)
        ensures
            r@ == (RecordView { key, values: values.deep_view(), timestamp, node_id: node_id@, is_deleted: false }),
    {
        CrdtRecord { key, values, timestamp, node_id, is_deleted: false }
    }

    /// Merges `other` in by last-write-wins; whether it won.
    pub fn merge(&mut self, other: &CrdtRecord) -> (changed: bool)
        ensures
            changed == wins(other@, old(self)@),
            final(self)@ == lww(old(self)@, other@),
    {
        if other.timestamp > self.timestamp {
            self.values = copy_values(&other.values);
            self.timestamp = other.timestamp;
            self.node_id = other.node_id.clone();
            self.is_deleted = other.is_deleted;
            true
        } else if other.timestamp == self.timestamp {
            if string_after(other.node_id.as_str(), self.node_id.as_str()) {
                self.values = copy_values(&other.values);
                self.node_id = other.node_id.clone();
                self.is_deleted = other.is_deleted;
                true
            } else {
                false
            }
        } else {
            false
        }
    }

    /// Marks the record deleted at `timestamp` by `node_id`, when that is
    /// later than its time.
    pub fn delete(&mut self, timestamp: LamportTimestamp, node_id: NodeId)
        ensures
            final(self)@ == tombstone(old(self)@, timestamp, node_id@),
    {
        if timestamp > self.timestamp {
            self.is_deleted = true;
            self.timestamp = timestamp;
            self.node_id = node_id;
        }
    }
}

/// Merging a record with itself changes nothing.
pub proof fn law_merge_idempotent(a: RecordView)
    ensures
        lww(a, a) == a,
        !wins(a, a),
{
    lemma_text_after_irreflexive(a.node_id);
}

/// Merging two records in either order gives the same state (all but the
/// key, which each side keeps), unless they carry the same time and node.
pub proof fn law_merge_commutative(a: RecordView, b: RecordView)
    requires
        !(a.timestamp == b.timestamp && a.node_id == b.node_id),
    ensures
        lww(a, b).values == lww(b, a).values,
        lww(a, b).timestamp == lww(b, a).timestamp,
        lww(a, b).node_id == lww(b, a).node_id,
        lww(a, b).is_deleted == lww(b, a).is_deleted,
{
    if a.timestamp == b.timestamp {
        lemma_text_after_total(a.node_id, b.node_id);
        lemma_text_after_asymmetric(a.node_id, b.node_id);
    }
}

/// Merging three records gives the same state however the merges are
/// grouped: the record with the latest time (ties broken by node), the first
/// of equals, under the first record's key.
pub proof fn law_merge_associative(a: RecordView, b: RecordView, c: RecordView)
    ensures
        lww(lww(a, b), c) == lww(a, lww(b, c)),
{
    lemma_text_after_total(a.node_id, b.node_id);
    lemma_text_after_total(b.node_id, c.node_id);
    lemma_text_after_total(a.node_id, c.node_id);
    lemma_text_after_asymmetric(a.node_id, b.node_id);
    lemma_text_after_asymmetric(b.node_id, c.node_id);
    lemma_text_after_asymmetric(a.node_id, c.node_id);
    lemma_text_after_irreflexive(a.node_id);
    lemma_text_after_irreflexive(b.node_id);
    if text_after(c.node_id, b.node_id) && text_after(b.node_id, a.node_id) {
        lemma_text_after_transitive(c.node_id, b.node_id, a.node_id);
    }
    if text_after(a.node_id, b.node_id) && text_after(b.node_id, c.node_id) {
        lemma_text_after_transitive(a.node_id, b.node_id, c.node_id);
    }
}

proof fn lemma_text_after_transitive(a: Seq<char>, b: Seq<char>, c: Seq<char>)
    requires
        text_after(a, b),
        text_after(b, c),
    ensures
        text_after(a, c),
    decreases a.len(),
{
    if c.len() > 0 {
        assert(b.len() > 0);
        assert(a.len() > 0);
        if a[0] == c[0] {
            assert(a[0] == b[0] && b[0] == c[0]);
            lemma_text_after_transitive(a.drop_first(), b.drop_first(), c.drop_first());
        }
    }
}

proof fn lemma_text_after_irreflexive(a: Seq<char>)
    ensures
        !text_after(a, a),
    decreases a.len(),
{
    if a.len() > 0 {
        lemma_text_after_irreflexive(a.drop_first());
    }
}

proof fn lemma_text_after_asymmetric(a: Seq<char>, b: Seq<char>)
    ensures
        !(text_after(a, b) && text_after(b, a)),
    decreases a.len(),
{
    if a.len() > 0 && b.len() > 0 && a[0] == b[0] {
        lemma_text_after_asymmetric(a.drop_first(), b.drop_first());
    }
}

proof fn lemma_text_after_total(a: Seq<char>, b: Seq<char>)
    ensures
        a != b ==> text_after(a, b) || text_after(b, a),
    decreases a.len(),
{
    if a.len() > 0 && b.len() > 0 && a[0] == b[0] {
        lemma_text_after_total(a.drop_first(), b.drop_first());
        if a.drop_first() == b.drop_first() {
            assert(a =~= seq![a[0]] + a.drop_first());
            assert(b =~= seq![b[0]] + b.drop_first());
        }
    } else if a.len() == 0 && b.len() == 0 {
        assert(a =~= b);
    }
}



// ---------------------------------------------------------------------------
// The store

/// A vector clock: times by node.
pub type VectorClock = Vec<(NodeId, LamportTimestamp)>;

/// Records by key, as models.
pub open spec fn records_view(m: Map<i64, CrdtRecord>) -> Map<i64, RecordView> {
    m.map_values(|r: CrdtRecord| r@)
}

/// Tables as models.
pub open spec fn tables_view(v: Seq<(String, BTreeMap<i64, CrdtRecord>)>) -> Seq<(Seq<char>, Map<i64, RecordView>)> {
    v.map_values(|t: (String, BTreeMap<i64, CrdtRecord>)| (t.0@, records_view(t.1@)))
}

/// The index of the first table named `name` from `i` on, or the length.
pub open spec fn table_index(ts: Seq<(Seq<char>, Map<i64, RecordView>)>, name: Seq<char>, i: int) -> int
    decreases ts.len() - i,
{
    if 0 <= i < ts.len() && ts[i].0 != name {
        table_index(ts, name, i + 1)
    } else {
        i
    }
}

/// The records of table `name`: none when absent.
pub open spec fn table_records(ts: Seq<(Seq<char>, Map<i64, RecordView>)>, name: Seq<char>) -> Map<i64, RecordView> {
    let i = table_index(ts, name, 0);
    if 0 <= i < ts.len() { ts[i].1 } else { Map::empty() }
}

/// The tables after table `name` gets the records `m` (added last when new).
pub open spec fn with_table(ts: Seq<(Seq<char>, Map<i64, RecordView>)>, name: Seq<char>, m: Map<i64, RecordView>) -> Seq<(Seq<char>, Map<i64, RecordView>)> {
    let i = table_index(ts, name, 0);
    if 0 <= i < ts.len() { ts.update(i, (name, m)) } else { ts.push((name, m)) }
}

/// The key of an operation.
pub open spec fn op_key(op: OpView) -> i64 {
    match op {
        OpView::Insert { key, .. } => key,
        OpView::Update { key, .. } => key,
        OpView::Delete { key, .. } => key,
    }
}

/// The record an operation writes: a live record with its values for an
/// insert or an update, a tombstone with no values for a delete.
pub open spec fn op_record(op: OpView) -> RecordView {
    match op {
        OpView::Insert { key, values, timestamp, node_id, .. } => RecordView { key, values, timestamp, node_id, is_deleted: false },
        OpView::Update { key, values, timestamp, node_id, .. } => RecordView { key, values, timestamp, node_id, is_deleted: false },
        OpView::Delete { key, timestamp, node_id, .. } => RecordView { key, values: Seq::empty(), timestamp, node_id, is_deleted: true },
    }
}

/// What applying an operation does: its record is merged by last-write-wins
/// into the record under its key, or stored when there is none. The table is
/// made when absent.
pub open spec fn apply_op(ts: Seq<(Seq<char>, Map<i64, RecordView>)>, op: OpView) -> Seq<(Seq<char>, Map<i64, RecordView>)> {
    with_table(ts, op_table(op), updated(table_records(ts, op_table(op)), op_key(op), op_record(op)))
}

proof fn lemma_table_index_at(ts: Seq<(Seq<char>, Map<i64, RecordView>)>, name: Seq<char>, i: int, r: int)
    requires
        0 <= i <= r <= ts.len(),
        forall|j: int| i <= j < r ==> ts[j].0 != name,
        r == ts.len() || ts[r].0 == name,
    ensures
        table_index(ts, name, i) == r,
    decreases r - i,
{
    if i < r {
        lemma_table_index_at(ts, name, i + 1, r);
    }
}

proof fn lemma_table_index_props(ts: Seq<(Seq<char>, Map<i64, RecordView>)>, name: Seq<char>, i: int)
    requires
        0 <= i <= ts.len(),
    ensures
        i <= table_index(ts, name, i) <= ts.len(),
        forall|j: int| i <= j < table_index(ts, name, i) ==> ts[j].0 != name,
        table_index(ts, name, i) < ts.len() ==> ts[table_index(ts, name, i)].0 == name,
    decreases ts.len() - i,
{
    if i < ts.len() && ts[i].0 != name {
        lemma_table_index_props(ts, name, i + 1);
    }
}

/// Giving table `n` the records `m` changes only what `n` holds.
proof fn lemma_with_table_records(ts: Seq<(Seq<char>, Map<i64, RecordView>)>, n: Seq<char>, m: Map<i64, RecordView>, name: Seq<char>)
    ensures
        table_records(with_table(ts, n, m), name) == if name == n { m } else { table_records(ts, name) },
{
    let t2 = with_table(ts, n, m);
    lemma_table_index_props(ts, n, 0);
    lemma_table_index_props(ts, name, 0);
    let i = table_index(ts, n, 0);
    let k = table_index(ts, name, 0);
    if i < ts.len() {
        assert forall|j: int| 0 <= j < t2.len() implies t2[j].0 == ts[j].0 by {}
        if name == n {
            lemma_table_index_at(t2, n, 0, i);
        } else {
            lemma_table_index_at(t2, name, 0, k);
            if k < ts.len() {
                assert(k != i);
            }
        }
    } else {
        if name == n {
            lemma_table_index_at(t2, n, 0, ts.len() as int);
        } else {
            if k < ts.len() {
                lemma_table_index_at(t2, name, 0, k);
            } else {
                lemma_table_index_at(t2, name, 0, t2.len() as int);
            }
        }
    }
}

/// The records of a table after `nr` is merged into record `key` by
/// last-write-wins, or stored there when it is absent.
pub open spec fn updated(m: Map<i64, RecordView>, key: i64, nr: RecordView) -> Map<i64, RecordView> {
    if m.contains_key(key) { m.insert(key, lww(m[key], nr)) } else { m.insert(key, nr) }
}

/// Two operations from different writers (a different time or node) leave
/// every table with the same records whichever is applied first.
pub proof fn law_ops_commute(ts: Seq<(Seq<char>, Map<i64, RecordView>)>, o1: OpView, o2: OpView, name: Seq<char>)
    requires
        !(op_time(o1) == op_time(o2) && op_node(o1) == op_node(o2)),
    ensures
        table_records(apply_op(apply_op(ts, o1), o2), name) == table_records(apply_op(apply_op(ts, o2), o1), name),
{
    let (t1, k1, n1) = (op_table(o1), op_key(o1), op_record(o1));
    let (t2, k2, n2) = (op_table(o2), op_key(o2), op_record(o2));
    let a1 = apply_op(ts, o1);
    let a2 = apply_op(ts, o2);
    lemma_with_table_records(ts, t1, updated(table_records(ts, t1), k1, n1), name);
    lemma_with_table_records(ts, t1, updated(table_records(ts, t1), k1, n1), t2);
    lemma_with_table_records(ts, t2, updated(table_records(ts, t2), k2, n2), name);
    lemma_with_table_records(ts, t2, updated(table_records(ts, t2), k2, n2), t1);
    lemma_with_table_records(a1, t2, updated(table_records(a1, t2), k2, n2), name);
    lemma_with_table_records(a2, t1, updated(table_records(a2, t1), k1, n1), name);
    if name == t1 && name == t2 {
        let r = table_records(ts, name);
        if k1 == k2 {
            law_merge_commutative(n1, n2);
            assert(lww(n1, n2) == lww(n2, n1));
            if r.contains_key(k1) {
                law_merge_associative(r[k1], n1, n2);
                law_merge_associative(r[k1], n2, n1);
            }
        }
        assert(updated(updated(r, k1, n1), k2, n2) =~= updated(updated(r, k2, n2), k1, n1));
    }
}

/// The times of a vector clock, for the node `node`: raised to `t`.
pub open spec fn clock_with(vc: Seq<(Seq<char>, u64)>, node: Seq<char>, t: u64) -> Seq<(Seq<char>, u64)>
    decreases vc.len(),
{
    if vc.len() == 0 {
        seq![(node, t)]
    } else if vc[0].0 == node {
        seq![(node, if t > vc[0].1 { t } else { vc[0].1 })] + vc.drop_first()
    } else {
        seq![vc[0]] + clock_with(vc.drop_first(), node, t)
    }
}

/// A vector clock as models.
pub open spec fn clock_view(vc: Seq<(String, u64)>) -> Seq<(Seq<char>, u64)> {
    vc.map_values(|e: (String, u64)| (e.0@, e.1))
}

/// Operations as models.
pub open spec fn ops_view(v: Seq<CrdtOperation>) -> Seq<OpView> {
    v.map_values(|o: CrdtOperation| o@)
}

/// Whether the log has an operation with the time and node of `op`.
pub open spec fn logged(log: Seq<OpView>, op: OpView) -> bool {
    exists|i: int| 0 <= i < log.len() && op_time(#[trigger] log[i]) == op_time(op) && op_node(log[i]) == op_node(op)
}

/// The least time of a vector clock, or 0 when it is empty.
pub open spec fn min_time(vc: Seq<(Seq<char>, u64)>) -> u64
    decreases vc.len(),
{
    if vc.len() == 0 {
        0
    } else if vc.len() == 1 {
        vc[0].1
    } else {
        let m = min_time(vc.drop_last());
        if vc.last().1 < m { vc.last().1 } else { m }
    }
}

/// The time a sync message starts from is the least time in the peer's
/// vector clock: no entry is earlier than it, it is one of the entries'
/// times when there is any, and 0 when there is none.
pub proof fn law_min_time_is_least(vc: Seq<(Seq<char>, u64)>)
    ensures
        forall|i: int| 0 <= i < vc.len() ==> min_time(vc) <= (#[trigger] vc[i]).1,
        vc.len() > 0 ==> exists|i: int| 0 <= i < vc.len() && min_time(vc) == (#[trigger] vc[i]).1,
        vc.len() == 0 ==> min_time(vc) == 0,
    decreases vc.len(),
{
    if vc.len() > 1 {
        let p = vc.drop_last();
        law_min_time_is_least(p);
        assert forall|i: int| 0 <= i < vc.len() implies min_time(vc) <= (#[trigger] vc[i]).1 by {
            if i < vc.len() - 1 {
                assert(vc[i] == p[i]);
            }
        }
        if vc.last().1 < min_time(p) {
            assert(min_time(vc) == vc[vc.len() - 1].1);
        } else {
            let i = choose|i: int| 0 <= i < p.len() && min_time(p) == (#[trigger] p[i]).1;
            assert(min_time(vc) == vc[i].1);
        }
    } else if vc.len() == 1 {
        assert(min_time(vc) == vc[0].1);
    }
}

/// The operations of `log` later than `t`, in order.
pub open spec fn ops_since(log: Seq<OpView>, t: u64) -> Seq<OpView> {
    log.filter(|o: OpView| op_time(o) > t)
}

/// The state a replica keeps: its records by table, its operation log, its
/// vector clock and its Lamport clock.
pub struct CrdtStore {
    node_id: NodeId,
    state: Vec<(String, BTreeMap<i64, CrdtRecord>)>,
    operation_log: Vec<CrdtOperation>,
    vector_clock: VectorClock,
    clock: LamportClock,
}

/// Statistics of a store.
#[derive(Debug, Clone)]
pub struct CrdtStats {
    pub node_id: NodeId,
    pub tables: usize,
    pub total_records: usize,
    pub deleted_records: usize,
    pub operation_log_size: usize,
    pub vector_clock_size: usize,
}

impl CrdtStore {
    /// The replica's name.
    pub closed spec fn node(&self) -> Seq<char> {
        self.node_id@
    }

    /// The records, by table.
    pub closed spec fn tables(&self) -> Seq<(Seq<char>, Map<i64, RecordView>)> {
        tables_view(self.state@)
    }

    /// The operation log, oldest first.
    pub closed spec fn log(&self) -> Seq<OpView> {
        ops_view(self.operation_log@)
    }

    /// The vector clock.
    pub closed spec fn vclock(&self) -> Seq<(Seq<char>, u64)> {
        clock_view(self.vector_clock@)
    }

    /// The next Lamport time.
    pub closed spec fn time(&self) -> u64 {
        self.clock.value
    }

    /// An empty store for node `node_id`, whose vector clock knows only
    /// itself, at 0.
    pub fn new(node_id: NodeId) -> (s: CrdtStore)
        ensures
            s.node() == node_id@,
            s.tables() == Seq::<(Seq<char>, Map<i64, RecordView>)>::empty(),
            s.log() == Seq::<OpView>::empty(),
            s.vclock() == seq![(node_id@, 0u64)],
            s.time() == 1,
    {
        let mut vector_clock: VectorClock = Vec::new();
        vector_clock.push((node_id.clone(), 0));
        let s = CrdtStore { node_id, state: Vec::new(), operation_log: Vec::new(), vector_clock, clock: LamportClock::new() };
        proof {
            assert(s.tables() =~= Seq::<(Seq<char>, Map<i64, RecordView>)>::empty());
            assert(s.log() =~= Seq::<OpView>::empty());
            assert(s.vclock() =~= seq![(s.node(), 0u64)]);
        }
        s
    }

    fn table_position(&self, name: &str) -> (r: Option<usize>)
        ensures
            match r {
                Some(i) => table_index(self.tables(), name@, 0) == i && i < self.tables().len(),
                None => table_index(self.tables(), name@, 0) >= self.tables().len(),
            },
    {
        let ghost ts = self.tables();
        let mut i: usize = 0;
        while i < self.state.len()
            invariant
                i <= self.state@.len(),
                ts == self.tables(),
                table_index(ts, name@, 0) == table_index(ts, name@, i as int),
            decreases self.state.len() - i,
        {
            if str_eq(self.state[i].0.as_str(), name) {
                assert(ts[i as int].0 == name@);
                return Some(i);
            }
            i = i + 1;
        }
        None
    }

    /// Takes out the records of table `name` (new, empty ones when absent),
    /// with where to put them back.
    fn take_table(&mut self, name: &str) -> (r: (usize, String, BTreeMap<i64, CrdtRecord>))
        ensures
            records_view(r.2@) == table_records(old(self).tables(), name@),
            r.1@ == name@,
            r.0 <= final(self).tables().len(),
            forall|x: Map<i64, RecordView>| #[trigger] with_table(old(self).tables(), name@, x) == final(self).tables().insert(r.0 as int, (name@, x)),
            final(self).node() == old(self).node(),
            final(self).log() == old(self).log(),
            final(self).vclock() == old(self).vclock(),
            final(self).time() == old(self).time(),
    {
        proof {
            lemma_table_index(self.tables(), name@, 0);
        }
        match self.table_position(name) {
            Some(i) => {
                let (n, m) = self.state.remove(i);
                proof {
                    assert(old(self).tables()[i as int] == (n@, records_view(m@)));
                    assert(self.tables() =~= old(self).tables().remove(i as int));
                    assert forall|x: Map<i64, RecordView>| #[trigger] with_table(old(self).tables(), name@, x) == self.tables().insert(i as int, (name@, x)) by {
                        assert(self.tables().insert(i as int, (name@, x)) =~= with_table(old(self).tables(), name@, x));
                    }
                }
                (i, n, m)
            },
            None => {
                let m: BTreeMap<i64, CrdtRecord> = BTreeMap::new();
                let n = crate::text::string_of(chars_of(name).as_slice());
                proof {
                    assert(records_view(m@) =~= Map::<i64, RecordView>::empty());
                    assert forall|x: Map<i64, RecordView>| #[trigger] with_table(old(self).tables(), name@, x) == self.tables().insert(self.tables().len() as int, (name@, x)) by {
                        assert(self.tables().insert(self.tables().len() as int, (name@, x)) =~= with_table(old(self).tables(), name@, x));
                    }
                }
                (self.state.len(), n, m)
            },
        }
    }

    fn put_table(&mut self, at: usize, name: String, m: BTreeMap<i64, CrdtRecord>)
        requires
            at <= old(self).tables().len(),
        ensures
            final(self).tables() == old(self).tables().insert(at as int, (name@, records_view(m@))),
            final(self).node() == old(self).node(),
            final(self).log() == old(self).log(),
            final(self).vclock() == old(self).vclock(),
            final(self).time() == old(self).time(),
    {
        let ghost entry = (name@, records_view(m@));
        self.state.insert(at, (name, m));
        proof {
            assert(self.tables() =~= old(self).tables().insert(at as int, entry));
        }
    }

    /// Applies an operation to the records. Always `Ok`.
    fn apply_operation(&mut self, op: &CrdtOperation) -> (r: Result<()>)
        ensures
            r is Ok,
            final(self).tables() == apply_op(old(self).tables(), op@),
            final(self).node() == old(self).node(),
            final(self).log() == old(self).log(),
            final(self).vclock() == old(self).vclock(),
            final(self).time() == old(self).time(),
    {
        let (at, name, mut m) = self.take_table(op.table());
        let ghost m0 = records_view(m@);
        let (key, record) = match op {
            CrdtOperation::Insert { key, values, timestamp, node_id, .. } => {
                (*key, CrdtRecord::new(*key, copy_values(values), *timestamp, node_id.clone()))
            },
            CrdtOperation::Update { key, values, timestamp, node_id, .. } => {
                (*key, CrdtRecord::new(*key, copy_values(values), *timestamp, node_id.clone()))
            },
            CrdtOperation::Delete { key, timestamp, node_id, .. } => {
                let r = CrdtRecord { key: *key, values: Vec::new(), timestamp: *timestamp, node_id: node_id.clone(), is_deleted: true };
                assert(r.values.deep_view() =~= Seq::<ValueView>::empty());
                (*key, r)
            },
        };
        proof {
            assert(record@ == op_record(op@));
        }
        match m.remove(&key) {
            Some(mut existing) => {
                existing.merge(&record);
                m.insert(key, existing);
            },
            None => {
                m.insert(key, record);
            },
        }
        proof {
            assert(records_view(m@) =~= updated(m0, op_key(op@), op_record(op@)));
        }
        let ghost mv = records_view(m@);
        self.put_table(at, name, m);
        proof {
            assert(with_table(old(self).tables(), op_table(op@), mv) == self.tables());
        }
        Ok(())
    }

    /// Raises this node's entry of the vector clock to `timestamp`.
    fn update_vector_clock(&mut self, timestamp: LamportTimestamp)
        ensures
            final(self).vclock() == clock_with(old(self).vclock(), old(self).node(), timestamp),
            final(self).tables() == old(self).tables(),
            final(self).node() == old(self).node(),
            final(self).log() == old(self).log(),
            final(self).time() == old(self).time(),
    {
        let ghost vc = self.vclock();
        let mut i: usize = 0;
        while i < self.vector_clock.len()
            invariant
                i <= self.vector_clock@.len(),
                vc == clock_view(self.vector_clock@),
                self.vclock() == vc,
                vc == old(self).vclock(),
                self.state == old(self).state,
                self.node_id == old(self).node_id,
                self.operation_log == old(self).operation_log,
                self.clock == old(self).clock,
                forall|j: int| 0 <= j < i ==> vc[j].0 != self.node_id@,
            decreases self.vector_clock.len() - i,
        {
            if str_eq(self.vector_clock[i].0.as_str(), self.node_id.as_str()) {
                let old_t = self.vector_clock[i].1;
                let t = if timestamp > old_t { timestamp } else { old_t };
                let name = self.node_id.clone();
                self.vector_clock.set(i, (name, t));
                proof {
                    lemma_clock_with_at(vc, self.node_id@, timestamp, i as int);
                    assert(self.vclock() =~= vc.update(i as int, (self.node_id@, t)));
                }
                return;
            }
            proof {
                assert(vc[i as int] == (self.vector_clock@[i as int].0@, self.vector_clock@[i as int].1));
            }
            i = i + 1;
        }
        let name = self.node_id.clone();
        self.vector_clock.push((name, timestamp));
        proof {
            lemma_clock_with_absent(vc, self.node_id@, timestamp);
            assert(self.vclock() =~= vc.push((self.node_id@, timestamp)));
        }
    }
}

proof fn lemma_table_index(ts: Seq<(Seq<char>, Map<i64, RecordView>)>, name: Seq<char>, i: int)
    requires
        0 <= i <= ts.len(),
    ensures
        i <= table_index(ts, name, i) <= ts.len(),
        table_index(ts, name, i) < ts.len() ==> ts[table_index(ts, name, i)].0 == name,
    decreases ts.len() - i,
{
    if i < ts.len() && ts[i].0 != name {
        lemma_table_index(ts, name, i + 1);
    }
}

proof fn lemma_clock_with_at(vc: Seq<(Seq<char>, u64)>, node: Seq<char>, t: u64, i: int)
    requires
        0 <= i < vc.len(),
        vc[i].0 == node,
        forall|j: int| 0 <= j < i ==> vc[j].0 != node,
    ensures
        clock_with(vc, node, t) == vc.update(i, (node, if t > vc[i].1 { t } else { vc[i].1 })),
    decreases vc.len(),
{
    if i > 0 {
        lemma_clock_with_at(vc.drop_first(), node, t, i - 1);
        assert(clock_with(vc, node, t) =~= vc.update(i, (node, if t > vc[i].1 { t } else { vc[i].1 })));
    } else {
        assert(clock_with(vc, node, t) =~= vc.update(i, (node, if t > vc[i].1 { t } else { vc[i].1 })));
    }
}

proof fn lemma_clock_with_absent(vc: Seq<(Seq<char>, u64)>, node: Seq<char>, t: u64)
    requires
        forall|j: int| 0 <= j < vc.len() ==> vc[j].0 != node,
    ensures
        clock_with(vc, node, t) == vc.push((node, t)),
    decreases vc.len(),
{
    if vc.len() > 0 {
        lemma_clock_with_absent(vc.drop_first(), node, t);
        assert(clock_with(vc, node, t) =~= vc.push((node, t)));
    } else {
        assert(clock_with(vc, node, t) =~= vc.push((node, t)));
    }
}



/// A store as a model: its records, log, vector clock and Lamport time.
pub struct StoreView {
    pub tables: Seq<(Seq<char>, Map<i64, RecordView>)>,
    pub log: Seq<OpView>,
    pub vclock: Seq<(Seq<char>, u64)>,
    pub time: u64,
}

/// Merging one received operation at node `node`: the Lamport clock moves
/// past its time, the operation applies, it joins the log unless one with
/// its time and node is there, and the vector clock takes its time.
pub open spec fn merge_step(s: StoreView, node: Seq<char>, op: OpView) -> StoreView {
    StoreView {
        tables: apply_op(s.tables, op),
        log: if logged(s.log, op) { s.log } else { s.log.push(op) },
        vclock: clock_with(s.vclock, node, op_time(op)),
        time: crate::lockfree::next_u64(if op_time(op) > s.time { op_time(op) } else { s.time }),
    }
}

/// Merging received operations in order.
pub open spec fn merge_all(s: StoreView, node: Seq<char>, ops: Seq<OpView>) -> StoreView
    decreases ops.len(),
{
    if ops.len() == 0 {
        s
    } else {
        merge_step(merge_all(s, node, ops.drop_last()), node, ops.last())
    }
}

/// A local operation at node `node`: stamped with the Lamport time, which
/// advances, applied, logged, and taken into the vector clock.
pub open spec fn local_step(s: StoreView, node: Seq<char>, op: OpView) -> StoreView {
    StoreView {
        tables: apply_op(s.tables, op),
        log: s.log.push(op),
        vclock: clock_with(s.vclock, node, op_time(op)),
        time: crate::lockfree::next_u64(s.time),
    }
}

/// The number of deleted records among the keys `ks` of `m`.
pub open spec fn count_deleted(ks: Seq<i64>, m: Map<i64, RecordView>) -> usize
    decreases ks.len(),
{
    if ks.len() == 0 {
        0
    } else {
        let c = count_deleted(ks.drop_last(), m);
        if m[ks.last()].is_deleted { c.wrapping_add(1) } else { c }
    }
}

/// The record counts of the tables, summed with wrapping.
pub open spec fn sum_record_counts(ts: Seq<(Seq<char>, Map<i64, RecordView>)>) -> usize
    decreases ts.len(),
{
    if ts.len() == 0 {
        0
    } else {
        sum_record_counts(ts.drop_last()).wrapping_add(ts.last().1.len() as usize)
    }
}

/// The deleted-record counts of the tables, each table's records taken in
/// the order `kss` gives, summed with wrapping.
pub open spec fn sum_deleted(ts: Seq<(Seq<char>, Map<i64, RecordView>)>, kss: Seq<Seq<i64>>) -> usize
    decreases ts.len(),
{
    if ts.len() == 0 || kss.len() == 0 {
        0
    } else {
        sum_deleted(ts.drop_last(), kss.drop_last()).wrapping_add(count_deleted(kss.last(), ts.last().1))
    }
}

/// A table's record count is the size of its model.
proof fn lemma_records_len(m: &BTreeMap<i64, CrdtRecord>)
    ensures
        m.len() == records_view(m@).len(),
{
    broadcast use vstd::laws_cmp::group_laws_cmp;
    assert(vstd::laws_cmp::obeys_cmp::<i64>());
    assert(records_view(m@).dom() =~= m@.dom());
}

impl CrdtStore {
    /// The store as a model.
    pub open spec fn model(&self) -> StoreView {
        StoreView { tables: self.tables(), log: self.log(), vclock: self.vclock(), time: self.time() }
    }

    fn record_local(&mut self, op: CrdtOperation) -> (r: Result<()>)
        requires
            op_time(op@) == old(self).time(),
        ensures
            r is Ok,
            final(self).model() == local_step(old(self).model(), old(self).node(), op@),
            final(self).node() == old(self).node(),
    {
        let t = next_timestamp(&mut self.clock);
        let _ = self.apply_operation(&op);
        let ghost before = self.operation_log@;
        let ghost ov = op@;
        self.operation_log.push(op);
        proof {
            assert(self.log() =~= ops_view(before).push(ov));
        }
        self.update_vector_clock(t);
        Ok(())
    }

    /// Writes record `key` of `table` by last-write-wins, stamped with the
    /// Lamport time. Always `Ok`.
    pub fn insert(&mut self, table: &str, key: i64, values: Vec<Value>) -> (r: Result<()>)
        ensures
            r is Ok,
            final(self).node() == old(self).node(),
            final(self).model() == local_step(
                old(self).model(),
                old(self).node(),
                OpView::Insert { table: table@, key, values: values.deep_view(), timestamp: old(self).time(), node_id: old(self).node() },
            ),
    {
        let op = CrdtOperation::Insert {
            table: crate::text::string_of(chars_of(table).as_slice()),
            key,
            values,
            timestamp: self.clock.value,
            node_id: self.node_id.clone(),
        };
        self.record_local(op)
    }

    /// Updates record `key` of `table` by last-write-wins (creating it when
    /// absent), stamped with the Lamport time. Always `Ok`.
    pub fn update(&mut self, table: &str, key: i64, values: Vec<Value>) -> (r: Result<()>)
        ensures
            r is Ok,
            final(self).node() == old(self).node(),
            final(self).model() == local_step(
                old(self).model(),
                old(self).node(),
                OpView::Update { table: table@, key, values: values.deep_view(), timestamp: old(self).time(), node_id: old(self).node() },
            ),
    {
        let op = CrdtOperation::Update {
            table: crate::text::string_of(chars_of(table).as_slice()),
            key,
            values,
            timestamp: self.clock.value,
            node_id: self.node_id.clone(),
        };
        self.record_local(op)
    }

    /// Deletes record `key` of `table`: a tombstone merged in by
    /// last-write-wins (stored even where no record is), stamped with the
    /// Lamport time. Always `Ok`.
    pub fn delete(&mut self, table: &str, key: i64) -> (r: Result<()>)
        ensures
            r is Ok,
            final(self).node() == old(self).node(),
            final(self).model() == local_step(
                old(self).model(),
                old(self).node(),
                OpView::Delete { table: table@, key, timestamp: old(self).time(), node_id: old(self).node() },
            ),
    {
        let op = CrdtOperation::Delete {
            table: crate::text::string_of(chars_of(table).as_slice()),
            key,
            timestamp: self.clock.value,
            node_id: self.node_id.clone(),
        };
        self.record_local(op)
    }

    fn is_logged(&self, op: &CrdtOperation) -> (b: bool)
        ensures
            b == logged(self.log(), op@),
    {
        let mut i: usize = 0;
        while i < self.operation_log.len()
            invariant
                i <= self.operation_log@.len(),
                forall|j: int| 0 <= j < i ==> !(op_time(#[trigger] self.log()[j]) == op_time(op@) && op_node(self.log()[j]) == op_node(op@)),
            decreases self.operation_log.len() - i,
        {
            let o = &self.operation_log[i];
            if o.timestamp() == op.timestamp() && str_eq(o.node_id().as_str(), op.node_id().as_str()) {
                proof {
                    assert(self.log()[i as int] == self.operation_log@[i as int]@);
                }
                return true;
            }
            proof {
                assert(self.log()[i as int] == self.operation_log@[i as int]@);
            }
            i = i + 1;
        }
        false
    }

    /// Merges operations received from another replica, in order. Always
    /// `Ok`.
    pub fn merge_operations(&mut self, operations: Vec<CrdtOperation>) -> (r: Result<()>)
        ensures
            r is Ok,
            final(self).node() == old(self).node(),
            final(self).model() == merge_all(old(self).model(), old(self).node(), ops_view(operations@)),
    {
        let ghost ov = ops_view(operations@);
        let mut i: usize = 0;
        proof {
            assert(ov.take(0) =~= Seq::<OpView>::empty());
        }
        while i < operations.len()
            invariant
                i <= operations@.len(),
                ov == ops_view(operations@),
                self.node() == old(self).node(),
                self.model() == merge_all(old(self).model(), old(self).node(), ov.take(i as int)),
            decreases operations.len() - i,
        {
            proof {
                assert(ov.take(i + 1).drop_last() =~= ov.take(i as int));
                assert(ov.take(i + 1).last() == operations@[i as int]@);
            }
            let op = &operations[i];
            update_timestamp(&mut self.clock, op.timestamp());
            let _ = self.apply_operation(op);
            if !self.is_logged(op) {
                let c = op.copy();
                let ghost before = self.operation_log@;
                self.operation_log.push(c);
                proof {
                    assert(self.log() =~= ops_view(before).push(op@));
                }
            }
            self.update_vector_clock(op.timestamp());
            i = i + 1;
        }
        proof {
            assert(ov.take(i as int) =~= ov);
        }
        Ok(())
    }

    /// Copies of the logged operations later than `timestamp`, in order.
    pub fn get_operations_since(&self, timestamp: LamportTimestamp) -> (ops: Vec<CrdtOperation>)
        ensures
            ops_view(ops@) == ops_since(self.log(), timestamp),
    {
        let ghost lv = self.log();
        let mut out: Vec<CrdtOperation> = Vec::new();
        let mut i: usize = 0;
        proof {
            reveal(Seq::filter);
            assert(lv.take(0) =~= Seq::<OpView>::empty());
            assert(ops_view(out@) =~= Seq::<OpView>::empty());
        }
        while i < self.operation_log.len()
            invariant
                i <= self.operation_log@.len(),
                lv == self.log(),
                ops_view(out@) == ops_since(lv.take(i as int), timestamp),
            decreases self.operation_log.len() - i,
        {
            proof {
                reveal(Seq::filter);
                assert(lv.take(i + 1).drop_last() =~= lv.take(i as int));
                assert(lv.take(i + 1).last() == self.operation_log@[i as int]@);
            }
            if self.operation_log[i].timestamp() > timestamp {
                let c = self.operation_log[i].copy();
                let ghost before = out@;
                out.push(c);
                proof {
                    assert(ops_view(out@) =~= ops_view(before).push(self.operation_log@[i as int]@));
                }
            }
            i = i + 1;
        }
        proof {
            assert(lv.take(i as int) =~= lv);
        }
        out
    }

    /// The records of table `table`, if it exists.
    pub fn get_table_state(&self, table: &str) -> (r: Option<&BTreeMap<i64, CrdtRecord>>)
        ensures
            match r {
                Some(m) => table_index(self.tables(), table@, 0) < self.tables().len() && records_view(m@)
                    == table_records(self.tables(), table@),
                None => table_index(self.tables(), table@, 0) >= self.tables().len(),
            },
    {
        match self.table_position(table) {
            Some(i) => {
                proof {
                    assert(self.tables()[i as int] == (self.state@[i as int].0@, records_view(self.state@[i as int].1@)));
                }
                Some(&self.state[i].1)
            },
            None => None,
        }
    }

    /// Record `key` of table `table`, if it exists.
    pub fn get_record(&self, table: &str, key: i64) -> (r: Option<&CrdtRecord>)
        ensures
            match r {
                Some(rec) => table_records(self.tables(), table@).contains_key(key) && rec@ == table_records(
                    self.tables(),
                    table@,
                )[key],
                None => !table_records(self.tables(), table@).contains_key(key),
            },
    {
        match self.get_table_state(table) {
            Some(m) => m.get(&key),
            None => None,
        }
    }

    /// The vector clock.
    pub fn get_vector_clock(&self) -> (vc: &VectorClock)
        ensures
            clock_view(vc@) == self.vclock(),
    {
        &self.vector_clock
    }

    fn min_clock_time(vc: &VectorClock) -> (m: u64)
        ensures
            m == min_time(clock_view(vc@)),
    {
        let ghost cv = clock_view(vc@);
        if vc.len() == 0 {
            return 0;
        }
        let mut cur = vc[0].1;
        let mut i: usize = 1;
        proof {
            assert(cv.take(1).len() == 1);
        }
        while i < vc.len()
            invariant
                1 <= i <= vc@.len(),
                cv == clock_view(vc@),
                cur == min_time(cv.take(i as int)),
            decreases vc.len() - i,
        {
            proof {
                assert(cv.take(i + 1).drop_last() =~= cv.take(i as int));
                assert(cv.take(i + 1).last() == cv[i as int]);
            }
            if vc[i].1 < cur {
                cur = vc[i].1;
            }
            i = i + 1;
        }
        proof {
            assert(cv.take(i as int) =~= cv);
        }
        cur
    }

    /// Drops the logged operations at or before the least time of the
    /// vector clock; nothing when the vector clock is empty.
    pub fn prune_operations(&mut self)
        ensures
            final(self).node() == old(self).node(),
            final(self).tables() == old(self).tables(),
            final(self).vclock() == old(self).vclock(),
            final(self).time() == old(self).time(),
            old(self).vclock().len() == 0 ==> final(self).log() == old(self).log(),
            old(self).vclock().len() > 0 ==> final(self).log() == ops_since(old(self).log(), min_time(old(self).vclock())),
    {
        if self.vector_clock.len() == 0 {
            return;
        }
        let min = CrdtStore::min_clock_time(&self.vector_clock);
        let kept = self.get_operations_since(min);
        self.operation_log = kept;
    }

    /// Statistics of the store.
    pub fn stats(&self) -> (st: CrdtStats)
        ensures
            st.node_id@ == self.node(),
            st.tables == self.tables().len(),
            st.total_records == sum_record_counts(self.tables()),
            exists|kss: Seq<Seq<i64>>|
                #![trigger sum_deleted(self.tables(), kss)]
                kss.len() == self.tables().len() && (forall|j: int|
                    0 <= j < kss.len() ==> (#[trigger] kss[j]).to_set() == self.tables()[j].1.dom()
                        && kss[j].no_duplicates()) && st.deleted_records == sum_deleted(self.tables(), kss),
            st.operation_log_size == self.log().len(),
            st.vector_clock_size == self.vclock().len(),
    {
        let ghost tv = self.tables();
        let ghost mut kss: Seq<Seq<i64>> = Seq::empty();
        let mut total: usize = 0;
        let mut deleted: usize = 0;
        let mut j: usize = 0;
        while j < self.state.len()
            invariant
                j <= self.state@.len(),
                tv == self.tables(),
                kss.len() == j,
                forall|a: int| 0 <= a < j ==> (#[trigger] kss[a]).to_set() == tv[a].1.dom() && kss[a].no_duplicates(),
                total == sum_record_counts(tv.take(j as int)),
                deleted == sum_deleted(tv.take(j as int), kss),
            decreases self.state.len() - j,
        {
            proof {
                assert(tv.take(j + 1).drop_last() =~= tv.take(j as int));
                assert(tv.take(j + 1).last() == tv[j as int]);
                assert(tv[j as int] == (self.state@[j as int].0@, records_view(self.state@[j as int].1@)));
            }
            let m = &self.state[j].1;
            proof {
                lemma_records_len(m);
            }
            total = total.wrapping_add(m.len());
            let keys = crate::mvcc::table_keys(m);
            let ghost start = deleted;
            let ghost mv = records_view(m@);
            let mut count: usize = 0;
            let mut i: usize = 0;
            proof {
                assert(keys@.take(0) =~= Seq::<i64>::empty());
            }
            while i < keys.len()
                invariant
                    i <= keys@.len(),
                    mv == records_view(m@),
                    keys@.to_set() == m@.dom(),
                    count == count_deleted(keys@.take(i as int), mv),
                decreases keys.len() - i,
            {
                let k = keys[i];
                proof {
                    assert(keys@.to_set().contains(k));
                    assert(keys@.take(i + 1).drop_last() =~= keys@.take(i as int));
                    assert(keys@.take(i + 1).last() == k);
                }
                match m.get(&k) {
                    Some(rec) => {
                        if rec.is_deleted {
                            count = count.wrapping_add(1);
                        }
                    },
                    None => {},
                }
                i = i + 1;
            }
            deleted = deleted.wrapping_add(count);
            proof {
                assert(keys@.take(i as int) =~= keys@);
                let prev = kss;
                kss = kss.push(keys@);
                assert(kss.drop_last() =~= prev);
                assert(kss.last() == keys@);
            }
            j = j + 1;
        }
        proof {
            assert(tv.take(j as int) =~= tv);
        }
        CrdtStats {
            node_id: self.node_id.clone(),
            tables: self.state.len(),
            total_records: total,
            deleted_records: deleted,
            operation_log_size: self.operation_log.len(),
            vector_clock_size: self.vector_clock.len(),
        }
    }
}

/// Synchronisation between replicas.
pub struct SyncProtocol {
    store: CrdtStore,
}

impl SyncProtocol {
    /// The replica's store.
    pub closed spec fn spec_store(&self) -> CrdtStore {
        self.store
    }

    /// A protocol over a new store for node `node_id`.
    pub fn new(node_id: NodeId) -> (p: SyncProtocol)
        ensures
            p.spec_store().node() == node_id@,
            p.spec_store().tables() == Seq::<(Seq<char>, Map<i64, RecordView>)>::empty(),
            p.spec_store().log() == Seq::<OpView>::empty(),
            p.spec_store().vclock() == seq![(node_id@, 0u64)],
            p.spec_store().time() == 1,
    {
        SyncProtocol { store: CrdtStore::new(node_id) }
    }

    /// The operations to send to a peer with the given vector clock: those
    /// later than its least time (all, when it is empty).
    pub fn generate_sync_message(&self, peer_vector_clock: &VectorClock) -> (ops: Vec<CrdtOperation>)
        ensures
            ops_view(ops@) == ops_since(self.spec_store().log(), min_time(clock_view(peer_vector_clock@))),
    {
        let min = CrdtStore::min_clock_time(peer_vector_clock);
        self.store.get_operations_since(min)
    }

    /// Merges the operations a peer sent. Always `Ok`.
    pub fn process_sync_message(&mut self, operations: Vec<CrdtOperation>) -> (r: Result<()>)
        ensures
            r is Ok,
            final(self).spec_store().node() == old(self).spec_store().node(),
            final(self).spec_store().model() == merge_all(
                old(self).spec_store().model(),
                old(self).spec_store().node(),
                ops_view(operations@),
            ),
    {
        self.store.merge_operations(operations)
    }

    /// The store.
    pub fn store(&self) -> (s: &CrdtStore)
        ensures
            *s == self.spec_store(),
    {
        &self.store
    }

    /// The store, for changing it.
    pub fn store_mut(&mut self) -> (s: &mut CrdtStore)
        ensures
            *s == old(self).spec_store(),
            final(self).spec_store() == *final(s),
    {
        &mut self.store
    }
}

} // verus!
