//! Statement execution over the schema, the tables' B-trees and the pager.
//!
//! Every data statement runs in a transaction of its own, under a table lock
//! (shared for SELECT, exclusive otherwise) taken from a lock manager that the
//! statement starts with empty.

use vstd::prelude::*;
use crate::btree::{
    BTree, pstate, PState, Fault, error_is, spec_search, spec_scan, spec_insert, spec_delete, rows_view,
    with_header, ps_write, ps_alloc, page_type, page_num_keys, data_end, find_entry, encodable_row, encode_row,
    placed_at, stored_row, law_insert_then_scan, HEADER_SIZE, removed_at, law_delete_then_scan,
};
use crate::storage::{Pager, Schema, TableSchema, TableSchemaView, find_table, zero_page, PAGE_SIZE};
use crate::parser::{
    Statement, StatementView, WhereClause, Condition, ConditionView, where_view, Operator, spec_compare, Comparison,
    regex_outcome, strings_view, opt_where_view, assignments_view,
};
use crate::transaction::{
    TransactionManager, LockManager, LockType, Transaction, TransactionState, lock_decision, locks_of,
};
use crate::types::{Column, ColumnView, QueryResult, Result, Row, Value, ValueView, VelociError};
use crate::text::str_eq;

verus! {

/// Why a statement failed.
pub enum ExecFailure {
    NotFound,
    Constraint,
    TypeMismatch,
    Corrupt,
    Page(Fault),
    Parse,
}

/// The error that stands for a failure.
pub open spec fn failure_is(e: VelociError, f: ExecFailure) -> bool {
    match f {
        ExecFailure::NotFound => e is NotFound,
        ExecFailure::Constraint => e is ConstraintViolation,
        ExecFailure::TypeMismatch => e is TypeMismatch,
        ExecFailure::Corrupt => e is Corruption,
        ExecFailure::Page(x) => error_is(e, x),
        ExecFailure::Parse => e is ParseError,
    }
}

/// The outcome `s`, as a `Result<()>`.
pub open spec fn done(r: Result<()>, s: std::result::Result<(), ExecFailure>) -> bool {
    match s {
        Ok(()) => r is Ok,
        Err(f) => r matches Err(e) && failure_is(e, f),
    }
}

// ---------------------------------------------------------------------------
// The tables' trees

/// The trees by table name, as the name and the root page.
pub open spec fn trees_view(v: Seq<(String, BTree)>) -> Seq<(Seq<char>, u64)> {
    v.map_values(|x: (String, BTree)| (x.0@, x.1.root()))
}

/// The index of the first tree named `name` from `i` on, or the length.
pub open spec fn tree_index(ts: Seq<(Seq<char>, u64)>, name: Seq<char>, i: int) -> int
    decreases ts.len() - i,
{
    if 0 <= i < ts.len() && ts[i].0 != name {
        tree_index(ts, name, i + 1)
    } else {
        i
    }
}

/// The root of the tree of table `name`, if it has one.
pub open spec fn tree_root(ts: Seq<(Seq<char>, u64)>, name: Seq<char>) -> Option<u64> {
    let i = tree_index(ts, name, 0);
    if 0 <= i < ts.len() { Some(ts[i].1) } else { None }
}

/// The trees after table `name` gets the tree rooted at `root`.
pub open spec fn put_tree(ts: Seq<(Seq<char>, u64)>, name: Seq<char>, root: u64) -> Seq<(Seq<char>, u64)> {
    let i = tree_index(ts, name, 0);
    if 0 <= i < ts.len() { ts.update(i, (name, root)) } else { ts.push((name, root)) }
}

/// The trees without that of table `name`.
pub open spec fn drop_tree(ts: Seq<(Seq<char>, u64)>, name: Seq<char>) -> Seq<(Seq<char>, u64)> {
    let i = tree_index(ts, name, 0);
    if 0 <= i < ts.len() { ts.remove(i) } else { ts }
}

proof fn lemma_tree_index(ts: Seq<(Seq<char>, u64)>, name: Seq<char>, i: int)
    requires
        0 <= i <= ts.len(),
    ensures
        i <= tree_index(ts, name, i) <= ts.len(),
        tree_index(ts, name, i) < ts.len() ==> ts[tree_index(ts, name, i)].0 == name,
    decreases ts.len() - i,
{
    if i < ts.len() && ts[i].0 != name {
        lemma_tree_index(ts, name, i + 1);
    }
}

// ---------------------------------------------------------------------------
// Conditions

/// The index of the first column named `name`, or the length.
pub open spec fn column_index(cols: Seq<ColumnView>, name: Seq<char>, i: int) -> int
    decreases cols.len() - i,
{
    if 0 <= i < cols.len() && cols[i].name != name {
        column_index(cols, name, i + 1)
    } else {
        i
    }
}

/// What evaluating `left op right` gives: `None` for an error.
pub open spec fn spec_eval(op: Operator, l: ValueView, r: ValueView) -> Option<bool> {
    match spec_compare(op, l, r) {
        Comparison::Decided(b) => Some(b),
        Comparison::Like(text, re) => regex_outcome(re, text),
        Comparison::Mismatch => None,
    }
}

/// A condition holds of a row: its column exists and the row has a value
/// there, and the comparison succeeds and is true.
pub open spec fn cond_holds(row: Seq<ValueView>, c: ConditionView, cols: Seq<ColumnView>) -> bool {
    let k = column_index(cols, c.column, 0);
    k < cols.len() && k < row.len() && spec_eval(c.operator, row[k], c.value) == Some(true)
}

/// A row is selected by a WHERE clause when every condition holds; an error
/// in evaluating a condition leaves the row out.
pub open spec fn row_selected(row: Seq<ValueView>, w: Option<Seq<ConditionView>>, cols: Seq<ColumnView>) -> bool {
    match w {
        None => true,
        Some(cs) => forall|i: int| 0 <= i < cs.len() ==> cond_holds(row, #[trigger] cs[i], cols),
    }
}

/// The rows that a WHERE clause selects, in order.
pub open spec fn selected(rows: Seq<(i64, Seq<ValueView>)>, w: Option<Seq<ConditionView>>, cols: Seq<ColumnView>) -> Seq<(i64, Seq<ValueView>)>
    decreases rows.len(),
{
    if rows.len() == 0 {
        Seq::empty()
    } else {
        let rest = selected(rows.drop_last(), w, cols);
        if row_selected(rows.last().1, w, cols) { rest.push(rows.last()) } else { rest }
    }
}

/// Columns as models.
pub open spec fn cols_view(cols: Seq<Column>) -> Seq<ColumnView> {
    cols.map_values(|c: Column| c@)
}

proof fn lemma_not_selected(row: Seq<ValueView>, cs: Seq<ConditionView>, cols: Seq<ColumnView>, i: int)
    requires
        0 <= i < cs.len(),
        !cond_holds(row, cs[i], cols),
    ensures
        !row_selected(row, Some(cs), cols),
{
    let w: Option<Seq<ConditionView>> = Some(cs);
    assert(w is Some);
    assert(w->0 == cs);
    assert(row_selected(row, w, cols) ==> cond_holds(row, cs[i], cols));
}

fn column_position(cols: &Vec<Column>, name: &str) -> (k: usize)
    ensures
        k == column_index(cols_view(cols@), name@, 0),
        k <= cols@.len(),
{
    let ghost cv = cols_view(cols@);
    let mut i: usize = 0;
    while i < cols.len()
        invariant
            i <= cols@.len(),
            cv == cols_view(cols@),
            column_index(cv, name@, 0) == column_index(cv, name@, i as int),
        decreases cols.len() - i,
    {
        if str_eq(cols[i].name.as_str(), name) {
            assert(cv[i as int].name == name@);
            return i;
        }
        i = i + 1;
    }
    i
}

fn condition_holds(row: &Row, c: &Condition, cols: &Vec<Column>) -> (b: bool)
    ensures
        b == cond_holds(row.values.deep_view(), c@, cols_view(cols@)),
{
    let k = column_position(cols, c.column.as_str());
    if k >= cols.len() || k >= row.values.len() {
        return false;
    }
    proof {
        assert(row.values.deep_view()[k as int] == row.values@[k as int]@);
    }
    match c.operator.evaluate(&row.values[k], &c.value) {
        Ok(b) => b,
        Err(_) => false,
    }
}

/// Whether `row` satisfies every condition of `w`.
fn where_holds(row: &Row, w: &Option<WhereClause>, cols: &Vec<Column>) -> (b: bool)
    ensures
        b == row_selected(row.values.deep_view(), opt_where_view(*w), cols_view(cols@)),
{
    match w {
        None => true,
        Some(wc) => {
            let ghost cs = where_view(*wc);
            let mut i: usize = 0;
            while i < wc.conditions.len()
                invariant
                    i <= wc.conditions@.len(),
                    cs == where_view(*wc),
                    opt_where_view(*w) == Some(cs),
                    forall|j: int| 0 <= j < i ==> cond_holds(row.values.deep_view(), #[trigger] cs[j], cols_view(cols@)),
                decreases wc.conditions.len() - i,
            {
                if !condition_holds(row, &wc.conditions[i], cols) {
                    assert(cs[i as int] == wc.conditions@[i as int]@);
                    assert(!cond_holds(row.values.deep_view(), cs[i as int], cols_view(cols@)));
                    assert(cs.len() == wc.conditions@.len());
                    assert(opt_where_view(*w) == Some(cs));
                    assert(0 <= i < cs.len());
                    proof {
                        lemma_not_selected(row.values.deep_view(), cs, cols_view(cols@), i as int);
                    }
                    return false;
                }
                assert(cs[i as int] == wc.conditions@[i as int]@);
                i = i + 1;
            }
            true
        },
    }
}

fn select_rows(rows: Vec<(i64, Row)>, w: &Option<WhereClause>, cols: &Vec<Column>) -> (out: Vec<(i64, Row)>)
    ensures
        rows_view(out@) == selected(rows_view(rows@), opt_where_view(*w), cols_view(cols@)),
{
    let ghost rv = rows_view(rows@);
    let mut out: Vec<(i64, Row)> = Vec::new();
    let mut rest = rows;
    let mut i: usize = 0;
    let n = rest.len();
    proof {
        assert(rv.take(0) =~= Seq::<(i64, Seq<ValueView>)>::empty());
        assert(rows_view(out@) =~= Seq::<(i64, Seq<ValueView>)>::empty());
    }
    while i < n
        invariant
            i <= n,
            n == rv.len(),
            rest@.len() == n,
            rv == rows_view(rest@),
            rows_view(out@) == selected(rv.take(i as int), opt_where_view(*w), cols_view(cols@)),
        decreases n - i,
    {
        proof {
            assert(rv.take(i + 1).drop_last() =~= rv.take(i as int));
            assert(rv.take(i + 1).last() == rv[i as int]);
        }
        let keep = where_holds(&rest[i].1, w, cols);
        proof {
            assert(rv[i as int] == (rest@[i as int].0, rest@[i as int].1.values.deep_view()));
        }
        if keep {
            let key = rest[i].0;
            let vals = copy_values(&rest[i].1.values);
            let ghost before = out@;
            let row = Row::new(vals);
            assert(row.values.deep_view() =~= rest@[i as int].1.values.deep_view());
            out.push((key, row));
            proof {
                assert(rows_view(out@) =~= rows_view(before).push(rv[i as int]));
            }
        }
        i = i + 1;
    }
    proof {
        assert(rv.take(n as int) =~= rv);
    }
    out
}

/// A copy of `vs` with the same models.
fn copy_values(vs: &Vec<Value>) -> (c: Vec<Value>)
    ensures
        c.deep_view() == vs.deep_view(),
{
    let mut c: Vec<Value> = Vec::new();
    let mut i: usize = 0;
    while i < vs.len()
        invariant
            i <= vs@.len(),
            c.deep_view() == vs.deep_view().take(i as int),
        decreases vs.len() - i,
    {
        let ghost before = c.deep_view();
        c.push(vs[i].duplicate());
        proof {
            assert(c.deep_view() =~= before.push(vs@[i as int]@));
            assert(vs.deep_view().take(i + 1) =~= vs.deep_view().take(i as int).push(vs@[i as int]@));
        }
        i = i + 1;
    }
    assert(vs.deep_view().take(i as int) =~= vs.deep_view());
    c
}

// ---------------------------------------------------------------------------
// Projection

/// Whether the column list is the single `*`.
pub open spec fn is_star(columns: Seq<Seq<char>>) -> bool {
    columns.len() == 1 && columns[0] == "*"@
}

/// The table's columns named in `names`, in the order named; names of no
/// column are skipped.
pub open spec fn named_columns(cols: Seq<ColumnView>, names: Seq<Seq<char>>) -> Seq<ColumnView>
    decreases names.len(),
{
    if names.len() == 0 {
        Seq::empty()
    } else {
        let rest = named_columns(cols, names.drop_last());
        let k = column_index(cols, names.last(), 0);
        if k < cols.len() { rest.push(cols[k]) } else { rest }
    }
}

/// The values of `row` in the named columns, in the order named; names of
/// no column, and columns past the row's end, are skipped.
pub open spec fn projected(row: Seq<ValueView>, cols: Seq<ColumnView>, names: Seq<Seq<char>>) -> Seq<ValueView>
    decreases names.len(),
{
    if names.len() == 0 {
        Seq::empty()
    } else {
        let rest = projected(row, cols, names.drop_last());
        let k = column_index(cols, names.last(), 0);
        if k < cols.len() && k < row.len() { rest.push(row[k]) } else { rest }
    }
}

/// The result columns of a SELECT.
pub open spec fn result_columns(cols: Seq<ColumnView>, names: Seq<Seq<char>>) -> Seq<ColumnView> {
    if is_star(names) { cols } else { named_columns(cols, names) }
}

/// The result row of a SELECT for one selected row.
pub open spec fn result_row(row: Seq<ValueView>, cols: Seq<ColumnView>, names: Seq<Seq<char>>) -> Seq<ValueView> {
    if is_star(names) { row } else { projected(row, cols, names) }
}

/// The result rows of a SELECT.
pub open spec fn result_rows(rows: Seq<(i64, Seq<ValueView>)>, cols: Seq<ColumnView>, names: Seq<Seq<char>>) -> Seq<Seq<ValueView>> {
    rows.map_values(|x: (i64, Seq<ValueView>)| result_row(x.1, cols, names))
}

fn star(columns: &Vec<String>) -> (b: bool)
    ensures
        b == is_star(strings_view(columns@)),
{
    proof {
        reveal_strlit("*");
    }
    columns.len() == 1 && str_eq(columns[0].as_str(), "*")
}

fn pick_columns(cols: &Vec<Column>, names: &Vec<String>) -> (out: Vec<Column>)
    ensures
        out@.map_values(|c: Column| c@) == named_columns(cols_view(cols@), strings_view(names@)),
{
    let ghost cv = cols_view(cols@);
    let ghost nv = strings_view(names@);
    let mut out: Vec<Column> = Vec::new();
    let mut i: usize = 0;
    while i < names.len()
        invariant
            i <= names@.len(),
            cv == cols_view(cols@),
            nv == strings_view(names@),
            out@.map_values(|c: Column| c@) == named_columns(cv, nv.take(i as int)),
        decreases names.len() - i,
    {
        proof {
            assert(nv.take(i + 1).drop_last() =~= nv.take(i as int));
            assert(nv.take(i + 1).last() == names@[i as int]@);
        }
        let k = column_position(cols, names[i].as_str());
        if k < cols.len() {
            let ghost before = out@;
            out.push(cols[k].duplicate());
            proof {
                assert(out@.map_values(|c: Column| c@) =~= before.map_values(|c: Column| c@).push(cv[k as int]));
            }
        }
        i = i + 1;
    }
    proof {
        assert(nv.take(i as int) =~= nv);
    }
    out
}

fn project_row(row: &Row, cols: &Vec<Column>, names: &Vec<String>) -> (out: Row)
    ensures
        out.values.deep_view() == projected(row.values.deep_view(), cols_view(cols@), strings_view(names@)),
{
    let ghost cv = cols_view(cols@);
    let ghost nv = strings_view(names@);
    let ghost rv = row.values.deep_view();
    let mut vals: Vec<Value> = Vec::new();
    let mut i: usize = 0;
    while i < names.len()
        invariant
            i <= names@.len(),
            cv == cols_view(cols@),
            nv == strings_view(names@),
            rv == row.values.deep_view(),
            vals.deep_view() == projected(rv, cv, nv.take(i as int)),
        decreases names.len() - i,
    {
        proof {
            assert(nv.take(i + 1).drop_last() =~= nv.take(i as int));
            assert(nv.take(i + 1).last() == names@[i as int]@);
        }
        let k = column_position(cols, names[i].as_str());
        if k < cols.len() && k < row.values.len() {
            let ghost before = vals.deep_view();
            vals.push(row.values[k].duplicate());
            proof {
                assert(vals.deep_view() =~= before.push(rv[k as int]));
            }
        }
        i = i + 1;
    }
    proof {
        assert(nv.take(i as int) =~= nv);
    }
    Row::new(vals)
}

// ---------------------------------------------------------------------------
// The executor

/// Runs statements against a database's pager, schema and trees.
pub struct Executor {
    pager: Pager,
    btrees: Vec<(String, BTree)>,
    schema: Schema,
    transaction_manager: TransactionManager,
    lock_manager: LockManager,
}

/// The state of the transaction manager after a data statement: its number
/// was taken; on success the transaction is gone from the active ones, on
/// failure it stays there, active.
pub open spec fn txn_after(old_next: u64, old_active: Map<u64, Transaction>, new_next: u64, new_active: Map<u64, Transaction>, ok: bool) -> bool {
    &&& new_next == (if old_next == u64::MAX { 0 } else { old_next + 1 })
    &&& new_active.remove(old_next) == old_active.remove(old_next)
    &&& (ok ==> !new_active.contains_key(old_next))
    &&& (!ok ==> new_active.contains_key(old_next) && new_active[old_next].spec_id() == old_next
        && new_active[old_next].spec_state() == TransactionState::Active)
}

impl Executor {
    /// The pages and recorded writes.
    pub closed spec fn store(&self) -> PState {
        pstate(&self.pager)
    }

    /// The tables.
    pub closed spec fn tables(&self) -> Seq<TableSchemaView> {
        self.schema.tables()
    }

    /// The tables' trees, by name.
    pub closed spec fn trees(&self) -> Seq<(Seq<char>, u64)> {
        trees_view(self.btrees@)
    }

    /// The number of the next transaction.
    pub closed spec fn txn_next(&self) -> u64 {
        self.transaction_manager.next_id()
    }

    /// The active transactions.
    pub closed spec fn txn_active(&self) -> Map<u64, Transaction> {
        self.transaction_manager.active()
    }

    /// The pages are whole and the table names distinct.
    pub closed spec fn wf(&self) -> bool {
        self.pager.wf() && self.schema.wf()
    }

    /// The pager.
    pub closed spec fn pager_of(&self) -> Pager {
        self.pager
    }

    /// An executor over the given state, with an empty lock manager.
    pub fn new(pager: Pager, btrees: Vec<(String, BTree)>, schema: Schema, transaction_manager: TransactionManager) -> (e: Executor)
        requires
            pager.wf(),
            schema.wf(),
        ensures
            e.wf(),
            e.store() == pstate(&pager),
            e.tables() == schema.tables(),
            e.trees() == trees_view(btrees@),
            e.txn_next() == transaction_manager.next_id(),
            e.txn_active() == transaction_manager.active(),
            e.pager_of() == pager,
    {
        Executor { pager, btrees, schema, transaction_manager, lock_manager: LockManager::new() }
    }

    /// The names of the tables, in the order they were created.
    pub fn list_tables(&self) -> (names: Vec<String>)
        ensures
            names@.map_values(|n: String| n@) == self.tables().map_values(|t: crate::storage::TableSchemaView| t.name),
    {
        self.schema.list_tables()
    }

    /// Hands out the page writes not yet handed out, oldest first.
    pub fn take_pending_writes(&mut self) -> (w: Vec<(u64, crate::storage::Page)>)
        ensures
            w@.map_values(|x: (u64, crate::storage::Page)| crate::storage::write_view(x)) == old(self).store().1,
            final(self).store().1 == Seq::<(u64, Seq<u8>)>::empty(),
            final(self).store().0 == old(self).store().0,
            final(self).tables() == old(self).tables(),
            final(self).trees() == old(self).trees(),
            final(self).txn_next() == old(self).txn_next(),
            final(self).txn_active() == old(self).txn_active(),
            final(self).wf() == old(self).wf(),
    {
        let w = self.pager.take_pending_writes();
        w
    }

    fn tree_position(&self, name: &str) -> (r: Option<usize>)
        ensures
            match r {
                Some(i) => tree_index(self.trees(), name@, 0) == i && i < self.trees().len(),
                None => tree_index(self.trees(), name@, 0) >= self.trees().len(),
            },
    {
        let ghost ts = self.trees();
        let mut i: usize = 0;
        while i < self.btrees.len()
            invariant
                i <= self.btrees@.len(),
                ts == self.trees(),
                tree_index(ts, name@, 0) == tree_index(ts, name@, i as int),
            decreases self.btrees.len() - i,
        {
            if str_eq(self.btrees[i].0.as_str(), name) {
                assert(ts[i as int].0 == name@);
                return Some(i);
            }
            i = i + 1;
        }
        None
    }

    /// Starts a transaction and takes a lock of kind `lt` on `table` from a
    /// fresh lock manager.
    fn begin_locked(&mut self, table: &str, lt: LockType) -> (t: Transaction)
        ensures
            t.spec_id() == old(self).txn_next(),
            t.spec_state() == TransactionState::Active,
            final(self).txn_next() == (if old(self).txn_next() == u64::MAX { 0 } else { old(self).txn_next() + 1 }),
            final(self).txn_active() == old(self).txn_active().insert(t.spec_id(), t),
            final(self).store() == old(self).store(),
            final(self).tables() == old(self).tables(),
            final(self).trees() == old(self).trees(),
            final(self).wf() == old(self).wf(),
            final(self).pager_of() == old(self).pager_of(),
    {
        self.lock_manager = LockManager::new();
        let txn = self.transaction_manager.begin();
        let r = self.lock_manager.try_acquire_lock_once(table, txn.id(), lt);
        proof {
            assert(locks_of(Map::<Seq<char>, Seq<crate::transaction::LockEntry>>::empty(), table@) =~= Seq::<crate::transaction::LockEntry>::empty());
        }
        txn
    }

    /// Commits `txn` and releases its lock on `table`.
    fn finish(&mut self, table: &str, txn: &mut Transaction)
        requires
            old(txn).spec_state() == TransactionState::Active,
            old(self).txn_active().contains_key(old(txn).spec_id()),
        ensures
            final(self).txn_active() == old(self).txn_active().remove(old(txn).spec_id()),
            final(self).txn_next() == old(self).txn_next(),
            final(self).store() == old(self).store(),
            final(self).tables() == old(self).tables(),
            final(self).trees() == old(self).trees(),
            final(self).wf() == old(self).wf(),
            final(self).pager_of() == old(self).pager_of(),
    {
        let _ = self.transaction_manager.commit(txn);
        let id = txn.id();
        let _ = self.lock_manager.release_lock(table, id);
    }
}



// ---------------------------------------------------------------------------
// What statements do

/// The state a statement works on: the pages and recorded writes, the
/// tables, and the tables' trees.
pub struct DbView {
    pub store: PState,
    pub tables: Seq<TableSchemaView>,
    pub trees: Seq<(Seq<char>, u64)>,
}

/// CREATE TABLE: a new leaf page for the table's tree, then the table and
/// its tree. The page is written even when the name is taken.
pub open spec fn spec_create_table(d: DbView, name: Seq<char>, cols: Seq<ColumnView>) -> (DbView, std::result::Result<(), ExecFailure>) {
    let n = d.store.0.len();
    if n >= usize::MAX {
        (d, Err(ExecFailure::Page(Fault::Full)))
    } else {
        let st = ps_write(ps_alloc(d.store), n as int, with_header(zero_page(), 1, 0, 0));
        if find_table(d.tables, name) is Some {
            (DbView { store: st, ..d }, Err(ExecFailure::Constraint))
        } else {
            (
                DbView {
                    store: st,
                    tables: d.tables.push(TableSchemaView { name, columns: cols, root_page: n as u64 }),
                    trees: put_tree(d.trees, name, n as u64),
                },
                Ok(()),
            )
        }
    }
}

/// DROP TABLE: the table and its tree go; the pages stay.
pub open spec fn spec_drop_table(d: DbView, name: Seq<char>) -> (DbView, std::result::Result<(), ExecFailure>) {
    match find_table(d.tables, name) {
        Some(i) => (DbView { tables: d.tables.remove(i), trees: drop_tree(d.trees, name), ..d }, Ok(())),
        None => (d, Err(ExecFailure::NotFound)),
    }
}

/// The index of the first primary-key column from `i` on, or the length.
pub open spec fn pk_index(cols: Seq<ColumnView>, i: int) -> int
    decreases cols.len() - i,
{
    if 0 <= i < cols.len() && !cols[i].primary_key {
        pk_index(cols, i + 1)
    } else {
        i
    }
}

/// The index of the first of `names` equal to `name` from `i` on, or the
/// length.
pub open spec fn name_index(names: Seq<Seq<char>>, name: Seq<char>, i: int) -> int
    decreases names.len() - i,
{
    if 0 <= i < names.len() && names[i] != name {
        name_index(names, name, i + 1)
    } else {
        i
    }
}

/// Some value is NULL for a NOT NULL column.
pub open spec fn null_violation(cols: Seq<ColumnView>, names: Seq<Seq<char>>, vals: Seq<ValueView>) -> bool {
    exists|i: int| 0 <= i < vals.len() && i < names.len() && {
        let k = #[trigger] column_index(cols, names[i], 0);
        k < cols.len() && cols[k].not_null && vals[i] is Null
    }
}

/// The stored row for the first `n` named values: NULL in every column,
/// then each value in its column, later names winning.
pub open spec fn row_of(cols: Seq<ColumnView>, names: Seq<Seq<char>>, vals: Seq<ValueView>, n: int) -> Seq<ValueView>
    decreases n,
{
    if n <= 0 {
        Seq::new(cols.len(), |i: int| ValueView::Null)
    } else {
        let r = row_of(cols, names, vals, n - 1);
        let k = column_index(cols, names[n - 1], 0);
        if k < cols.len() { r.update(k, vals[n - 1]) } else { r }
    }
}

/// A column index below the length names a column with that name, and no
/// earlier column has it.
proof fn lemma_column_index_props(cols: Seq<ColumnView>, name: Seq<char>, i: int)
    requires
        0 <= i <= cols.len(),
    ensures
        i <= column_index(cols, name, i) <= cols.len(),
        column_index(cols, name, i) < cols.len() ==> cols[column_index(cols, name, i)].name == name,
        forall|j: int| i <= j < column_index(cols, name, i) ==> cols[j].name != name,
    decreases cols.len() - i,
{
    if i < cols.len() && cols[i].name != name {
        lemma_column_index_props(cols, name, i + 1);
    }
}

/// An INSERT with a column list puts each value in the column it is named
/// for: the row has one value per column; where the names are distinct, the
/// column of the `i`th name holds the `i`th value; a column that no name
/// names holds NULL.
pub proof fn law_insert_values_go_to_their_columns(cols: Seq<ColumnView>, names: Seq<Seq<char>>, vals: Seq<ValueView>)
    requires
        names.len() == vals.len(),
    ensures
        row_of(cols, names, vals, names.len() as int).len() == cols.len(),
        names.no_duplicates() ==> forall|i: int, k: int|
            0 <= i < names.len() && 0 <= k < cols.len() && cols[k].name == names[i] && (forall|j: int|
                0 <= j < k ==> cols[j].name != names[i]) ==> #[trigger] row_of(cols, names, vals, names.len() as int)[k]
                == #[trigger] vals[i],
        forall|k: int|
            0 <= k < cols.len() && (forall|i: int| 0 <= i < names.len() ==> cols[k].name != #[trigger] names[i])
                ==> #[trigger] row_of(cols, names, vals, names.len() as int)[k] == ValueView::Null,
{
    lemma_row_of_places(cols, names, vals, names.len() as int);
}

proof fn lemma_row_of_places(cols: Seq<ColumnView>, names: Seq<Seq<char>>, vals: Seq<ValueView>, n: int)
    requires
        0 <= n <= names.len(),
        names.len() == vals.len(),
    ensures
        row_of(cols, names, vals, n).len() == cols.len(),
        names.no_duplicates() ==> forall|i: int, k: int|
            0 <= i < n && 0 <= k < cols.len() && cols[k].name == names[i] && (forall|j: int|
                0 <= j < k ==> cols[j].name != names[i]) ==> #[trigger] row_of(cols, names, vals, n)[k] == #[trigger] vals[i],
        forall|k: int|
            0 <= k < cols.len() && (forall|i: int| 0 <= i < n ==> cols[k].name != #[trigger] names[i])
                ==> #[trigger] row_of(cols, names, vals, n)[k] == ValueView::Null,
    decreases n,
{
    if n > 0 {
        lemma_row_of_places(cols, names, vals, n - 1);
        let r = row_of(cols, names, vals, n - 1);
        let last = column_index(cols, names[n - 1], 0);
        lemma_column_index_props(cols, names[n - 1], 0);
        if names.no_duplicates() {
            assert forall|i: int, k: int|
                0 <= i < n && 0 <= k < cols.len() && cols[k].name == names[i] && (forall|j: int|
                    0 <= j < k ==> cols[j].name != names[i]) implies #[trigger] row_of(cols, names, vals, n)[k]
                == #[trigger] vals[i] by {
                if i == n - 1 {
                    if last < k {
                        assert(cols[last].name == names[i]);
                    }
                    assert(last == k);
                } else {
                    if last == k {
                        assert(names[i] == names[n - 1]);
                    }
                    assert(r[k] == vals[i]);
                }
            }
        }
        assert forall|k: int|
            0 <= k < cols.len() && (forall|i: int| 0 <= i < n ==> cols[k].name != #[trigger] names[i])
                implies #[trigger] row_of(cols, names, vals, n)[k] == ValueView::Null by {
            assert(cols[k].name != names[n - 1]);
            assert forall|i: int| 0 <= i < n - 1 implies cols[k].name != #[trigger] names[i] by {}
            assert(r[k] == ValueView::Null);
        }
    }
}

/// The column names an INSERT gives values for.
pub open spec fn insert_names(t: TableSchemaView, cols: Option<Seq<Seq<char>>>) -> Seq<Seq<char>> {
    match cols {
        Some(c) => c,
        None => t.columns.map_values(|c: ColumnView| c.name),
    }
}

/// INSERT: the key is the integer given for the primary key; a key already
/// in the table, or a NULL for a NOT NULL column, is refused.
pub open spec fn spec_insert_row(d: DbView, table: Seq<char>, cols: Option<Seq<Seq<char>>>, vals: Seq<ValueView>) -> (DbView, std::result::Result<(), ExecFailure>) {
    match find_table(d.tables, table) {
        None => (d, Err(ExecFailure::NotFound)),
        Some(ti) => {
            let t = d.tables[ti];
            let names = insert_names(t, cols);
            let pk = pk_index(t.columns, 0);
            if names.len() != vals.len() {
                (d, Err(ExecFailure::Constraint))
            } else if pk >= t.columns.len() {
                (d, Err(ExecFailure::Constraint))
            } else if name_index(names, t.columns[pk].name, 0) >= names.len() {
                (d, Err(ExecFailure::Constraint))
            } else {
                match vals[name_index(names, t.columns[pk].name, 0)] {
                    ValueView::Integer(key) => match tree_root(d.trees, table) {
                        None => (d, Err(ExecFailure::NotFound)),
                        Some(root) => match spec_search(d.store.0, root, key) {
                            Err(f) => (d, Err(ExecFailure::Page(f))),
                            Ok(Some(_)) => (d, Err(ExecFailure::Constraint)),
                            Ok(None) => if null_violation(t.columns, names, vals) {
                                (d, Err(ExecFailure::Constraint))
                            } else {
                                let row = row_of(t.columns, names, vals, names.len() as int);
                                let (st, res) = spec_insert(d.store, root, key, row);
                                match res {
                                    Err(f) => (DbView { store: st, ..d }, Err(ExecFailure::Page(f))),
                                    Ok(Some(nr)) => (DbView { store: st, trees: put_tree(d.trees, table, nr), ..d }, Ok(())),
                                    Ok(None) => (DbView { store: st, ..d }, Ok(())),
                                }
                            },
                        },
                    },
                    _ => (d, Err(ExecFailure::TypeMismatch)),
                }
            }
        },
    }
}

/// The row an INSERT into `table` stores (meaningful when the table exists).
pub open spec fn insert_row_model(d: DbView, table: Seq<char>, cols: Option<Seq<Seq<char>>>, vals: Seq<ValueView>) -> Seq<ValueView> {
    let t = d.tables[find_table(d.tables, table)->Some_0];
    let names = insert_names(t, cols);
    row_of(t.columns, names, vals, names.len() as int)
}

/// The key an INSERT into `table` stores its row under: the integer given
/// for the primary key (meaningful when the INSERT's checks pass).
pub open spec fn insert_key(d: DbView, table: Seq<char>, cols: Option<Seq<Seq<char>>>, vals: Seq<ValueView>) -> i64 {
    let t = d.tables[find_table(d.tables, table)->Some_0];
    let names = insert_names(t, cols);
    vals[name_index(names, t.columns[pk_index(t.columns, 0)].name, 0)]->Integer_0
}

/// The table's tree is a single leaf page with room for `row`.
pub open spec fn leaf_root_with_room(d: DbView, table: Seq<char>, row: Seq<ValueView>) -> bool {
    tree_root(d.trees, table) matches Some(root) && {
        let p = d.store.0[root as int];
        &&& root < d.store.0.len()
        &&& d.store.0.len() <= usize::MAX
        &&& p.len() == PAGE_SIZE
        &&& page_type(p) == 1
        &&& page_num_keys(p) < u16::MAX
        &&& encodable_row(row)
        &&& data_end(p, 0, page_num_keys(p) as int, HEADER_SIZE as int) matches Some(end)
            && end + 12 + encode_row(row).len() <= PAGE_SIZE
    }
}

proof fn lemma_selected_all(rows: Seq<(i64, Seq<ValueView>)>, cols: Seq<ColumnView>)
    ensures
        selected(rows, None, cols) == rows,
    decreases rows.len(),
{
    if rows.len() > 0 {
        lemma_selected_all(rows.drop_last(), cols);
        assert(rows.drop_last().push(rows.last()) =~= rows);
    }
}

/// A read after a write, through SQL: when an INSERT into a table whose tree
/// is a single leaf page with room for the row succeeds, a `SELECT *` of the
/// table lists the rows it listed before with the new row (its values as
/// stored) placed by its key, after the keys not above it.
pub proof fn law_insert_then_select(d: DbView, table: Seq<char>, cols: Option<Seq<Seq<char>>>, vals: Seq<ValueView>)
    requires
        spec_insert_row(d, table, cols, vals).1 is Ok,
        leaf_root_with_room(d, table, insert_row_model(d, table, cols, vals)),
        spec_rows(d, table, None) is Ok,
    ensures
        spec_rows(spec_insert_row(d, table, cols, vals).0, table, None) is Ok,
        (spec_rows(spec_insert_row(d, table, cols, vals).0, table, None)->Ok_0).0 == (spec_rows(d, table, None)->Ok_0).0,
        exists|k: int| #[trigger] placed_at(
            (spec_rows(d, table, None)->Ok_0).2,
            (spec_rows(spec_insert_row(d, table, cols, vals).0, table, None)->Ok_0).2,
            k,
            insert_key(d, table, cols, vals),
            stored_row(insert_row_model(d, table, cols, vals)),
        ),
{
    let ti = find_table(d.tables, table)->Some_0;
    let t = d.tables[ti];
    let root = tree_root(d.trees, table)->Some_0;
    let key = insert_key(d, table, cols, vals);
    let row = insert_row_model(d, table, cols, vals);
    let pages = d.store.0;
    let p = pages[root as int];
    assert(crate::btree::spec_find_leaf(pages, root, key) == Ok::<u64, Fault>(root));
    assert(find_entry(p, key, 0, page_num_keys(p) as int, HEADER_SIZE as int) == Ok::<Option<(int, int)>, ()>(None));
    law_insert_then_scan(d.store, root, key, row);
    let st = spec_insert(d.store, root, key, row).0;
    assert(spec_insert_row(d, table, cols, vals).0 == (DbView { store: st, ..d }));
    let rows = spec_scan(pages, root)->Ok_0;
    let after = spec_scan(st.0, root)->Ok_0;
    lemma_selected_all(rows, t.columns);
    lemma_selected_all(after, t.columns);
    assert(spec_rows(d, table, None) == Ok::<(Seq<ColumnView>, u64, Seq<(i64, Seq<ValueView>)>), ExecFailure>((t.columns, root, rows)));
    let d2 = DbView { store: st, ..d };
    assert(spec_rows(d2, table, None) == Ok::<(Seq<ColumnView>, u64, Seq<(i64, Seq<ValueView>)>), ExecFailure>((t.columns, root, after)));
    let k = choose|k: int| #[trigger] placed_at(rows, after, k, key, stored_row(row));
    assert(placed_at(rows, after, k, key, stored_row(row)));
    assert(spec_rows(spec_insert_row(d, table, cols, vals).0, table, None) == spec_rows(d2, table, None));
    assert(placed_at(
        (spec_rows(d, table, None)->Ok_0).2,
        (spec_rows(spec_insert_row(d, table, cols, vals).0, table, None)->Ok_0).2,
        k,
        insert_key(d, table, cols, vals),
        stored_row(insert_row_model(d, table, cols, vals)),
    ));
}

/// The rows that a WHERE clause does not select, in order.
pub open spec fn rejected(rows: Seq<(i64, Seq<ValueView>)>, w: Option<Seq<ConditionView>>, cols: Seq<ColumnView>) -> Seq<(i64, Seq<ValueView>)>
    decreases rows.len(),
{
    if rows.len() == 0 {
        Seq::empty()
    } else {
        let rest = rejected(rows.drop_last(), w, cols);
        if row_selected(rows.last().1, w, cols) { rest } else { rest.push(rows.last()) }
    }
}

/// No key occurs twice.
pub open spec fn unique_keys(rows: Seq<(i64, Seq<ValueView>)>) -> bool {
    forall|i: int, j: int| 0 <= i < j < rows.len() ==> rows[i].0 != rows[j].0
}

/// The rows whose keys are not in `ks`, in order.
pub open spec fn drop_keys(rows: Seq<(i64, Seq<ValueView>)>, ks: Set<i64>) -> Seq<(i64, Seq<ValueView>)>
    decreases rows.len(),
{
    if rows.len() == 0 {
        Seq::empty()
    } else {
        let rest = drop_keys(rows.drop_last(), ks);
        if ks.contains(rows.last().0) { rest } else { rest.push(rows.last()) }
    }
}

/// Some row has key `k`.
pub open spec fn has_key(rows: Seq<(i64, Seq<ValueView>)>, k: i64) -> bool {
    exists|i: int| 0 <= i < rows.len() && (#[trigger] rows[i]).0 == k
}

proof fn lemma_drop_keys_props(rows: Seq<(i64, Seq<ValueView>)>, ks: Set<i64>)
    requires
        unique_keys(rows),
    ensures
        unique_keys(drop_keys(rows, ks)),
        forall|k: i64| #[trigger] has_key(drop_keys(rows, ks), k) <==> has_key(rows, k) && !ks.contains(k),
    decreases rows.len(),
{
    if rows.len() > 0 {
        let p = rows.drop_last();
        let last = rows.last();
        assert(unique_keys(p)) by {
            assert forall|i: int, j: int| 0 <= i < j < p.len() implies p[i].0 != p[j].0 by {
                assert(p[i] == rows[i] && p[j] == rows[j]);
            }
        }
        lemma_drop_keys_props(p, ks);
        let r = drop_keys(p, ks);
        assert(!has_key(p, last.0)) by {
            if has_key(p, last.0) {
                let i = choose|i: int| 0 <= i < p.len() && (#[trigger] p[i]).0 == last.0;
                assert(rows[i] == p[i]);
            }
        }
        if !ks.contains(last.0) {
            assert(unique_keys(r.push(last))) by {
                assert forall|i: int, j: int| 0 <= i < j < r.push(last).len() implies r.push(last)[i].0 != r.push(last)[j].0 by {
                    if j == r.len() {
                        assert(r.push(last)[i] == r[i]);
                        if r[i].0 == last.0 {
                            assert(has_key(r, last.0));
                        }
                    } else {
                        assert(r.push(last)[i] == r[i] && r.push(last)[j] == r[j]);
                    }
                }
            }
        }
        assert forall|k: i64| #[trigger] has_key(drop_keys(rows, ks), k) <==> has_key(rows, k) && !ks.contains(k) by {
            let dr = drop_keys(rows, ks);
            if has_key(rows, k) && !ks.contains(k) {
                let i = choose|i: int| 0 <= i < rows.len() && (#[trigger] rows[i]).0 == k;
                if i == rows.len() - 1 {
                    assert(dr[dr.len() - 1] == last);
                } else {
                    assert(p[i] == rows[i]);
                    assert(has_key(p, k));
                    assert(has_key(r, k));
                    let t = choose|t: int| 0 <= t < r.len() && (#[trigger] r[t]).0 == k;
                    if !ks.contains(last.0) {
                        assert(dr[t] == r[t]);
                    }
                }
            }
            if has_key(dr, k) {
                let t = choose|t: int| 0 <= t < dr.len() && (#[trigger] dr[t]).0 == k;
                if !ks.contains(last.0) && t == r.len() {
                    assert(rows[rows.len() - 1].0 == k);
                } else {
                    assert(dr[t] == r[t]);
                    assert(has_key(r, k));
                    let i = choose|i: int| 0 <= i < p.len() && (#[trigger] p[i]).0 == k;
                    assert(rows[i] == p[i]);
                }
            }
        }
    }
}

/// Dropping keys depends only on the keys the rows have.
proof fn lemma_drop_keys_same(rows: Seq<(i64, Seq<ValueView>)>, a: Set<i64>, b: Set<i64>)
    requires
        forall|k: i64| has_key(rows, k) ==> (a.contains(k) <==> b.contains(k)),
    ensures
        drop_keys(rows, a) == drop_keys(rows, b),
    decreases rows.len(),
{
    if rows.len() > 0 {
        let p = rows.drop_last();
        assert forall|k: i64| has_key(p, k) implies (a.contains(k) <==> b.contains(k)) by {
            let i = choose|i: int| 0 <= i < p.len() && (#[trigger] p[i]).0 == k;
            assert(rows[i] == p[i]);
        }
        lemma_drop_keys_same(p, a, b);
        assert(has_key(rows, rows.last().0)) by {
            assert(rows[rows.len() - 1] == rows.last());
        }
    }
}

/// With distinct keys, dropping one more key removes the one row that has it.
proof fn lemma_drop_one_more(rows: Seq<(i64, Seq<ValueView>)>, ks: Set<i64>, k: i64, j: int)
    requires
        unique_keys(rows),
        !ks.contains(k),
        removed_at(drop_keys(rows, ks), drop_keys(rows, ks).take(j) + drop_keys(rows, ks).skip(j + 1), j, k),
    ensures
        drop_keys(rows, ks.insert(k)) == drop_keys(rows, ks).take(j) + drop_keys(rows, ks).skip(j + 1),
    decreases rows.len(),
{
    let y = drop_keys(rows, ks);
    if rows.len() > 0 {
        let p = rows.drop_last();
        let last = rows.last();
        assert(unique_keys(p)) by {
            assert forall|i: int, t: int| 0 <= i < t < p.len() implies p[i].0 != p[t].0 by {
                assert(p[i] == rows[i] && p[t] == rows[t]);
            }
        }
        lemma_drop_keys_props(p, ks);
        let yp = drop_keys(p, ks);
        assert(!has_key(p, last.0)) by {
            if has_key(p, last.0) {
                let i = choose|i: int| 0 <= i < p.len() && (#[trigger] p[i]).0 == last.0;
                assert(rows[i] == p[i]);
            }
        }
        if last.0 == k {
            assert(y == yp.push(last));
            assert(!has_key(yp, k));
            assert(j == yp.len()) by {
                if j < yp.len() {
                    assert(y[j] == yp[j]);
                    assert(has_key(yp, k));
                }
            }
            assert(y.take(j) + y.skip(j + 1) =~= yp);
            lemma_drop_keys_same(p, ks.insert(k), ks);
        } else {
            if ks.contains(last.0) {
                assert(y == yp);
                lemma_drop_one_more(p, ks, k, j);
            } else {
                assert(y == yp.push(last));
                assert(j < yp.len()) by {
                    if j == yp.len() {
                        assert(y[j] == last);
                    }
                }
                assert forall|u: int| 0 <= u < j implies yp[u].0 != k by {
                    assert(y[u] == yp[u]);
                }
                assert(yp[j] == y[j]);
                lemma_drop_one_more(p, ks, k, j);
                assert(y.take(j) + y.skip(j + 1) =~= (yp.take(j) + yp.skip(j + 1)).push(last));
            }
        }
    }
}

/// Deleting keys that the rows have, each once, drops exactly those keys.
proof fn lemma_delete_all_scan(st: PState, root: u64, keys: Seq<i64>, rows: Seq<(i64, Seq<ValueView>)>)
    requires
        root < st.0.len(),
        st.0[root as int].len() == PAGE_SIZE,
        page_type(st.0[root as int]) == 1,
        spec_scan(st.0, root) == Ok::<Seq<(i64, Seq<ValueView>)>, Fault>(rows),
        unique_keys(rows),
        keys.no_duplicates(),
        forall|i: int| 0 <= i < keys.len() ==> has_key(rows, #[trigger] keys[i]),
    ensures
        delete_all(st, root, keys).1 is Ok,
        delete_all(st, root, keys).0.0.len() == st.0.len(),
        delete_all(st, root, keys).0.0[root as int].len() == PAGE_SIZE,
        page_type(delete_all(st, root, keys).0.0[root as int]) == 1,
        spec_scan(delete_all(st, root, keys).0.0, root) == Ok::<Seq<(i64, Seq<ValueView>)>, Fault>(
            drop_keys(rows, keys.to_set()),
        ),
    decreases keys.len(),
{
    if keys.len() == 0 {
        lemma_drop_keys_same(rows, keys.to_set(), Set::empty());
        lemma_drop_none(rows);
    } else {
        let p = keys.drop_last();
        let k = keys.last();
        assert(p.no_duplicates());
        assert forall|i: int| 0 <= i < p.len() implies has_key(rows, #[trigger] p[i]) by {
            assert(p[i] == keys[i]);
        }
        lemma_delete_all_scan(st, root, p, rows);
        let st1 = delete_all(st, root, p).0;
        let ks = p.to_set();
        assert(!ks.contains(k)) by {
            if ks.contains(k) {
                let i = choose|i: int| 0 <= i < p.len() && p[i] == k;
                assert(keys[i] == keys[keys.len() - 1]);
            }
        }
        lemma_drop_keys_props(rows, ks);
        let y = drop_keys(rows, ks);
        assert(has_key(rows, k)) by {
            assert(keys[keys.len() - 1] == k);
        }
        assert(has_key(y, k));
        let t = choose|t: int| 0 <= t < y.len() && (#[trigger] y[t]).0 == k;
        assert(spec_scan(st1.0, root)->Ok_0 == y);
        assert((spec_scan(st1.0, root)->Ok_0)[t].0 == k);
        law_delete_then_scan(st1, root, k);
        let j = choose|j: int| #[trigger] removed_at(y, spec_scan(spec_delete(st1, root, k).0.0, root)->Ok_0, j, k);
        lemma_drop_one_more(rows, ks, k, j);
        assert(keys.to_set() =~= ks.insert(k)) by {
            assert forall|x: i64| keys.to_set().contains(x) <==> #[trigger] ks.insert(k).contains(x) by {
                if keys.contains(x) {
                    let i = choose|i: int| 0 <= i < keys.len() && keys[i] == x;
                    if i < keys.len() - 1 {
                        assert(p[i] == keys[i]);
                    }
                }
                if p.contains(x) {
                    let i = choose|i: int| 0 <= i < p.len() && p[i] == x;
                    assert(keys[i] == p[i]);
                }
                if x == k {
                    assert(keys[keys.len() - 1] == k);
                }
            }
        }
    }
}

proof fn lemma_selected_keys(rows: Seq<(i64, Seq<ValueView>)>, w: Option<Seq<ConditionView>>, cols: Seq<ColumnView>)
    requires
        unique_keys(rows),
    ensures
        unique_keys(selected(rows, w, cols)),
        forall|k: i64| #[trigger] has_key(selected(rows, w, cols), k) ==> has_key(rows, k),
        rows.len() > 0 && row_selected(rows.last().1, w, cols) ==> has_key(selected(rows, w, cols), rows.last().0),
    decreases rows.len(),
{
    if rows.len() > 0 {
        let p = rows.drop_last();
        let last = rows.last();
        assert(unique_keys(p)) by {
            assert forall|i: int, j: int| 0 <= i < j < p.len() implies p[i].0 != p[j].0 by {
                assert(p[i] == rows[i] && p[j] == rows[j]);
            }
        }
        lemma_selected_keys(p, w, cols);
        let sp = selected(p, w, cols);
        let sr = selected(rows, w, cols);
        assert(!has_key(p, last.0)) by {
            if has_key(p, last.0) {
                let i = choose|i: int| 0 <= i < p.len() && (#[trigger] p[i]).0 == last.0;
                assert(rows[i] == p[i]);
            }
        }
        assert forall|k: i64| #[trigger] has_key(sr, k) implies has_key(rows, k) by {
            let t = choose|t: int| 0 <= t < sr.len() && (#[trigger] sr[t]).0 == k;
            if t < sp.len() {
                assert(sr[t] == sp[t]);
                assert(has_key(sp, k));
                let i = choose|i: int| 0 <= i < p.len() && (#[trigger] p[i]).0 == k;
                assert(rows[i] == p[i]);
            } else {
                assert(rows[rows.len() - 1] == last);
            }
        }
        if row_selected(last.1, w, cols) {
            assert(sr[sp.len() as int] == last);
            assert(unique_keys(sr)) by {
                assert forall|i: int, j: int| 0 <= i < j < sr.len() implies sr[i].0 != sr[j].0 by {
                    assert(sr[i] == sp[i]);
                    if j == sp.len() {
                        if sp[i].0 == last.0 {
                            assert(has_key(sp, last.0));
                        }
                    } else {
                        assert(sr[j] == sp[j]);
                    }
                }
            }
        }
    }
}

proof fn lemma_drop_selected(rows: Seq<(i64, Seq<ValueView>)>, w: Option<Seq<ConditionView>>, cols: Seq<ColumnView>)
    requires
        unique_keys(rows),
    ensures
        drop_keys(rows, keys_of(selected(rows, w, cols)).to_set()) == rejected(rows, w, cols),
    decreases rows.len(),
{
    if rows.len() > 0 {
        let p = rows.drop_last();
        let last = rows.last();
        assert(unique_keys(p)) by {
            assert forall|i: int, j: int| 0 <= i < j < p.len() implies p[i].0 != p[j].0 by {
                assert(p[i] == rows[i] && p[j] == rows[j]);
            }
        }
        lemma_selected_keys(p, w, cols);
        lemma_selected_keys(rows, w, cols);
        lemma_drop_selected(p, w, cols);
        let sp = selected(p, w, cols);
        let sr = selected(rows, w, cols);
        let kp = keys_of(sp).to_set();
        let kr = keys_of(sr).to_set();
        assert(!has_key(p, last.0)) by {
            if has_key(p, last.0) {
                let i = choose|i: int| 0 <= i < p.len() && (#[trigger] p[i]).0 == last.0;
                assert(rows[i] == p[i]);
            }
        }
        assert forall|x: i64| kr.contains(x) <==> has_key(sr, x) by {
            if kr.contains(x) {
                let i = choose|i: int| 0 <= i < keys_of(sr).len() && keys_of(sr)[i] == x;
                assert(sr[i].0 == x);
            }
            if has_key(sr, x) {
                let i = choose|i: int| 0 <= i < sr.len() && (#[trigger] sr[i]).0 == x;
                assert(keys_of(sr)[i] == x);
            }
        }
        assert forall|x: i64| kp.contains(x) <==> has_key(sp, x) by {
            if kp.contains(x) {
                let i = choose|i: int| 0 <= i < keys_of(sp).len() && keys_of(sp)[i] == x;
                assert(sp[i].0 == x);
            }
            if has_key(sp, x) {
                let i = choose|i: int| 0 <= i < sp.len() && (#[trigger] sp[i]).0 == x;
                assert(keys_of(sp)[i] == x);
            }
        }
        assert forall|x: i64| has_key(p, x) implies (kr.contains(x) <==> kp.contains(x)) by {
            if has_key(sr, x) {
                let t = choose|t: int| 0 <= t < sr.len() && (#[trigger] sr[t]).0 == x;
                if t < sp.len() {
                    assert(sr[t] == sp[t]);
                } else {
                    assert(sr[t] == last);
                }
            }
            if has_key(sp, x) {
                let t = choose|t: int| 0 <= t < sp.len() && (#[trigger] sp[t]).0 == x;
                assert(sr[t] == sp[t]);
            }
        }
        lemma_drop_keys_same(p, kr, kp);
        if !row_selected(last.1, w, cols) {
            assert(sr == sp);
            assert(!has_key(sp, last.0));
        }
    }
}

/// A DELETE, through SQL: when a table's tree is a single leaf page and its
/// rows have distinct keys, a DELETE succeeds and a `SELECT *` then lists
/// exactly the rows the WHERE clause does not select, in their order.
pub proof fn law_delete_then_select(d: DbView, table: Seq<char>, w: Option<Seq<ConditionView>>)
    requires
        tree_root(d.trees, table) matches Some(root) && root < d.store.0.len()
            && d.store.0[root as int].len() == PAGE_SIZE && page_type(d.store.0[root as int]) == 1,
        spec_rows(d, table, None) is Ok,
        unique_keys((spec_rows(d, table, None)->Ok_0).2),
    ensures
        spec_delete_rows(d, table, w).1 is Ok,
        spec_rows(spec_delete_rows(d, table, w).0, table, None) == Ok::<(Seq<ColumnView>, u64, Seq<(i64, Seq<ValueView>)>), ExecFailure>((
            (spec_rows(d, table, None)->Ok_0).0,
            (spec_rows(d, table, None)->Ok_0).1,
            rejected((spec_rows(d, table, None)->Ok_0).2, w, (spec_rows(d, table, None)->Ok_0).0),
        )),
{
    let ti = find_table(d.tables, table)->Some_0;
    let t = d.tables[ti];
    let root = tree_root(d.trees, table)->Some_0;
    let rows = spec_scan(d.store.0, root)->Ok_0;
    lemma_selected_all(rows, t.columns);
    let sel = selected(rows, w, t.columns);
    lemma_selected_keys(rows, w, t.columns);
    let keys = keys_of(sel);
    assert(keys.no_duplicates()) by {
        assert forall|i: int, j: int| 0 <= i < keys.len() && 0 <= j < keys.len() && i != j implies keys[i] != keys[j] by {
            if i < j {
                assert(sel[i].0 != sel[j].0);
            } else {
                assert(sel[j].0 != sel[i].0);
            }
        }
    }
    assert forall|i: int| 0 <= i < keys.len() implies has_key(rows, #[trigger] keys[i]) by {
        assert(sel[i].0 == keys[i]);
        assert(has_key(sel, keys[i]));
    }
    lemma_delete_all_scan(d.store, root, keys, rows);
    lemma_drop_selected(rows, w, t.columns);
    let st = delete_all(d.store, root, keys).0;
    assert(spec_delete_rows(d, table, w).0 == (DbView { store: st, ..d }));
    lemma_selected_all(rejected(rows, w, t.columns), t.columns);
}

proof fn lemma_drop_none(rows: Seq<(i64, Seq<ValueView>)>)
    ensures
        drop_keys(rows, Set::empty()) == rows,
    decreases rows.len(),
{
    if rows.len() > 0 {
        lemma_drop_none(rows.drop_last());
        assert(rows.drop_last().push(rows.last()) =~= rows);
    }
}

/// The rows a statement on `table` reads: those of its tree's scan that the
/// WHERE clause selects, with the table's columns.
pub open spec fn spec_rows(d: DbView, table: Seq<char>, w: Option<Seq<ConditionView>>) -> std::result::Result<
    (Seq<ColumnView>, u64, Seq<(i64, Seq<ValueView>)>),
    ExecFailure,
> {
    match find_table(d.tables, table) {
        None => Err(ExecFailure::NotFound),
        Some(ti) => match tree_root(d.trees, table) {
            None => Err(ExecFailure::NotFound),
            Some(root) => match spec_scan(d.store.0, root) {
                Err(f) => Err(ExecFailure::Page(f)),
                Ok(rows) => Ok((d.tables[ti].columns, root, selected(rows, w, d.tables[ti].columns))),
            },
        },
    }
}

/// SELECT: the result columns and rows.
pub open spec fn spec_select_rows(d: DbView, table: Seq<char>, names: Seq<Seq<char>>, w: Option<Seq<ConditionView>>) -> std::result::Result<
    (Seq<ColumnView>, Seq<Seq<ValueView>>),
    ExecFailure,
> {
    match spec_rows(d, table, w) {
        Err(f) => Err(f),
        Ok((cols, _, rows)) => Ok((result_columns(cols, names), result_rows(rows, cols, names))),
    }
}

/// Deleting the keys one after the other; the first failure stops.
pub open spec fn delete_all(st: PState, root: u64, keys: Seq<i64>) -> (PState, std::result::Result<(), Fault>)
    decreases keys.len(),
{
    if keys.len() == 0 {
        (st, Ok(()))
    } else {
        let (st1, r1) = delete_all(st, root, keys.drop_last());
        match r1 {
            Err(f) => (st1, Err(f)),
            Ok(()) => {
                let (st2, r2) = spec_delete(st1, root, keys.last());
                match r2 {
                    Err(f) => (st2, Err(f)),
                    Ok(_) => (st2, Ok(())),
                }
            },
        }
    }
}

/// The keys of rows.
pub open spec fn keys_of(rows: Seq<(i64, Seq<ValueView>)>) -> Seq<i64> {
    rows.map_values(|x: (i64, Seq<ValueView>)| x.0)
}

/// DELETE: removes the selected rows' keys one by one.
pub open spec fn spec_delete_rows(d: DbView, table: Seq<char>, w: Option<Seq<ConditionView>>) -> (DbView, std::result::Result<(), ExecFailure>) {
    match spec_rows(d, table, w) {
        Err(f) => (d, Err(f)),
        Ok((_, root, rows)) => {
            let (st, r) = delete_all(d.store, root, keys_of(rows));
            match r {
                Err(f) => (DbView { store: st, ..d }, Err(ExecFailure::Page(f))),
                Ok(()) => (DbView { store: st, ..d }, Ok(())),
            }
        },
    }
}

/// Applying the assignments in order to a row whose key is `key`: each
/// assignment to a known column checks NOT NULL and sets the value; one to
/// the primary key gives the new key, which must be an integer.
pub open spec fn apply_assignments(row: Seq<ValueView>, key: i64, cols: Seq<ColumnView>, asg: Seq<(Seq<char>, ValueView)>, pk: int) -> std::result::Result<
    (Seq<ValueView>, i64, bool),
    ExecFailure,
>
    decreases asg.len(),
{
    if asg.len() == 0 {
        Ok((row, key, false))
    } else {
        match apply_assignments(row, key, cols, asg.drop_last(), pk) {
            Err(f) => Err(f),
            Ok((r, k, u)) => {
                let name = asg.last().0;
                let v = asg.last().1;
                let ci = column_index(cols, name, 0);
                if ci >= cols.len() {
                    Ok((r, k, u))
                } else if cols[ci].not_null && v is Null {
                    Err(ExecFailure::Constraint)
                } else if ci >= r.len() {
                    Err(ExecFailure::Corrupt)
                } else if ci == pk {
                    match v {
                        ValueView::Integer(x) => Ok((r.update(ci, v), x, true)),
                        _ => Err(ExecFailure::TypeMismatch),
                    }
                } else {
                    Ok((r.update(ci, v), k, u))
                }
            },
        }
    }
}

/// Updating one row: a changed key must be free; the old entry is deleted
/// and the updated row inserted under the new key.
pub open spec fn update_one(st: PState, root: u64, key: i64, row: Seq<ValueView>, cols: Seq<ColumnView>, asg: Seq<(Seq<char>, ValueView)>) -> (PState, u64, std::result::Result<(), ExecFailure>) {
    let pk = pk_index(cols, 0);
    if pk >= cols.len() {
        (st, root, Err(ExecFailure::Constraint))
    } else {
        match apply_assignments(row, key, cols, asg, pk) {
            Err(f) => (st, root, Err(f)),
            Ok((new_row, new_key, changed)) => {
                let taken = if changed && new_key != key {
                    match spec_search(st.0, root, new_key) {
                        Err(f) => Some(ExecFailure::Page(f)),
                        Ok(Some(_)) => Some(ExecFailure::Constraint),
                        Ok(None) => None,
                    }
                } else {
                    None
                };
                match taken {
                    Some(f) => (st, root, Err(f)),
                    None => {
                        let (st1, r1) = spec_delete(st, root, key);
                        match r1 {
                            Err(f) => (st1, root, Err(ExecFailure::Page(f))),
                            Ok(_) => {
                                let (st2, r2) = spec_insert(st1, root, new_key, new_row);
                                match r2 {
                                    Err(f) => (st2, root, Err(ExecFailure::Page(f))),
                                    Ok(Some(nr)) => (st2, nr, Ok(())),
                                    Ok(None) => (st2, root, Ok(())),
                                }
                            },
                        }
                    },
                }
            },
        }
    }
}

/// Updating the rows one after the other; the first failure stops.
pub open spec fn update_all(st: PState, root: u64, rows: Seq<(i64, Seq<ValueView>)>, cols: Seq<ColumnView>, asg: Seq<(Seq<char>, ValueView)>) -> (PState, u64, std::result::Result<(), ExecFailure>)
    decreases rows.len(),
{
    if rows.len() == 0 {
        (st, root, Ok(()))
    } else {
        let (st1, root1, r1) = update_all(st, root, rows.drop_last(), cols, asg);
        match r1 {
            Err(f) => (st1, root1, Err(f)),
            Ok(()) => update_one(st1, root1, rows.last().0, rows.last().1, cols, asg),
        }
    }
}

/// UPDATE: updates the selected rows one by one; the table's tree keeps the
/// root it ends with, also after a failure.
pub open spec fn spec_update_rows(d: DbView, table: Seq<char>, asg: Seq<(Seq<char>, ValueView)>, w: Option<Seq<ConditionView>>) -> (DbView, std::result::Result<(), ExecFailure>) {
    match spec_rows(d, table, w) {
        Err(f) => (d, Err(f)),
        Ok((cols, root, rows)) => {
            let (st, nr, r) = update_all(d.store, root, rows, cols, asg);
            (DbView { store: st, trees: put_tree(d.trees, table, nr), ..d }, r)
        },
    }
}



// ---------------------------------------------------------------------------
// Running statements

/// A query result as a model: its columns and its rows' values.
pub open spec fn result_view(q: QueryResult) -> (Seq<ColumnView>, Seq<Seq<ValueView>>) {
    (cols_view(q.columns@), q.rows@.map_values(|r: Row| r.values.deep_view()))
}

/// An optional list of names as models.
pub open spec fn opt_names(c: Option<Vec<String>>) -> Option<Seq<Seq<char>>> {
    match c {
        Some(v) => Some(strings_view(v@)),
        None => None,
    }
}

/// A copy of `cols` with the same models.
fn copy_columns(cols: &Vec<Column>) -> (c: Vec<Column>)
    ensures
        cols_view(c@) == cols_view(cols@),
{
    let mut c: Vec<Column> = Vec::new();
    let mut i: usize = 0;
    while i < cols.len()
        invariant
            i <= cols@.len(),
            cols_view(c@) == cols_view(cols@).take(i as int),
        decreases cols.len() - i,
    {
        let ghost before = c@;
        c.push(cols[i].duplicate());
        proof {
            assert(cols_view(c@) =~= cols_view(before).push(cols@[i as int]@));
            assert(cols_view(cols@).take(i + 1) =~= cols_view(cols@).take(i as int).push(cols@[i as int]@));
        }
        i = i + 1;
    }
    assert(cols_view(cols@).take(i as int) =~= cols_view(cols@));
    c
}

fn first_primary_key(cols: &Vec<Column>) -> (k: usize)
    ensures
        k == pk_index(cols_view(cols@), 0),
        k <= cols@.len(),
{
    let ghost cv = cols_view(cols@);
    let mut i: usize = 0;
    while i < cols.len()
        invariant
            i <= cols@.len(),
            cv == cols_view(cols@),
            pk_index(cv, 0) == pk_index(cv, i as int),
        decreases cols.len() - i,
    {
        if cols[i].primary_key {
            assert(cv[i as int].primary_key);
            return i;
        }
        i = i + 1;
    }
    i
}

fn name_position(names: &Vec<String>, name: &str) -> (k: usize)
    ensures
        k == name_index(strings_view(names@), name@, 0),
        k <= names@.len(),
{
    let ghost nv = strings_view(names@);
    let mut i: usize = 0;
    while i < names.len()
        invariant
            i <= names@.len(),
            nv == strings_view(names@),
            name_index(nv, name@, 0) == name_index(nv, name@, i as int),
        decreases names.len() - i,
    {
        if str_eq(names[i].as_str(), name) {
            assert(nv[i as int] == name@);
            return i;
        }
        i = i + 1;
    }
    i
}

/// The names of the columns.
fn column_names(cols: &Vec<Column>) -> (names: Vec<String>)
    ensures
        strings_view(names@) == cols_view(cols@).map_values(|c: ColumnView| c.name),
{
    let mut names: Vec<String> = Vec::new();
    let mut i: usize = 0;
    while i < cols.len()
        invariant
            i <= cols@.len(),
            strings_view(names@) == cols_view(cols@).map_values(|c: ColumnView| c.name).take(i as int),
        decreases cols.len() - i,
    {
        let ghost before = names@;
        names.push(cols[i].name.clone());
        proof {
            assert(strings_view(names@) =~= strings_view(before).push(cols@[i as int].name@));
            assert(cols_view(cols@).map_values(|c: ColumnView| c.name).take(i + 1) =~= cols_view(cols@).map_values(
                |c: ColumnView| c.name,
            ).take(i as int).push(cols@[i as int].name@));
        }
        i = i + 1;
    }
    assert(cols_view(cols@).map_values(|c: ColumnView| c.name).take(i as int) =~= cols_view(cols@).map_values(
        |c: ColumnView| c.name,
    ));
    names
}

fn has_null_violation(cols: &Vec<Column>, names: &Vec<String>, vals: &Vec<Value>) -> (b: bool)
    requires
        names@.len() == vals@.len(),
    ensures
        b == null_violation(cols_view(cols@), strings_view(names@), vals.deep_view()),
{
    let ghost cv = cols_view(cols@);
    let ghost nv = strings_view(names@);
    let ghost vv = vals.deep_view();
    let mut i: usize = 0;
    while i < vals.len()
        invariant
            i <= vals@.len(),
            names@.len() == vals@.len(),
            cv == cols_view(cols@),
            nv == strings_view(names@),
            vv == vals.deep_view(),
            forall|j: int| 0 <= j < i ==> {
                let k = #[trigger] column_index(cv, nv[j], 0);
                !(k < cv.len() && cv[k].not_null && vv[j] is Null)
            },
        decreases vals.len() - i,
    {
        let k = column_position(cols, names[i].as_str());
        proof {
            assert(nv[i as int] == names@[i as int]@);
            assert(vv[i as int] == vals@[i as int]@);
        }
        if k < cols.len() && cols[k].not_null {
            match vals[i] {
                Value::Null => {
                    assert(cv[k as int].not_null);
                    return true;
                },
                _ => {},
            }
        }
        i = i + 1;
    }
    false
}

fn build_row(cols: &Vec<Column>, names: &Vec<String>, vals: &Vec<Value>) -> (row: Row)
    requires
        names@.len() == vals@.len(),
    ensures
        row.values.deep_view() == row_of(cols_view(cols@), strings_view(names@), vals.deep_view(), names@.len() as int),
{
    let ghost cv = cols_view(cols@);
    let ghost nv = strings_view(names@);
    let ghost vv = vals.deep_view();
    let mut values: Vec<Value> = Vec::new();
    let mut j: usize = 0;
    while j < cols.len()
        invariant
            j <= cols@.len(),
            values@.len() == j,
            forall|m: int| 0 <= m < j ==> values@[m]@ == ValueView::Null,
        decreases cols.len() - j,
    {
        values.push(Value::Null);
        j = j + 1;
    }
    proof {
        assert(values.deep_view() =~= row_of(cv, nv, vv, 0));
    }
    let mut i: usize = 0;
    while i < names.len()
        invariant
            i <= names@.len(),
            names@.len() == vals@.len(),
            cv == cols_view(cols@),
            nv == strings_view(names@),
            vv == vals.deep_view(),
            values@.len() == cols@.len(),
            values.deep_view() == row_of(cv, nv, vv, i as int),
        decreases names.len() - i,
    {
        let k = column_position(cols, names[i].as_str());
        proof {
            assert(nv[i as int] == names@[i as int]@);
        }
        if k < cols.len() {
            let ghost before = values.deep_view();
            values.set(k, vals[i].duplicate());
            proof {
                assert(values.deep_view() =~= before.update(k as int, vv[i as int]));
            }
        }
        i = i + 1;
    }
    Row::new(values)
}

fn apply_row(row: &Row, key: i64, cols: &Vec<Column>, asg: &Vec<(String, Value)>, pk: usize) -> (r: Result<(Row, i64, bool)>)
    ensures
        match apply_assignments(row.values.deep_view(), key, cols_view(cols@), assignments_view(asg@), pk as int) {
            Ok((nr, nk, u)) => r matches Ok((row2, k2, u2)) && row2.values.deep_view() == nr && k2 == nk && u2 == u,
            Err(f) => r matches Err(e) && failure_is(e, f),
        },
{
    let ghost cv = cols_view(cols@);
    let ghost av = assignments_view(asg@);
    let mut values = copy_values(&row.values);
    let mut new_key = key;
    let mut changed = false;
    let mut i: usize = 0;
    proof {
        assert(av.take(0) =~= Seq::<(Seq<char>, ValueView)>::empty());
    }
    while i < asg.len()
        invariant
            i <= asg@.len(),
            cv == cols_view(cols@),
            av == assignments_view(asg@),
            apply_assignments(row.values.deep_view(), key, cv, av.take(i as int), pk as int) == Ok::<
                (Seq<ValueView>, i64, bool),
                ExecFailure,
            >((values.deep_view(), new_key, changed)),
        decreases asg.len() - i,
    {
        proof {
            assert(av.take(i + 1).drop_last() =~= av.take(i as int));
            assert(av.take(i + 1).last() == av[i as int]);
            assert(av[i as int] == (asg@[i as int].0@, asg@[i as int].1@));
        }
        let ci = column_position(cols, asg[i].0.as_str());
        if ci < cols.len() {
            let is_null = match asg[i].1 {
                Value::Null => true,
                _ => false,
            };
            if cols[ci].not_null && is_null {
                proof {
                    lemma_apply_stops(row.values.deep_view(), key, cv, av, pk as int, i + 1);
                }
                return Err(VelociError::ConstraintViolation(String::from_str("Column cannot be NULL")));
            }
            if ci >= values.len() {
                proof {
                    lemma_apply_stops(row.values.deep_view(), key, cv, av, pk as int, i + 1);
                }
                return Err(VelociError::Corruption(String::from_str("Row has fewer values than the table has columns")));
            }
            let ghost before = values.deep_view();
            values.set(ci, asg[i].1.duplicate());
            proof {
                assert(values.deep_view() =~= before.update(ci as int, av[i as int].1));
            }
            if ci == pk {
                match asg[i].1.as_integer() {
                    Ok(x) => {
                        new_key = x;
                        changed = true;
                    },
                    Err(e) => {
                        proof {
                            lemma_apply_stops(row.values.deep_view(), key, cv, av, pk as int, i + 1);
                        }
                        return Err(e);
                    },
                }
            }
        }
        i = i + 1;
    }
    proof {
        assert(av.take(i as int) =~= av);
    }
    Ok((Row::new(values), new_key, changed))
}

proof fn lemma_apply_stops(row: Seq<ValueView>, key: i64, cols: Seq<ColumnView>, av: Seq<(Seq<char>, ValueView)>, pk: int, k: int)
    requires
        0 <= k <= av.len(),
        apply_assignments(row, key, cols, av.take(k), pk) is Err,
    ensures
        apply_assignments(row, key, cols, av, pk) == apply_assignments(row, key, cols, av.take(k), pk),
    decreases av.len() - k,
{
    if k < av.len() {
        assert(av.take(k + 1).drop_last() =~= av.take(k));
        lemma_apply_stops(row, key, cols, av, pk, k + 1);
    } else {
        assert(av.take(k) =~= av);
    }
}

proof fn lemma_delete_stops(st: PState, root: u64, keys: Seq<i64>, k: int)
    requires
        0 <= k <= keys.len(),
        delete_all(st, root, keys.take(k)).1 is Err,
    ensures
        delete_all(st, root, keys) == delete_all(st, root, keys.take(k)),
    decreases keys.len() - k,
{
    if k < keys.len() {
        assert(keys.take(k + 1).drop_last() =~= keys.take(k));
        lemma_delete_stops(st, root, keys, k + 1);
    } else {
        assert(keys.take(k) =~= keys);
    }
}

proof fn lemma_update_stops(st: PState, root: u64, rows: Seq<(i64, Seq<ValueView>)>, cols: Seq<ColumnView>, asg: Seq<(Seq<char>, ValueView)>, k: int)
    requires
        0 <= k <= rows.len(),
        update_all(st, root, rows.take(k), cols, asg).2 is Err,
    ensures
        update_all(st, root, rows, cols, asg) == update_all(st, root, rows.take(k), cols, asg),
    decreases rows.len() - k,
{
    if k < rows.len() {
        assert(rows.take(k + 1).drop_last() =~= rows.take(k));
        lemma_update_stops(st, root, rows, cols, asg, k + 1);
    } else {
        assert(rows.take(k) =~= rows);
    }
}

impl Executor {
    /// The state that statements work on.
    pub open spec fn db(&self) -> DbView {
        DbView { store: self.store(), tables: self.tables(), trees: self.trees() }
    }

    /// Sets the root of table `name`'s tree, or adds a tree for it.
    fn put_tree_exec(&mut self, name: String, tree: BTree)
        ensures
            final(self).trees() == put_tree(old(self).trees(), name@, tree.root()),
            final(self).store() == old(self).store(),
            final(self).tables() == old(self).tables(),
            final(self).txn_next() == old(self).txn_next(),
            final(self).txn_active() == old(self).txn_active(),
            final(self).wf() == old(self).wf(),
    {
        proof {
            lemma_tree_index(self.trees(), name@, 0);
        }
        match self.tree_position(name.as_str()) {
            Some(i) => {
                let ghost nv = name@;
                let ghost rt = tree.root();
                self.btrees.set(i, (name, tree));
                proof {
                    assert(self.trees() =~= put_tree(old(self).trees(), nv, rt));
                }
            },
            None => {
                let ghost nv = name@;
                let ghost rt = tree.root();
                self.btrees.push((name, tree));
                proof {
                    assert(self.trees() =~= put_tree(old(self).trees(), nv, rt));
                }
            },
        }
    }

    fn execute_create_table(&mut self, name: String, columns: Vec<Column>) -> (r: Result<()>)
        requires
            old(self).wf(),
        ensures
            final(self).wf(),
            final(self).db() == spec_create_table(old(self).db(), name@, cols_view(columns@)).0,
            done(r, spec_create_table(old(self).db(), name@, cols_view(columns@)).1),
            final(self).txn_next() == old(self).txn_next(),
            final(self).txn_active() == old(self).txn_active(),
    {
        let tree = match BTree::new(&mut self.pager) {
            Ok(t) => t,
            Err(e) => return Err(e),
        };
        let root = tree.root_page();
        let ghost cv = cols_view(columns@);
        let ts = TableSchema { name: name.clone(), columns, root_page: root };
        assert(ts@.columns =~= cv);
        match self.schema.create_table(ts) {
            Ok(()) => {},
            Err(e) => return Err(e),
        }
        self.put_tree_exec(name, tree);
        Ok(())
    }

    fn execute_drop_table(&mut self, name: &str) -> (r: Result<()>)
        requires
            old(self).wf(),
        ensures
            final(self).wf(),
            final(self).db() == spec_drop_table(old(self).db(), name@).0,
            done(r, spec_drop_table(old(self).db(), name@).1),
            final(self).txn_next() == old(self).txn_next(),
            final(self).txn_active() == old(self).txn_active(),
    {
        match self.schema.drop_table(name) {
            Ok(()) => {},
            Err(e) => return Err(e),
        }
        proof {
            lemma_tree_index(self.trees(), name@, 0);
        }
        match self.tree_position(name) {
            Some(i) => {
                self.btrees.remove(i);
                proof {
                    assert(self.trees() =~= drop_tree(old(self).trees(), name@));
                }
            },
            None => {},
        }
        Ok(())
    }

    fn execute_insert(&mut self, table: &str, columns: Option<Vec<String>>, values: Vec<Value>) -> (r: Result<()>)
        requires
            old(self).wf(),
        ensures
            final(self).wf(),
            final(self).db() == spec_insert_row(
                old(self).db(),
                table@,
                opt_names(columns),
                values.deep_view(),
            ).0,
            done(
                r,
                spec_insert_row(
                    old(self).db(),
                    table@,
                    opt_names(columns),
                    values.deep_view(),
                ).1,
            ),
            txn_after(old(self).txn_next(), old(self).txn_active(), final(self).txn_next(), final(self).txn_active(), r is Ok),
    {
        let mut txn = self.begin_locked(table, LockType::Exclusive);
        proof {
            assert(self.txn_active().remove(old(self).txn_next()) =~= old(self).txn_active().remove(old(self).txn_next()));
        }
        let ghost d = old(self).db();
        let ghost cols_opt = opt_names(columns);
        let cols = match self.schema.get_table(table) {
            Ok(t) => copy_columns(&t.columns),
            Err(e) => return Err(e),
        };
        let ghost ti = find_table(d.tables, table@)->0;
        assert(cols_view(cols@) =~= d.tables[ti].columns);
        let names = match columns {
            Some(c) => c,
            None => column_names(&cols),
        };
        assert(strings_view(names@) == insert_names(d.tables[ti], cols_opt));
        if names.len() != values.len() {
            return Err(VelociError::ConstraintViolation(String::from_str("Column count doesn't match value count")));
        }
        let pk = first_primary_key(&cols);
        if pk >= cols.len() {
            return Err(VelociError::ConstraintViolation(String::from_str("No primary key defined")));
        }
        let vi = name_position(&names, cols[pk].name.as_str());
        if vi >= names.len() {
            return Err(VelociError::ConstraintViolation(String::from_str("Primary key value not provided")));
        }
        proof {
            assert(values.deep_view()[vi as int] == values@[vi as int]@);
        }
        let key = match values[vi].as_integer() {
            Ok(k) => k,
            Err(e) => return Err(e),
        };
        let ti_exec = match self.tree_position(table) {
            Some(i) => i,
            None => return Err(VelociError::NotFound(String::from_str("Table not initialized"))),
        };
        let mut tree = BTree::from_root(self.btrees[ti_exec].1.root_page());
        proof {
            lemma_tree_index(self.trees(), table@, 0);
            assert(self.trees()[ti_exec as int] == (self.btrees@[ti_exec as int].0@, self.btrees@[ti_exec as int].1.root()));
            assert(tree_root(d.trees, table@) == Some(tree.root()));
        }
        let ghost root0 = tree.root();
        match tree.search(&self.pager, key) {
            Ok(Some(_)) => return Err(VelociError::ConstraintViolation(String::from_str("Primary key already exists"))),
            Ok(None) => {},
            Err(e) => return Err(e),
        }
        if has_null_violation(&cols, &names, &values) {
            return Err(VelociError::ConstraintViolation(String::from_str("Column cannot be NULL")));
        }
        let row = build_row(&cols, &names, &values);
        match tree.insert(&mut self.pager, key, &row) {
            Ok(()) => {},
            Err(e) => return Err(e),
        }
        let tname = self.btrees[ti_exec].0.clone();
        proof {
            assert(tname@ == table@);
            if tree.root() == root0 {
                assert(put_tree(d.trees, table@, root0) =~= d.trees);
            }
        }
        self.put_tree_exec(tname, tree);
        let ghost mid = self.txn_active();
        self.finish(table, &mut txn);
        proof {
            assert(self.txn_active() =~= old(self).txn_active().remove(old(self).txn_next()));
            assert(self.txn_active().remove(old(self).txn_next()) =~= old(self).txn_active().remove(old(self).txn_next()));
        }
        Ok(())
    }
}



/// What a statement that reads rows has read: the table's columns, the
/// position of its tree, and the selected rows.
pub struct ReadRows {
    pub columns: Vec<Column>,
    pub tree_at: usize,
    pub tree: BTree,
    pub rows: Vec<(i64, Row)>,
}

impl Executor {
    /// Starts a transaction, locks `table`, and reads the rows `w` selects.
    fn read_rows(&mut self, table: &str, w: &Option<WhereClause>, lt: LockType) -> (res: (Transaction, Result<ReadRows>))
        requires
            old(self).wf(),
        ensures
            final(self).wf(),
            final(self).db() == old(self).db(),
            final(self).pager_of() == old(self).pager_of(),
            res.0.spec_id() == old(self).txn_next(),
            res.0.spec_state() == TransactionState::Active,
            final(self).txn_next() == (if old(self).txn_next() == u64::MAX { 0 } else { old(self).txn_next() + 1 }),
            final(self).txn_active() == old(self).txn_active().insert(res.0.spec_id(), res.0),
            match spec_rows(old(self).db(), table@, opt_where_view(*w)) {
                Ok((cols, root, rows)) => res.1 matches Ok(rr) && cols_view(rr.columns@) == cols && rr.tree.root() == root
                    && rows_view(rr.rows@) == rows && rr.tree_at < old(self).trees().len()
                    && old(self).trees()[rr.tree_at as int] == (table@, root)
                    && tree_index(old(self).trees(), table@, 0) == rr.tree_at,
                Err(f) => res.1 matches Err(e) && failure_is(e, f),
            },
    {
        let txn = self.begin_locked(table, lt);
        let ghost d = old(self).db();
        let cols = match self.schema.get_table(table) {
            Ok(t) => copy_columns(&t.columns),
            Err(e) => return (txn, Err(e)),
        };
        let ghost ti = find_table(d.tables, table@)->0;
        assert(cols_view(cols@) =~= d.tables[ti].columns);
        let at = match self.tree_position(table) {
            Some(i) => i,
            None => return (txn, Err(VelociError::NotFound(String::from_str("Table not initialized")))),
        };
        let tree = BTree::from_root(self.btrees[at].1.root_page());
        proof {
            lemma_tree_index(self.trees(), table@, 0);
            assert(self.trees()[at as int] == (self.btrees@[at as int].0@, self.btrees@[at as int].1.root()));
        }
        let all = match tree.scan(&self.pager) {
            Ok(v) => v,
            Err(e) => return (txn, Err(e)),
        };
        let rows = select_rows(all, w, &cols);
        (txn, Ok(ReadRows { columns: cols, tree_at: at, tree, rows }))
    }

    fn execute_select(&mut self, table: &str, columns: Vec<String>, w: Option<WhereClause>) -> (r: Result<QueryResult>)
        requires
            old(self).wf(),
        ensures
            final(self).wf(),
            final(self).db() == old(self).db(),
            match spec_select_rows(old(self).db(), table@, strings_view(columns@), opt_where_view(w)) {
                Ok(res) => r matches Ok(q) && result_view(q) == res,
                Err(f) => r matches Err(e) && failure_is(e, f),
            },
            txn_after(old(self).txn_next(), old(self).txn_active(), final(self).txn_next(), final(self).txn_active(), r is Ok),
    {
        let (mut txn, read) = self.read_rows(table, &w, LockType::Shared);
        proof {
            assert(self.txn_active().remove(old(self).txn_next()) =~= old(self).txn_active().remove(old(self).txn_next()));
        }
        let rr = match read {
            Ok(rr) => rr,
            Err(e) => return Err(e),
        };
        let ghost cv = cols_view(rr.columns@);
        let ghost nv = strings_view(columns@);
        let all_columns = star(&columns);
        let result_cols = if all_columns { copy_columns(&rr.columns) } else { pick_columns(&rr.columns, &columns) };
        let ghost rv = rows_view(rr.rows@);
        let mut out: Vec<Row> = Vec::new();
        let mut i: usize = 0;
        while i < rr.rows.len()
            invariant
                i <= rr.rows@.len(),
                rv == rows_view(rr.rows@),
                cv == cols_view(rr.columns@),
                nv == strings_view(columns@),
                all_columns == is_star(nv),
                out@.map_values(|r: Row| r.values.deep_view()) == result_rows(rv.take(i as int), cv, nv),
            decreases rr.rows.len() - i,
        {
            let row = if all_columns {
                Row::new(copy_values(&rr.rows[i].1.values))
            } else {
                project_row(&rr.rows[i].1, &rr.columns, &columns)
            };
            let ghost before = out@;
            out.push(row);
            proof {
                assert(rv[i as int] == (rr.rows@[i as int].0, rr.rows@[i as int].1.values.deep_view()));
                assert(out@.map_values(|r: Row| r.values.deep_view()) =~= before.map_values(|r: Row| r.values.deep_view()).push(
                    result_row(rv[i as int].1, cv, nv),
                ));
                assert(result_rows(rv.take(i + 1), cv, nv) =~= result_rows(rv.take(i as int), cv, nv).push(
                    result_row(rv[i as int].1, cv, nv),
                ));
            }
            i = i + 1;
        }
        proof {
            assert(rv.take(i as int) =~= rv);
        }
        self.finish(table, &mut txn);
        proof {
            assert(self.txn_active() =~= old(self).txn_active().remove(old(self).txn_next()));
            assert(self.txn_active().remove(old(self).txn_next()) =~= old(self).txn_active().remove(old(self).txn_next()));
        }
        Ok(QueryResult::new(result_cols, out))
    }

    fn execute_delete(&mut self, table: &str, w: Option<WhereClause>) -> (r: Result<()>)
        requires
            old(self).wf(),
        ensures
            final(self).wf(),
            final(self).db() == spec_delete_rows(old(self).db(), table@, opt_where_view(w)).0,
            done(r, spec_delete_rows(old(self).db(), table@, opt_where_view(w)).1),
            txn_after(old(self).txn_next(), old(self).txn_active(), final(self).txn_next(), final(self).txn_active(), r is Ok),
    {
        let (mut txn, read) = self.read_rows(table, &w, LockType::Exclusive);
        proof {
            assert(self.txn_active().remove(old(self).txn_next()) =~= old(self).txn_active().remove(old(self).txn_next()));
        }
        let rr = match read {
            Ok(rr) => rr,
            Err(e) => return Err(e),
        };
        let mut tree = rr.tree;
        let ghost st0 = self.store();
        let ghost root = tree.root();
        let ghost keys = keys_of(rows_view(rr.rows@));
        let mut i: usize = 0;
        proof {
            assert(keys.take(0) =~= Seq::<i64>::empty());
        }
        while i < rr.rows.len()
            invariant
                i <= rr.rows@.len(),
                keys == keys_of(rows_view(rr.rows@)),
                tree.root() == root,
                self.wf(),
                self.tables() == old(self).tables(),
                self.trees() == old(self).trees(),
                self.txn_next() == (if old(self).txn_next() == u64::MAX { 0 } else { old(self).txn_next() + 1 }),
                self.txn_active().remove(old(self).txn_next()) == old(self).txn_active().remove(old(self).txn_next()),
                self.txn_active().contains_key(old(self).txn_next()),
                self.txn_active()[old(self).txn_next()] == txn,
                txn.spec_id() == old(self).txn_next(),
                txn.spec_state() == TransactionState::Active,
                delete_all(st0, root, keys.take(i as int)) == (self.store(), Ok::<(), Fault>(())),
                st0 == old(self).store(),
                spec_rows(old(self).db(), table@, opt_where_view(w)) == Ok::<(Seq<ColumnView>, u64, Seq<(i64, Seq<ValueView>)>), ExecFailure>(
                    (cols_view(rr.columns@), root, rows_view(rr.rows@)),
                ),
            decreases rr.rows.len() - i,
        {
            proof {
                assert(keys.take(i + 1).drop_last() =~= keys.take(i as int));
                assert(keys.take(i + 1).last() == rr.rows@[i as int].0);
            }
            let key = rr.rows[i].0;
            match tree.delete(&mut self.pager, key) {
                Ok(_) => {},
                Err(e) => {
                    proof {
                        lemma_delete_stops(st0, root, keys, i + 1);
                    }
                    return Err(e);
                },
            }
            i = i + 1;
        }
        proof {
            assert(keys.take(i as int) =~= keys);
        }
        self.finish(table, &mut txn);
        proof {
            assert(self.txn_active() =~= old(self).txn_active().remove(old(self).txn_next()));
            assert(self.txn_active().remove(old(self).txn_next()) =~= old(self).txn_active().remove(old(self).txn_next()));
        }
        Ok(())
    }
}



/// What a non-query statement does; a SELECT is refused here.
pub open spec fn spec_execute(d: DbView, st: StatementView) -> (DbView, std::result::Result<(), ExecFailure>) {
    match st {
        StatementView::CreateTable { name, columns } => spec_create_table(d, name, columns),
        StatementView::DropTable { name } => spec_drop_table(d, name),
        StatementView::Insert { table, columns, values } => spec_insert_row(d, table, columns, values),
        StatementView::Update { table, assignments, where_clause } => spec_update_rows(d, table, assignments, where_clause),
        StatementView::Delete { table, where_clause } => spec_delete_rows(d, table, where_clause),
        StatementView::Select { .. } => (d, Err(ExecFailure::Parse)),
    }
}

/// Whether a statement runs in a transaction of its own.
pub open spec fn in_transaction(st: StatementView) -> bool {
    st is Insert || st is Update || st is Delete
}

/// The effect of a statement on the transaction manager.
pub open spec fn txn_effect(old_next: u64, old_active: Map<u64, Transaction>, new_next: u64, new_active: Map<u64, Transaction>, uses: bool, ok: bool) -> bool {
    if uses {
        txn_after(old_next, old_active, new_next, new_active, ok)
    } else {
        new_next == old_next && new_active == old_active
    }
}

/// What a query does; only a SELECT is a query.
pub open spec fn spec_query(d: DbView, st: StatementView) -> std::result::Result<(Seq<ColumnView>, Seq<Seq<ValueView>>), ExecFailure> {
    match st {
        StatementView::Select { table, columns, where_clause } => spec_select_rows(d, table, columns, where_clause),
        _ => Err(ExecFailure::Parse),
    }
}

impl Executor {
    fn update_row(&mut self, tree: &mut BTree, key: i64, row: &Row, cols: &Vec<Column>, asg: &Vec<(String, Value)>) -> (r: Result<()>)
        requires
            old(self).wf(),
        ensures
            final(self).wf(),
            final(self).tables() == old(self).tables(),
            final(self).trees() == old(self).trees(),
            final(self).txn_next() == old(self).txn_next(),
            final(self).txn_active() == old(self).txn_active(),
            ({
                let u = update_one(old(self).store(), old(tree).root(), key, row.values.deep_view(), cols_view(cols@), assignments_view(asg@));
                final(self).store() == u.0 && final(tree).root() == u.1 && done(r, u.2)
            }),
    {
        let pk = first_primary_key(cols);
        if pk >= cols.len() {
            return Err(VelociError::ConstraintViolation(String::from_str("No primary key defined")));
        }
        let (new_row, new_key, changed) = match apply_row(row, key, cols, asg, pk) {
            Ok(x) => x,
            Err(e) => return Err(e),
        };
        if changed && new_key != key {
            match tree.search(&self.pager, new_key) {
                Ok(Some(_)) => return Err(VelociError::ConstraintViolation(String::from_str("Primary key already exists"))),
                Ok(None) => {},
                Err(e) => return Err(e),
            }
        }
        match tree.delete(&mut self.pager, key) {
            Ok(_) => {},
            Err(e) => return Err(e),
        }
        match tree.insert(&mut self.pager, new_key, &new_row) {
            Ok(()) => {},
            Err(e) => return Err(e),
        }
        Ok(())
    }

    fn execute_update(&mut self, table: &str, asg: Vec<(String, Value)>, w: Option<WhereClause>) -> (r: Result<()>)
        requires
            old(self).wf(),
        ensures
            final(self).wf(),
            final(self).db() == spec_update_rows(old(self).db(), table@, assignments_view(asg@), opt_where_view(w)).0,
            done(r, spec_update_rows(old(self).db(), table@, assignments_view(asg@), opt_where_view(w)).1),
            txn_after(old(self).txn_next(), old(self).txn_active(), final(self).txn_next(), final(self).txn_active(), r is Ok),
    {
        let (mut txn, read) = self.read_rows(table, &w, LockType::Exclusive);
        proof {
            assert(self.txn_active().remove(old(self).txn_next()) =~= old(self).txn_active().remove(old(self).txn_next()));
        }
        let rr = match read {
            Ok(rr) => rr,
            Err(e) => return Err(e),
        };
        let mut tree = BTree::from_root(rr.tree.root_page());
        let tname = self.btrees[rr.tree_at].0.clone();
        proof {
            assert(self.trees()[rr.tree_at as int] == (self.btrees@[rr.tree_at as int].0@, self.btrees@[rr.tree_at as int].1.root()));
        }
        let ghost st0 = self.store();
        let ghost root0 = tree.root();
        let ghost rv = rows_view(rr.rows@);
        let ghost cv = cols_view(rr.columns@);
        let ghost av = assignments_view(asg@);
        let mut i: usize = 0;
        proof {
            assert(rv.take(0) =~= Seq::<(i64, Seq<ValueView>)>::empty());
        }
        while i < rr.rows.len()
            invariant
                i <= rr.rows@.len(),
                rv == rows_view(rr.rows@),
                cv == cols_view(rr.columns@),
                av == assignments_view(asg@),
                tname@ == table@,
                self.wf(),
                self.tables() == old(self).tables(),
                self.trees() == old(self).trees(),
                self.txn_next() == (if old(self).txn_next() == u64::MAX { 0 } else { old(self).txn_next() + 1 }),
                self.txn_active().remove(old(self).txn_next()) == old(self).txn_active().remove(old(self).txn_next()),
                self.txn_active().contains_key(old(self).txn_next()),
                self.txn_active()[old(self).txn_next()] == txn,
                txn.spec_id() == old(self).txn_next(),
                txn.spec_state() == TransactionState::Active,
                update_all(st0, root0, rv.take(i as int), cv, av) == (self.store(), tree.root(), Ok::<(), ExecFailure>(())),
                st0 == old(self).store(),
                spec_rows(old(self).db(), table@, opt_where_view(w)) == Ok::<(Seq<ColumnView>, u64, Seq<(i64, Seq<ValueView>)>), ExecFailure>(
                    (cv, root0, rv),
                ),
            decreases rr.rows.len() - i,
        {
            proof {
                assert(rv.take(i + 1).drop_last() =~= rv.take(i as int));
                assert(rv.take(i + 1).last() == rv[i as int]);
                assert(rv[i as int] == (rr.rows@[i as int].0, rr.rows@[i as int].1.values.deep_view()));
            }
            match self.update_row(&mut tree, rr.rows[i].0, &rr.rows[i].1, &rr.columns, &asg) {
                Ok(()) => {},
                Err(e) => {
                    proof {
                        lemma_update_stops(st0, root0, rv, cv, av, i + 1);
                    }
                    self.put_tree_exec(tname, tree);
                    return Err(e);
                },
            }
            i = i + 1;
        }
        proof {
            assert(rv.take(i as int) =~= rv);
        }
        self.put_tree_exec(tname, tree);
        self.finish(table, &mut txn);
        proof {
            assert(self.txn_active() =~= old(self).txn_active().remove(old(self).txn_next()));
            assert(self.txn_active().remove(old(self).txn_next()) =~= old(self).txn_active().remove(old(self).txn_next()));
        }
        Ok(())
    }

    /// Runs a statement that is not a query; a SELECT is refused with
    /// `ParseError`.
    #[verifier::spinoff_prover]
    pub fn execute(&mut self, statement: Statement) -> (r: Result<()>)
        requires
            old(self).wf(),
        ensures
            final(self).wf(),
            final(self).db() == spec_execute(old(self).db(), statement@).0,
            done(r, spec_execute(old(self).db(), statement@).1),
            txn_effect(old(self).txn_next(), old(self).txn_active(), final(self).txn_next(), final(self).txn_active(), in_transaction(statement@), r is Ok),
    {
        match statement {
            Statement::CreateTable { name, columns } => self.execute_create_table(name, columns),
            Statement::DropTable { name } => self.execute_drop_table(name.as_str()),
            Statement::Insert { table, columns, values } => self.execute_insert(table.as_str(), columns, values),
            Statement::Update { table, assignments, where_clause } => self.execute_update(table.as_str(), assignments, where_clause),
            Statement::Delete { table, where_clause } => self.execute_delete(table.as_str(), where_clause),
            Statement::Select { .. } => Err(VelociError::ParseError(String::from_str("Statement should be executed with query()"))),
        }
    }

    /// Runs a query; only a SELECT is one, anything else is refused with
    /// `ParseError`.
    pub fn query(&mut self, statement: Statement) -> (r: Result<QueryResult>)
        requires
            old(self).wf(),
        ensures
            final(self).wf(),
            final(self).db() == old(self).db(),
            match spec_query(old(self).db(), statement@) {
                Ok(res) => r matches Ok(q) && result_view(q) == res,
                Err(f) => r matches Err(e) && failure_is(e, f),
            },
            txn_effect(old(self).txn_next(), old(self).txn_active(), final(self).txn_next(), final(self).txn_active(), statement@ is Select, r is Ok),
    {
        match statement {
            Statement::Select { table, columns, where_clause } => self.execute_select(table.as_str(), columns, where_clause),
            _ => Err(VelociError::ParseError(String::from_str("Statement is not a query"))),
        }
    }
}

} // verus!
