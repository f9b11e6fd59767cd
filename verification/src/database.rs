//! The database: SQL text in, statement effects and query results out.
//!
//! The pages live in memory; the page writes a statement makes are recorded
//! and handed out with [`Database::take_pending_writes`], for the caller to
//! store.

use vstd::prelude::*;
use crate::btree::PState;
use crate::executor::{
    Executor, DbView, spec_execute, spec_query, done, failure_is, result_view, txn_effect, in_transaction,
};
use crate::parser::{Parser, spec_parse, StatementView};
use crate::storage::{Pager, Page, Schema, write_view, zero_page};
use crate::transaction::{TransactionManager, Transaction};
use crate::types::{PageId, QueryResult, Result, VelociError};

verus! {

/// An open database.
pub struct Database {
    executor: Executor,
}

impl Database {
    /// The state statements work on.
    pub closed spec fn db(&self) -> DbView {
        self.executor.db()
    }

    /// The number of the next transaction.
    pub closed spec fn txn_next(&self) -> u64 {
        self.executor.txn_next()
    }

    /// The active transactions.
    pub closed spec fn txn_active(&self) -> Map<u64, Transaction> {
        self.executor.txn_active()
    }

    /// The executor's invariant holds.
    pub closed spec fn wf(&self) -> bool {
        self.executor.wf()
    }

    /// Opens a database whose file holds `file_pages`; a new, empty file
    /// gets a first page. No tables are known yet.
    pub fn open(file_pages: Vec<Page>) -> (d: Database)
        ensures
            d.wf(),
            file_pages@.len() > 0 ==> d.db().store.0 == file_pages@.map_values(|q: Page| q@),
            file_pages@.len() > 0 ==> d.db().store.1 == Seq::<(PageId, Seq<u8>)>::empty(),
            file_pages@.len() == 0 ==> d.db().store.0 == seq![zero_page()],
            file_pages@.len() == 0 ==> d.db().store.1 == seq![(0u64, zero_page())],
            d.db().tables == Seq::<crate::storage::TableSchemaView>::empty(),
            d.db().trees == Seq::<(Seq<char>, u64)>::empty(),
            d.txn_next() == 1,
            d.txn_active() == Map::<u64, Transaction>::empty(),
    {
        let mut pager = Pager::open(file_pages);
        if pager.num_pages() == 0 {
            let _ = pager.allocate_page();
            proof {
                assert(pager.pages() =~= seq![zero_page()]);
                assert(pager.pending() =~= seq![(0u64, zero_page())]);
            }
        }
        let executor = Executor::new(pager, Vec::new(), Schema::new(), TransactionManager::new());
        proof {
            assert(executor.trees() =~= Seq::<(Seq<char>, u64)>::empty());
            assert(executor.tables() =~= Seq::<crate::storage::TableSchemaView>::empty());
        }
        Database { executor }
    }

    /// Parses and runs a statement that is not a query.
    pub fn execute(&mut self, sql: &str) -> (r: Result<()>)
        requires
            old(self).wf(),
        ensures
            final(self).wf(),
            match spec_parse(sql@) {
                None => r matches Err(e) && e is ParseError && final(self).db() == old(self).db()
                    && final(self).txn_next() == old(self).txn_next() && final(self).txn_active() == old(self).txn_active(),
                Some(st) => final(self).db() == spec_execute(old(self).db(), st).0 && done(r, spec_execute(old(self).db(), st).1)
                    && txn_effect(old(self).txn_next(), old(self).txn_active(), final(self).txn_next(), final(self).txn_active(), in_transaction(st), r is Ok),
            },
    {
        let parser = Parser::new();
        let statement = match parser.parse(sql) {
            Ok(s) => s,
            Err(e) => return Err(e),
        };
        self.executor.execute(statement)
    }

    /// Parses and runs a query.
    pub fn query(&mut self, sql: &str) -> (r: Result<QueryResult>)
        requires
            old(self).wf(),
        ensures
            final(self).wf(),
            final(self).db() == old(self).db(),
            match spec_parse(sql@) {
                None => r matches Err(e) && e is ParseError && final(self).txn_next() == old(self).txn_next()
                    && final(self).txn_active() == old(self).txn_active(),
                Some(st) => (match spec_query(old(self).db(), st) {
                    Ok(res) => r matches Ok(q) && result_view(q) == res,
                    Err(f) => r matches Err(e) && failure_is(e, f),
                }) && txn_effect(old(self).txn_next(), old(self).txn_active(), final(self).txn_next(), final(self).txn_active(), st is Select, r is Ok),
            },
    {
        let parser = Parser::new();
        let statement = match parser.parse(sql) {
            Ok(s) => s,
            Err(e) => return Err(e),
        };
        self.executor.query(statement)
    }

    /// The names of the tables, in the order they were created.
    pub fn list_tables(&self) -> (names: Vec<String>)
        ensures
            names@.map_values(|n: String| n@) == self.db().tables.map_values(|t: crate::storage::TableSchemaView| t.name),
    {
        self.executor.list_tables()
    }

    /// Hands out the page writes not yet handed out, oldest first, for the
    /// caller to store.
    pub fn take_pending_writes(&mut self) -> (w: Vec<(PageId, Page)>)
        ensures
            w@.map_values(|x: (PageId, Page)| write_view(x)) == old(self).db().store.1,
            final(self).db().store.0 == old(self).db().store.0,
            final(self).db().store.1 == Seq::<(PageId, Seq<u8>)>::empty(),
            final(self).db().tables == old(self).db().tables,
            final(self).db().trees == old(self).db().trees,
            final(self).txn_next() == old(self).txn_next(),
            final(self).txn_active() == old(self).txn_active(),
            final(self).wf() == old(self).wf(),
    {
        self.executor.take_pending_writes()
    }
}

} // verus!
