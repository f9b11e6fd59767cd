//! Pages, the page store and the table catalogue.
//!
//! The page store holds every page of the database in memory; the pages that
//! a statement writes are also recorded, in order, so that the caller can
//! write them through to the database file.

use vstd::prelude::*;
use crate::types::{Column, ColumnView, PageId, Result, VelociError};

verus! {

broadcast use vstd::array::group_array_axioms;

/// Size of a database page in bytes.
pub const PAGE_SIZE: usize = 4096;

/// Number of pages the file cache holds.
pub const CACHE_SIZE: usize = 1024;

/// A fixed-size database page.
#[derive(Clone, Debug)]
pub struct Page {
    data: [u8; PAGE_SIZE],
}

impl View for Page {
    type V = Seq<u8>;

    closed spec fn view(&self) -> Seq<u8> {
        self.data@
    }
}

/// A page of zero bytes.
pub open spec fn zero_page() -> Seq<u8> {
    Seq::new(PAGE_SIZE as nat, |i: int| 0u8)
}

impl Page {
    /// A page of zero bytes.
    pub fn new() -> (p: Page)
        ensures
            p@ == zero_page(),
    {
        let p = Page { data: [0u8; PAGE_SIZE] };
        assert(p@ =~= zero_page());
        p
    }

    /// The bytes of the page.
    pub fn data(&self) -> (d: &[u8])
        ensures
            d@ == self@,
            d@.len() == PAGE_SIZE,
    {
        self.data.as_slice()
    }

    /// The bytes of the page, for writing.
    pub fn data_mut(&mut self) -> (d: &mut [u8])
        ensures
            d@ == old(self)@,
            d@.len() == PAGE_SIZE,
            final(self)@ == final(d)@,
    {
        vstd::array::ref_mut_array_unsizing_coercion(&mut self.data)
    }

    /// A copy of the page with the same bytes.
    pub fn copy(&self) -> (p: Page)
        ensures
            p@ == self@,
    {
        Page { data: self.data }
    }

    /// A page holding the given bytes.
    pub fn from_bytes(bytes: &Vec<u8>) -> (p: Page)
        requires
            bytes@.len() == PAGE_SIZE,
        ensures
            p@ == bytes@,
    {
        let mut data = [0u8; PAGE_SIZE];
        let mut i: usize = 0;
        while i < PAGE_SIZE
            invariant
                i <= PAGE_SIZE,
                bytes@.len() == PAGE_SIZE,
                forall|j: int| 0 <= j < i ==> data@[j] == bytes@[j],
            decreases PAGE_SIZE - i,
        {
            data[i] = bytes[i];
            i = i + 1;
        }
        let p = Page { data };
        assert(p@ =~= bytes@);
        p
    }

    /// The bytes of the page as a vector.
    pub fn to_bytes(&self) -> (v: Vec<u8>)
        ensures
            v@ == self@,
    {
        let mut v: Vec<u8> = Vec::new();
        let mut i: usize = 0;
        while i < PAGE_SIZE
            invariant
                i <= PAGE_SIZE,
                v@ == self@.subrange(0, i as int),
            decreases PAGE_SIZE - i,
        {
            v.push(self.data[i]);
            i = i + 1;
        }
        assert(v@ =~= self@);
        v
    }
}

impl Default for Page {
    fn default() -> (p: Page)
        ensures
            p@ == zero_page(),
    {
        Page::new()
    }
}

/// The page store of a database.
pub struct Pager {
    pages: Vec<Page>,
    writes: Vec<(PageId, Page)>,
}

/// A page write, as the page's number and its bytes.
pub open spec fn write_view(w: (PageId, Page)) -> (PageId, Seq<u8>) {
    (w.0, w.1@)
}

impl Pager {
    /// The contents of the pages, by page number.
    pub closed spec fn pages(&self) -> Seq<Seq<u8>> {
        self.pages@.map_values(|p: Page| p@)
    }

    /// The page writes not yet handed out, oldest first.
    pub closed spec fn pending(&self) -> Seq<(PageId, Seq<u8>)> {
        self.writes@.map_values(|w: (PageId, Page)| write_view(w))
    }

    /// Every page holds exactly `PAGE_SIZE` bytes.
    pub open spec fn wf(&self) -> bool {
        &&& self.pages().len() <= usize::MAX
        &&& forall|i: int| 0 <= i < self.pages().len() ==> #[trigger] self.pages()[i].len() == PAGE_SIZE
    }

    /// An empty store, as for a new database file.
    pub fn new() -> (p: Pager)
        ensures
            p.pages() == Seq::<Seq<u8>>::empty(),
            p.pending() == Seq::<(PageId, Seq<u8>)>::empty(),
            p.wf(),
    {
        let p = Pager { pages: Vec::new(), writes: Vec::new() };
        assert(p.pages() =~= Seq::<Seq<u8>>::empty());
        assert(p.pending() =~= Seq::<(PageId, Seq<u8>)>::empty());
        p
    }

    /// A store holding the pages of an existing database file.
    pub fn open(file_pages: Vec<Page>) -> (p: Pager)
        ensures
            p.pages() == file_pages@.map_values(|q: Page| q@),
            p.pending() == Seq::<(PageId, Seq<u8>)>::empty(),
            p.wf(),
    {
        let n = file_pages.len();
        let p = Pager { pages: file_pages, writes: Vec::new() };
        assert(p.pending() =~= Seq::<(PageId, Seq<u8>)>::empty());
        assert forall|i: int| 0 <= i < p.pages().len() implies #[trigger] p.pages()[i].len() == PAGE_SIZE by {
            assert(p.pages()[i] == p.pages@[i]@);
            assert(p.pages@[i]@ == p.pages@[i].data@);
        }
        p
    }

    /// The number of pages.
    pub fn num_pages(&self) -> (n: u64)
        ensures
            n == self.pages().len(),
    {
        self.pages.len() as u64
    }

    /// A copy of page `page_id`; `NotFound` past the last page.
    pub fn read_page(&self, page_id: PageId) -> (r: Result<Page>)
        ensures
            page_id < self.pages().len() ==> (r matches Ok(p) && p@ == self.pages()[page_id as int]),
            page_id >= self.pages().len() ==> r matches Err(VelociError::NotFound(_)),
    {
        if page_id < self.num_pages() {
            assert(self.pages().len() == self.pages@.len());
            assert(page_id < self.pages.len());
            let idx = page_id as usize;
            assert(self.pages()[idx as int] == self.pages@[idx as int]@);
            let p = self.pages[idx].copy();
            Ok(p)
        } else {
            Err(VelociError::NotFound(String::from_str("Page out of bounds")))
        }
    }

    /// Writes `page` as page `page_id`, growing the store with zero pages when
    /// `page_id` lies past its end, and records the write.
    pub fn write_page(&mut self, page_id: PageId, page: &Page) -> (r: Result<()>)
        requires
            old(self).wf(),
        ensures
            final(self).wf(),
            page_id < usize::MAX ==> r is Ok && final(self).pages() == spec_write(
                old(self).pages(),
                page_id as int,
                page@,
            ) && final(self).pending() == old(self).pending().push((page_id, page@)),
            page_id >= usize::MAX ==> (r matches Err(VelociError::StorageError(_)) && *final(self)
                == *old(self)),
    {
        if page_id >= usize::MAX as u64 {
            return Err(VelociError::StorageError(String::from_str("Page number beyond the address space")));
        }
        let ghost old_pages = self.pages();
        let idx = page_id as usize;
        while self.pages.len() < idx
            invariant
                self.pages() == extended(old_pages, self.pages().len() as int),
                old_pages.len() <= self.pages().len(),
                self.pages().len() <= idx || self.pages().len() == old_pages.len(),
                self.wf(),
                self.writes == old(self).writes,
                old_pages == old(self).pages(),
                old(self).wf(),
            decreases idx - self.pages.len(),
        {
            let ghost before = self.pages@;
            self.pages.push(Page::new());
            proof {
                assert(self.pages@ == before.push(self.pages@.last()));
                assert(self.pages() =~= before.map_values(|p: Page| p@).push(zero_page()));
                assert(self.pages() =~= extended(old_pages, self.pages().len() as int));
            }
        }
        let copy = page.copy();
        let ghost mid = self.pages();
        if idx < self.pages.len() {
            self.pages.set(idx, copy);
            proof {
                assert(self.pages() =~= mid.update(idx as int, page@));
            }
        } else {
            self.pages.push(copy);
            proof {
                assert(self.pages() =~= mid.push(page@));
            }
        }
        self.writes.push((page_id, page.copy()));
        proof {
            assert(self.pages() =~= spec_write(old_pages, page_id as int, page@));
            assert(self.pending() =~= old(self).pending().push((page_id, page@)));
        }
        Ok(())
    }

    /// Allocates a new zero page at the end of the store and writes it.
    pub fn allocate_page(&mut self) -> (r: Result<PageId>)
        requires
            old(self).wf(),
        ensures
            final(self).wf(),
            old(self).pages().len() < usize::MAX ==> r == Ok::<PageId, VelociError>(
                old(self).pages().len() as PageId,
            ) && final(self).pages() == old(self).pages().push(zero_page())
                && final(self).pending() == old(self).pending().push(
                (old(self).pages().len() as PageId, zero_page()),
            ),
            old(self).pages().len() >= usize::MAX ==> (r matches Err(VelociError::StorageError(_))
                && *final(self) == *old(self)),
    {
        let page_id = self.num_pages();
        let page = Page::new();
        match self.write_page(page_id, &page) {
            Ok(()) => {
                proof {
                    assert(spec_write(old(self).pages(), page_id as int, zero_page()) =~= old(
                        self,
                    ).pages().push(zero_page()));
                }
                Ok(page_id)
            },
            Err(e) => Err(e),
        }
    }

    /// Replaces page `page_id` in memory without recording a write.
    pub(crate) fn set_cached_page(&mut self, page_id: PageId, page: &Page)
        requires
            old(self).wf(),
        ensures
            final(self).wf(),
            final(self).pending() == old(self).pending(),
            page_id < old(self).pages().len() ==> final(self).pages() == old(self).pages().update(
                page_id as int,
                page@,
            ),
            page_id >= old(self).pages().len() ==> final(self).pages() == old(self).pages(),
    {
        if page_id < self.num_pages() {
            assert(self.pages().len() == self.pages@.len());
            assert(page_id < self.pages.len());
            self.pages.set(page_id as usize, page.copy());
            proof {
                assert(self.pages() =~= old(self).pages().update(page_id as int, page@));
            }
        }
    }

    /// Hands out the recorded page writes, oldest first, and forgets them.
    pub fn take_pending_writes(&mut self) -> (w: Vec<(PageId, Page)>)
        ensures
            w@.map_values(|x: (PageId, Page)| write_view(x)) == old(self).pending(),
            final(self).pending() == Seq::<(PageId, Seq<u8>)>::empty(),
            final(self).pages() == old(self).pages(),
    {
        let mut taken: Vec<(PageId, Page)> = Vec::new();
        std::mem::swap(&mut taken, &mut self.writes);
        proof {
            assert(self.pending() =~= Seq::<(PageId, Seq<u8>)>::empty());
        }
        taken
    }
}

/// The schema of one table: its name, columns and root page.
#[derive(Debug, Clone)]
pub struct TableSchema {
    pub name: String,
    pub columns: Vec<Column>,
    pub root_page: PageId,
}

/// The model of a [`TableSchema`].
pub struct TableSchemaView {
    pub name: Seq<char>,
    pub columns: Seq<ColumnView>,
    pub root_page: PageId,
}

impl View for TableSchema {
    type V = TableSchemaView;

    open spec fn view(&self) -> TableSchemaView {
        TableSchemaView {
            name: self.name@,
            columns: self.columns@.map_values(|c: Column| c@),
            root_page: self.root_page,
        }
    }
}

/// The index of the table named `name` in `tables`, if there is one.
pub open spec fn find_table(tables: Seq<TableSchemaView>, name: Seq<char>) -> Option<int>
    decreases tables.len(),
{
    if tables.len() == 0 {
        None
    } else if tables.last().name == name {
        Some(tables.len() - 1)
    } else {
        find_table(tables.drop_last(), name)
    }
}

/// The tables of a database, each under a distinct name.
pub struct Schema {
    tables: Vec<TableSchema>,
}

impl Schema {
    /// The tables, in the order they were created.
    pub closed spec fn tables(&self) -> Seq<TableSchemaView> {
        self.tables@.map_values(|t: TableSchema| t@)
    }

    /// No two tables share a name.
    pub open spec fn wf(&self) -> bool {
        forall|i: int, j: int|
            0 <= i < j < self.tables().len() ==> #[trigger] self.tables()[i].name
                != #[trigger] self.tables()[j].name
    }

    /// A schema with no tables.
    pub fn new() -> (s: Schema)
        ensures
            s.tables() == Seq::<TableSchemaView>::empty(),
            s.wf(),
    {
        let s = Schema { tables: Vec::new() };
        assert(s.tables() =~= Seq::<TableSchemaView>::empty());
        s
    }

    fn position(&self, name: &str) -> (r: Option<usize>)
        ensures
            r is Some <==> find_table(self.tables(), name@) is Some,
            r matches Some(i) ==> find_table(self.tables(), name@) == Some(i as int) && i < self.tables().len() && self.tables()[i as int].name == name@,
    {
        let mut i = self.tables.len();
        assert(self.tables().subrange(0, i as int) =~= self.tables());
        while i > 0
            invariant
                i <= self.tables@.len(),
                self.tables().len() == self.tables@.len(),
                find_table(self.tables(), name@) == find_table(self.tables().subrange(0, i as int), name@),
            decreases i,
        {
            let ghost pre = self.tables().subrange(0, i as int);
            assert(pre.drop_last() =~= self.tables().subrange(0, i - 1));
            if crate::text::str_eq(self.tables[i - 1].name.as_str(), name) {
                assert(self.tables()[i - 1] == self.tables@[i - 1]@);
                return Some(i - 1);
            }
            i = i - 1;
        }
        assert(self.tables().subrange(0, 0) =~= Seq::<TableSchemaView>::empty());
        None
    }

    /// Adds a table; `ConstraintViolation` when a table of that name exists.
    pub fn create_table(&mut self, table: TableSchema) -> (r: Result<()>)
        requires
            old(self).wf(),
        ensures
            final(self).wf(),
            find_table(old(self).tables(), table.name@) is Some ==> (r matches Err(
                VelociError::ConstraintViolation(_),
            ) && final(self).tables() == old(self).tables()),
            find_table(old(self).tables(), table.name@) is None ==> (r is Ok && final(self).tables()
                == old(self).tables().push(table@)),
    {
        if self.position(table.name.as_str()).is_some() {
            return Err(VelociError::ConstraintViolation(String::from_str("Table already exists")));
        }
        let ghost t = table@;
        self.tables.push(table);
        proof {
            assert(self.tables() =~= old(self).tables().push(t));
            assert forall|i: int, j: int|
                0 <= i < j < self.tables().len() implies #[trigger] self.tables()[i].name
                != #[trigger] self.tables()[j].name by {
                if j == self.tables().len() - 1 {
                    lemma_find_table_none(old(self).tables(), t.name, i);
                }
            }
        }
        Ok(())
    }

    /// The table named `name`; `NotFound` when there is none.
    pub fn get_table(&self, name: &str) -> (r: Result<&TableSchema>)
        ensures
            find_table(self.tables(), name@) matches Some(i) ==> (r matches Ok(t) && t@
                == self.tables()[i]),
            find_table(self.tables(), name@) is None ==> r matches Err(VelociError::NotFound(_)),
    {
        match self.position(name) {
            Some(i) => {
                assert(self.tables()[i as int] == self.tables@[i as int]@);
                Ok(&self.tables[i])
            },
            None => Err(VelociError::NotFound(String::from_str("Table not found"))),
        }
    }

    /// Removes the table named `name`; `NotFound` when there is none.
    pub fn drop_table(&mut self, name: &str) -> (r: Result<()>)
        requires
            old(self).wf(),
        ensures
            final(self).wf(),
            find_table(old(self).tables(), name@) matches Some(i) ==> (r is Ok
                && final(self).tables() == old(self).tables().remove(i)),
            find_table(old(self).tables(), name@) is None ==> (r matches Err(
                VelociError::NotFound(_),
            ) && final(self).tables() == old(self).tables()),
    {
        match self.position(name) {
            Some(i) => {
                self.tables.remove(i);
                proof {
                    assert(self.tables() =~= old(self).tables().remove(i as int));
                    assert forall|a: int, b: int|
                        0 <= a < b < self.tables().len() implies #[trigger] self.tables()[a].name
                        != #[trigger] self.tables()[b].name by {
                        let a0 = if a < i { a } else { a + 1 };
                        let b0 = if b < i { b } else { b + 1 };
                        assert(self.tables()[a] == old(self).tables()[a0]);
                        assert(self.tables()[b] == old(self).tables()[b0]);
                    }
                }
                Ok(())
            },
            None => Err(VelociError::NotFound(String::from_str("Table not found"))),
        }
    }

    /// The names of the tables.
    pub fn list_tables(&self) -> (names: Vec<String>)
        ensures
            names@.map_values(|n: String| n@) == self.tables().map_values(|t: TableSchemaView| t.name),
    {
        let mut names: Vec<String> = Vec::new();
        let mut i: usize = 0;
        while i < self.tables.len()
            invariant
                i <= self.tables@.len(),
                self.tables().len() == self.tables@.len(),
                names@.map_values(|n: String| n@) == self.tables().subrange(0, i as int).map_values(
                    |t: TableSchemaView| t.name,
                ),
            decreases self.tables.len() - i,
        {
            let ghost prev = names@;
            names.push(self.tables[i].name.clone());
            proof {
                assert(self.tables()[i as int] == self.tables@[i as int]@);
                assert(names@.map_values(|n: String| n@) =~= prev.map_values(|n: String| n@).push(self.tables()[i as int].name));
                assert(self.tables().subrange(0, i + 1) =~= self.tables().subrange(0, i as int).push(self.tables()[i as int]));
                assert(names@.map_values(|n: String| n@) =~= self.tables().subrange(0, i + 1).map_values(
                    |t: TableSchemaView| t.name,
                ));
            }
            i = i + 1;
        }
        assert(self.tables().subrange(0, i as int) =~= self.tables());
        names
    }
}

/// When no table is named `name`, none of them has that name.
pub proof fn lemma_find_table_none(tables: Seq<TableSchemaView>, name: Seq<char>, i: int)
    requires
        find_table(tables, name) is None,
        0 <= i < tables.len(),
    ensures
        tables[i].name != name,
    decreases tables.len(),
{
    if i < tables.len() - 1 {
        lemma_find_table_none(tables.drop_last(), name, i);
    }
}

/// The store `pages` extended with zero pages up to length `n`.
pub open spec fn extended(pages: Seq<Seq<u8>>, n: int) -> Seq<Seq<u8>> {
    if n <= pages.len() {
        pages
    } else {
        pages + Seq::new((n - pages.len()) as nat, |i: int| zero_page())
    }
}

/// The store `pages` after writing `page` as page `id`.
pub open spec fn spec_write(pages: Seq<Seq<u8>>, id: int, page: Seq<u8>) -> Seq<Seq<u8>> {
    if id < pages.len() {
        pages.update(id, page)
    } else {
        extended(pages, id).push(page)
    }
}

} // verus!
