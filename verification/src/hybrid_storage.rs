//! Hybrid row/column storage: rows are kept row-major, and columnar
//! projections of them are materialised on demand and cached; access
//! statistics choose between the layouts.

use vstd::prelude::*;
use crate::types::{Column, ColumnView, Result, Value, ValueView, VelociError, spec_value_size};
use crate::simd::{VectorBatch, VectorColumn, VectorColumnView};
use crate::text::debug_value;

verus! {

/// Storage layout type.
#[derive(Debug, Clone, Copy, PartialEq, Eq, Structural)]
pub enum StorageLayout {
    /// Row-oriented storage.
    RowMajor,
    /// Column-oriented storage.
    ColumnMajor,
    /// Row-major with columnar projections.
    Hybrid,
}

/// Table access statistics.
#[derive(Debug, Clone, Copy)]
pub struct TableStats {
    pub inserts: u64,
    pub row_accesses: u64,
    pub column_accesses: u64,
    pub full_scans: u64,
}

/// The layout that the access counts call for: column-major when column
/// accesses are more than twice the row accesses, row-major when row accesses
/// are more than twice the column accesses, hybrid otherwise.
pub open spec fn workload(column_accesses: int, row_accesses: int) -> StorageLayout {
    if column_accesses > row_accesses * 2 {
        StorageLayout::ColumnMajor
    } else if row_accesses > column_accesses * 2 {
        StorageLayout::RowMajor
    } else {
        StorageLayout::Hybrid
    }
}

/// The name of a workload.
pub open spec fn workload_name(l: StorageLayout) -> Seq<char> {
    match l {
        StorageLayout::ColumnMajor => "OLAP (Analytical)"@,
        StorageLayout::RowMajor => "OLTP (Transactional)"@,
        StorageLayout::Hybrid => "Hybrid (Mixed)"@,
    }
}

/// The doublings that classifying the counts computes stay within `u64`.
pub open spec fn classifiable(column_accesses: u64, row_accesses: u64) -> bool {
    &&& row_accesses * 2 <= u64::MAX
    &&& column_accesses <= row_accesses * 2 ==> column_accesses * 2 <= u64::MAX
}

/// Classifies the counts (see [`workload`]).
fn classify(column_accesses: u64, row_accesses: u64) -> (l: StorageLayout)
    requires
        classifiable(column_accesses, row_accesses),
    ensures
        l == workload(column_accesses as int, row_accesses as int),
{
    if column_accesses > row_accesses * 2 {
        StorageLayout::ColumnMajor
    } else if row_accesses > column_accesses * 2 {
        StorageLayout::RowMajor
    } else {
        StorageLayout::Hybrid
    }
}

impl Default for TableStats {
    fn default() -> (s: TableStats)
        ensures
            s.inserts == 0 && s.row_accesses == 0 && s.column_accesses == 0 && s.full_scans == 0,
    {
        TableStats { inserts: 0, row_accesses: 0, column_accesses: 0, full_scans: 0 }
    }
}

impl TableStats {
    /// Counts an insert.
    pub fn record_insert(&mut self)
        requires
            old(self).inserts < u64::MAX,
        ensures
            *final(self) == (TableStats { inserts: (old(self).inserts + 1) as u64, ..*old(self) }),
    {
        self.inserts = self.inserts + 1;
    }

    /// Counts a row access.
    pub fn record_row_access(&mut self)
        requires
            old(self).row_accesses < u64::MAX,
        ensures
            *final(self) == (TableStats { row_accesses: (old(self).row_accesses + 1) as u64, ..*old(self) }),
    {
        self.row_accesses = self.row_accesses + 1;
    }

    /// Counts a column access.
    pub fn record_column_access(&mut self)
        requires
            old(self).column_accesses < u64::MAX,
        ensures
            *final(self) == (TableStats { column_accesses: (old(self).column_accesses + 1) as u64, ..*old(self) }),
    {
        self.column_accesses = self.column_accesses + 1;
    }

    /// Counts a full scan.
    pub fn record_full_scan(&mut self)
        requires
            old(self).full_scans < u64::MAX,
        ensures
            *final(self) == (TableStats { full_scans: (old(self).full_scans + 1) as u64, ..*old(self) }),
    {
        self.full_scans = self.full_scans + 1;
    }

    /// The kind of workload the counts show.
    pub fn workload_type(&self) -> (s: &str)
        requires
            classifiable(self.column_accesses, self.row_accesses),
        ensures
            s@ == workload_name(workload(self.column_accesses as int, self.row_accesses as int)),
    {
        match classify(self.column_accesses, self.row_accesses) {
            StorageLayout::ColumnMajor => "OLAP (Analytical)",
            StorageLayout::RowMajor => "OLTP (Transactional)",
            StorageLayout::Hybrid => "Hybrid (Mixed)",
        }
    }
}

/// The serialized size of a sequence of values.
pub open spec fn values_size(vs: Seq<ValueView>) -> int
    decreases vs.len(),
{
    if vs.len() == 0 {
        0
    } else {
        values_size(vs.drop_last()) + spec_value_size(vs.last())
    }
}

proof fn lemma_value_size_pos(v: ValueView)
    ensures
        spec_value_size(v) >= 1,
{
}

proof fn lemma_values_size_prefix(vs: Seq<ValueView>, k: int)
    requires
        0 <= k <= vs.len(),
    ensures
        0 <= values_size(vs.take(k)) <= values_size(vs),
    decreases vs.len(),
{
    if vs.len() > 0 {
        lemma_value_size_pos(vs.last());
        if k == vs.len() {
            assert(vs.take(k) =~= vs);
            lemma_values_size_prefix(vs.drop_last(), k - 1);
        } else {
            lemma_values_size_prefix(vs.drop_last(), k);
            assert(vs.drop_last().take(k) =~= vs.take(k));
        }
    } else {
        assert(vs.take(k) =~= vs);
    }
}

/// A row-oriented record.
#[derive(Debug, Clone)]
pub struct RowRecord {
    pub key: i64,
    pub values: Vec<Value>,
}

impl View for RowRecord {
    type V = (i64, Seq<ValueView>);

    open spec fn view(&self) -> (i64, Seq<ValueView>) {
        (self.key, self.values.deep_view())
    }
}

/// A copy of a vector of values with the same model.
pub fn copy_values(vs: &Vec<Value>) -> (c: Vec<Value>)
    ensures
        c.deep_view() == vs.deep_view(),
{
    let mut c: Vec<Value> = Vec::new();
    let mut i: usize = 0;
    while i < vs.len()
        invariant
            i <= vs@.len(),
            c@.len() == i,
            forall|k: int| 0 <= k < i ==> (#[trigger] c@[k])@ == vs@[k]@,
        decreases vs.len() - i,
    {
        c.push(vs[i].duplicate());
        i = i + 1;
    }
    assert(c.deep_view() =~= vs.deep_view());
    c
}

impl RowRecord {
    /// A record with the given key and values.
    pub fn new(key: i64, values: Vec<Value>) -> (r: RowRecord)
        ensures
            r@ == (key, values.deep_view()),
    {
        RowRecord { key, values }
    }

    /// The size in bytes: 8 for the key and the serialized size of each value.
    pub fn size_bytes(&self) -> (n: usize)
        requires
            8 + values_size(self.values.deep_view()) <= usize::MAX,
        ensures
            n == 8 + values_size(self.values.deep_view()),
    {
        let ghost vs = self.values.deep_view();
        let mut n: usize = 8;
        let mut i: usize = 0;
        while i < self.values.len()
            invariant
                i <= vs.len(),
                vs == self.values.deep_view(),
                8 + values_size(vs) <= usize::MAX,
                n == 8 + values_size(vs.take(i as int)),
            decreases self.values.len() - i,
        {
            proof {
                assert(vs.take(i + 1).drop_last() =~= vs.take(i as int));
                lemma_values_size_prefix(vs, i + 1);
            }
            n = n + self.values[i].size_bytes();
            i = i + 1;
        }
        assert(vs.take(i as int) =~= vs);
        n
    }

    /// A copy of the record with the same model.
    pub fn duplicate(&self) -> (r: RowRecord)
        ensures
            r@ == self@,
    {
        RowRecord { key: self.key, values: copy_values(&self.values) }
    }
}

/// `s` extended with `fill` up to length `n` (unchanged if already as long).
pub open spec fn padded<T>(s: Seq<T>, n: int, fill: T) -> Seq<T> {
    if s.len() >= n {
        s
    } else {
        s + Seq::new((n - s.len()) as nat, |_i: int| fill)
    }
}

fn pad<T: Copy>(v: &mut Vec<T>, n: usize, fill: T)
    ensures
        final(v)@ == padded(old(v)@, n as int, fill),
{
    let ghost start = v@;
    while v.len() < n
        invariant
            start.len() <= v@.len(),
            v@.len() <= start.len() || v@.len() <= n,
            v@ =~= start + Seq::new((v@.len() - start.len()) as nat, |_i: int| fill),
        decreases n - v.len(),
    {
        v.push(fill);
    }
    proof {
        if start.len() >= n {
            assert(v@ =~= start);
        }
    }
}

fn pad_text(v: &mut Vec<String>, n: usize)
    ensures
        final(v)@.map_values(|t: String| t@) == padded(old(v)@.map_values(|t: String| t@), n as int, Seq::<char>::empty()),
{
    let ghost start = v@.map_values(|t: String| t@);
    while v.len() < n
        invariant
            start.len() <= v@.len(),
            v@.len() <= start.len() || v@.len() <= n,
            v@.map_values(|t: String| t@) =~= start + Seq::new((v@.len() - start.len()) as nat, |_i: int| Seq::<char>::empty()),
        decreases n - v.len(),
    {
        let ghost before = v@;
        v.push(String::new());
        assert(v@.map_values(|t: String| t@) =~= before.map_values(|t: String| t@).push(Seq::<char>::empty()));
    }
    proof {
        if start.len() >= n {
            assert(v@.map_values(|t: String| t@) =~= start);
        }
    }
}

/// Column-oriented storage for a single column.
#[derive(Debug, Clone)]
pub struct ColumnStorage {
    pub name: String,
    pub data: VectorColumn,
    pub null_bitmap: Vec<bool>,
}

/// The model of a [`ColumnStorage`].
pub struct ColumnStorageView {
    pub name: Seq<char>,
    pub data: VectorColumnView,
    pub nulls: Seq<bool>,
}

impl View for ColumnStorage {
    type V = ColumnStorageView;

    open spec fn view(&self) -> ColumnStorageView {
        ColumnStorageView { name: self.name@, data: self.data@, nulls: self.null_bitmap@ }
    }
}

/// The value at `i` of a column: `None` past its null bitmap or its data,
/// NULL where the bitmap says so.
pub open spec fn column_get(c: ColumnStorageView, i: int) -> Option<ValueView> {
    if i >= c.nulls.len() {
        None
    } else if c.nulls[i] {
        Some(ValueView::Null)
    } else {
        match c.data {
            VectorColumnView::Integer(v) => if i < v.len() { Some(ValueView::Integer(v[i])) } else { None },
            VectorColumnView::Real(v) => if i < v.len() { Some(ValueView::Real(v[i])) } else { None },
            VectorColumnView::Text(v) => if i < v.len() { Some(ValueView::Text(v[i])) } else { None },
            VectorColumnView::Null(_) => Some(ValueView::Null),
        }
    }
}

/// A column after setting the value at `i`: the bitmap is padded with
/// `false` to cover `i`; NULL sets the bit; a value of the column's type is
/// written (the data padded with zeros or empty texts) and clears the bit; a
/// value of another storable type leaves the data as it is.
pub open spec fn column_set(c: ColumnStorageView, i: int, v: ValueView) -> ColumnStorageView {
    let nulls = padded(c.nulls, i + 1, false);
    match v {
        ValueView::Null => ColumnStorageView { nulls: nulls.update(i, true), ..c },
        ValueView::Integer(x) => match c.data {
            VectorColumnView::Integer(d) => ColumnStorageView {
                data: VectorColumnView::Integer(padded(d, i + 1, 0i64).update(i, x)),
                nulls: nulls.update(i, false),
                ..c
            },
            _ => ColumnStorageView { nulls, ..c },
        },
        ValueView::Real(x) => match c.data {
            VectorColumnView::Real(d) => ColumnStorageView {
                data: VectorColumnView::Real(padded(d, i + 1, 0u64).update(i, x)),
                nulls: nulls.update(i, false),
                ..c
            },
            _ => ColumnStorageView { nulls, ..c },
        },
        ValueView::Text(x) => match c.data {
            VectorColumnView::Text(d) => ColumnStorageView {
                data: VectorColumnView::Text(padded(d, i + 1, Seq::<char>::empty()).update(i, x)),
                nulls: nulls.update(i, false),
                ..c
            },
            _ => ColumnStorageView { nulls, ..c },
        },
        _ => ColumnStorageView { nulls, ..c },
    }
}

impl ColumnStorage {
    /// An empty column (of nulls) named `name`.
    pub fn new(name: String, capacity: usize) -> (c: ColumnStorage)
        ensures
            c@ == (ColumnStorageView { name: name@, data: VectorColumnView::Null(0), nulls: Seq::empty() }),
    {
        let c = ColumnStorage { name, data: VectorColumn::Null(0), null_bitmap: Vec::new() };
        assert(c.null_bitmap@ =~= Seq::<bool>::empty());
        c
    }

    /// An integer column.
    pub fn from_integers(name: String, values: Vec<i64>, nulls: Vec<bool>) -> (c: ColumnStorage)
        ensures
            c@ == (ColumnStorageView { name: name@, data: VectorColumnView::Integer(values@), nulls: nulls@ }),
    {
        ColumnStorage { name, data: VectorColumn::Integer(values), null_bitmap: nulls }
    }

    /// A real column, the values given as IEEE-754 bit patterns.
    pub fn from_reals(name: String, values: Vec<u64>, nulls: Vec<bool>) -> (c: ColumnStorage)
        ensures
            c@ == (ColumnStorageView { name: name@, data: VectorColumnView::Real(values@), nulls: nulls@ }),
    {
        ColumnStorage { name, data: VectorColumn::Real(values), null_bitmap: nulls }
    }

    /// A text column.
    pub fn from_text(name: String, values: Vec<String>, nulls: Vec<bool>) -> (c: ColumnStorage)
        ensures
            c@ == (ColumnStorageView {
                name: name@,
                data: VectorColumnView::Text(values@.map_values(|t: String| t@)),
                nulls: nulls@,
            }),
    {
        ColumnStorage { name, data: VectorColumn::Text(values), null_bitmap: nulls }
    }

    /// The value at `index` (see [`column_get`]).
    pub fn get(&self, index: usize) -> (r: Option<Value>)
        ensures
            match column_get(self@, index as int) {
                Some(v) => r matches Some(x) && x@ == v,
                None => r is None,
            },
    {
        if index >= self.null_bitmap.len() {
            return None;
        }
        if self.null_bitmap[index] {
            return Some(Value::Null);
        }
        match &self.data {
            VectorColumn::Integer(v) => if index < v.len() { Some(Value::Integer(v[index])) } else { None },
            VectorColumn::Real(v) => if index < v.len() { Some(Value::Real(v[index])) } else { None },
            VectorColumn::Text(v) => if index < v.len() { Some(Value::Text(v[index].clone())) } else { None },
            VectorColumn::Null(_) => Some(Value::Null),
        }
    }

    /// Sets the value at `index` (see [`column_set`]). A float or blob is not
    /// storable: `TypeMismatch`, after the bitmap has been padded.
    pub fn set(&mut self, index: usize, value: Value) -> (r: Result<()>)
        requires
            index < usize::MAX,
        ensures
            final(self)@ == column_set(old(self)@, index as int, value@),
            match value@ {
                ValueView::Float(_) | ValueView::Blob(_) => r matches Err(VelociError::TypeMismatch { .. }),
                _ => r is Ok,
            },
    {
        let n = index + 1;
        pad(&mut self.null_bitmap, n, false);
        match value {
            Value::Null => {
                self.null_bitmap.set(index, true);
            },
            Value::Integer(x) => {
                match &mut self.data {
                    VectorColumn::Integer(d) => {
                        pad(d, n, 0i64);
                        assert(d@.len() >= n);
                        d.set(index, x);
                        self.null_bitmap.set(index, false);
                    },
                    _ => {},
                }
            },
            Value::Real(x) => {
                match &mut self.data {
                    VectorColumn::Real(d) => {
                        pad(d, n, 0u64);
                        assert(d@.len() >= n);
                        d.set(index, x);
                        self.null_bitmap.set(index, false);
                    },
                    _ => {},
                }
            },
            Value::Text(x) => {
                match &mut self.data {
                    VectorColumn::Text(d) => {
                        pad_text(d, n);
                        let ghost before = d@;
                        assert(before.map_values(|t: String| t@).len() >= n);
                        d.set(index, x);
                        assert(d@.map_values(|t: String| t@) =~= before.map_values(|t: String| t@).update(index as int, value@->Text_0));
                        self.null_bitmap.set(index, false);
                    },
                    _ => {},
                }
            },
            _ => {
                return Err(VelociError::TypeMismatch {
                    expected: String::from_str("Integer, Real, or Text"),
                    actual: debug_value(&value),
                });
            },
        }
        Ok(())
    }

    /// A copy of the column with the same model.
    pub fn duplicate(&self) -> (c: ColumnStorage)
        ensures
            c@ == self@,
    {
        let mut nulls: Vec<bool> = Vec::new();
        let mut i: usize = 0;
        while i < self.null_bitmap.len()
            invariant
                i <= self.null_bitmap@.len(),
                nulls@ =~= self.null_bitmap@.take(i as int),
            decreases self.null_bitmap.len() - i,
        {
            nulls.push(self.null_bitmap[i]);
            i = i + 1;
            assert(nulls@ =~= self.null_bitmap@.take(i as int));
        }
        assert(self.null_bitmap@.take(i as int) =~= self.null_bitmap@);
        ColumnStorage { name: self.name.clone(), data: self.data.duplicate(), null_bitmap: nulls }
    }

    /// The number of values (the length of the null bitmap).
    pub fn len(&self) -> (n: usize)
        ensures
            n == self@.nulls.len(),
    {
        self.null_bitmap.len()
    }

    /// Whether the column holds no values.
    pub fn is_empty(&self) -> (b: bool)
        ensures
            b == (self@.nulls.len() == 0),
    {
        self.null_bitmap.len() == 0
    }
}

/// The model of a table's rows: key and values, in the order they were
/// first inserted.
pub type RowsView = Seq<(i64, Seq<ValueView>)>;

/// The index of the first `true`, or -1.
pub open spec fn first_true(b: Seq<bool>) -> int {
    if exists|k: int| 0 <= k < b.len() && b[k] && forall|j: int| 0 <= j < k ==> !b[j] {
        choose|k: int| 0 <= k < b.len() && b[k] && forall|j: int| 0 <= j < k ==> !b[j]
    } else {
        -1
    }
}

proof fn lemma_first_exists(b: Seq<bool>, i: int)
    requires
        0 <= i < b.len(),
        b[i],
    ensures
        exists|k: int| 0 <= k < b.len() && b[k] && forall|j: int| 0 <= j < k ==> !b[j],
    decreases i,
{
    if exists|j: int| 0 <= j < i && b[j] {
        let j = choose|j: int| 0 <= j < i && b[j];
        lemma_first_exists(b, j);
    } else {
        assert(forall|j: int| 0 <= j < i ==> !b[j]);
    }
}

/// `first_true` is -1 exactly when nothing is true, else the least true index.
pub proof fn lemma_first_true(b: Seq<bool>)
    ensures
        first_true(b) == -1 <==> forall|i: int| 0 <= i < b.len() ==> !b[i],
        first_true(b) >= 0 ==> first_true(b) < b.len() && b[first_true(b)]
            && forall|j: int| 0 <= j < first_true(b) ==> !b[j],
        first_true(b) >= -1,
{
    if exists|i: int| 0 <= i < b.len() && b[i] {
        let i = choose|i: int| 0 <= i < b.len() && b[i];
        lemma_first_exists(b, i);
    }
}

/// A true index with nothing true before it is the first.
pub proof fn lemma_first_true_at(b: Seq<bool>, a: int)
    requires
        0 <= a < b.len(),
        b[a],
        forall|j: int| 0 <= j < a ==> !b[j],
    ensures
        first_true(b) == a,
{
    let c = first_true(b);
    if c < a {
        assert(b[c]);
    }
    if a < c {
        assert(b[a]);
    }
}

/// The index of the first row with key `key`, or -1.
pub open spec fn row_pos(rows: RowsView, key: i64) -> int {
    first_true(key_flags(rows, key))
}

/// The rows' keys, compared with `key`.
pub open spec fn key_flags(rows: RowsView, key: i64) -> Seq<bool> {
    Seq::new(rows.len(), |i: int| rows[i].0 == key)
}

/// The rows after inserting `key` with `vals`: the row with that key is
/// replaced in place, or the row is appended.
pub open spec fn upsert(rows: RowsView, key: i64, vals: Seq<ValueView>) -> RowsView {
    let p = row_pos(rows, key);
    if p >= 0 {
        rows.update(p, (key, vals))
    } else {
        rows.push((key, vals))
    }
}

/// The index of the first cached projection named `name`, or -1.
pub open spec fn cache_pos(cache: Seq<ColumnStorageView>, name: Seq<char>) -> int {
    first_true(name_flags(cache, name))
}

/// The index of the first column of the schema named `name`, or -1.
pub open spec fn column_pos(cols: Seq<ColumnView>, name: Seq<char>) -> int {
    first_true(column_flags(cols, name))
}

/// The schema's column names, compared with `name`.
pub open spec fn column_flags(cols: Seq<ColumnView>, name: Seq<char>) -> Seq<bool> {
    Seq::new(cols.len(), |i: int| cols[i].name == name)
}

/// The value that row `r` holds at `idx`, if it has one.
pub open spec fn cell(r: (i64, Seq<ValueView>), idx: int) -> Option<ValueView> {
    if 0 <= idx < r.1.len() {
        Some(r.1[idx])
    } else {
        None
    }
}

/// The index of the first row that holds a value at `idx`, or -1.
pub open spec fn first_holding(rows: RowsView, idx: int) -> int {
    first_true(holding_flags(rows, idx))
}

/// For each row, whether it holds a value at `idx`.
pub open spec fn holding_flags(rows: RowsView, idx: int) -> Seq<bool> {
    Seq::new(rows.len(), |i: int| cell(rows[i], idx) is Some)
}

/// An integer column of the rows' values at `idx`: each row's integer, or 0
/// and a set null bit where the row holds no integer there.
pub open spec fn integer_projection(name: Seq<char>, rows: RowsView, idx: int) -> ColumnStorageView {
    ColumnStorageView {
        name,
        data: VectorColumnView::Integer(Seq::new(rows.len(), |i: int| match cell(rows[i], idx) {
            Some(ValueView::Integer(x)) => x,
            _ => 0i64,
        })),
        nulls: Seq::new(rows.len(), |i: int| !(cell(rows[i], idx) matches Some(ValueView::Integer(_)))),
    }
}

/// A real column of the rows' values at `idx` (bit patterns; 0 and a set
/// null bit where the row holds no real there).
pub open spec fn real_projection(name: Seq<char>, rows: RowsView, idx: int) -> ColumnStorageView {
    ColumnStorageView {
        name,
        data: VectorColumnView::Real(Seq::new(rows.len(), |i: int| match cell(rows[i], idx) {
            Some(ValueView::Real(x)) => x,
            _ => 0u64,
        })),
        nulls: Seq::new(rows.len(), |i: int| !(cell(rows[i], idx) matches Some(ValueView::Real(_)))),
    }
}

/// A text column of the rows' values at `idx` (the empty text and a set null
/// bit where the row holds no text there).
pub open spec fn text_projection(name: Seq<char>, rows: RowsView, idx: int) -> ColumnStorageView {
    ColumnStorageView {
        name,
        data: VectorColumnView::Text(Seq::new(rows.len(), |i: int| match cell(rows[i], idx) {
            Some(ValueView::Text(x)) => x,
            _ => Seq::<char>::empty(),
        })),
        nulls: Seq::new(rows.len(), |i: int| !(cell(rows[i], idx) matches Some(ValueView::Text(_)))),
    }
}

/// What materialising a projection of the rows gives.
pub enum Projection {
    /// The column.
    Built(ColumnStorageView),
    /// The schema has no column of that name.
    NoColumn,
    /// No row holds a value in that column.
    NoValues,
    /// The first value found is neither an integer, a real nor a text.
    Unsupported,
}

/// Materialises the column `name` from the rows: its type is that of the
/// first row (in order) that holds a value at the column's position.
pub open spec fn materialize(cols: Seq<ColumnView>, rows: RowsView, name: Seq<char>) -> Projection {
    let idx = column_pos(cols, name);
    if idx < 0 {
        Projection::NoColumn
    } else {
        let f = first_holding(rows, idx);
        if f < 0 {
            Projection::NoValues
        } else {
            match rows[f].1[idx] {
                ValueView::Integer(_) => Projection::Built(integer_projection(name, rows, idx)),
                ValueView::Real(_) => Projection::Built(real_projection(name, rows, idx)),
                ValueView::Text(_) => Projection::Built(text_projection(name, rows, idx)),
                _ => Projection::Unsupported,
            }
        }
    }
}

/// The projection that a request for `name` returns with cache `cache`: the
/// cached one if there is one, else the materialised one.
pub open spec fn projection_for(cache: Seq<ColumnStorageView>, cols: Seq<ColumnView>, rows: RowsView, name: Seq<char>) -> Projection {
    let c = cache_pos(cache, name);
    if c >= 0 {
        Projection::Built(cache[c])
    } else {
        materialize(cols, rows, name)
    }
}

/// Keys occur at most once.
pub open spec fn distinct_keys(rows: RowsView) -> bool {
    forall|i: int, j: int| 0 <= i < j < rows.len() ==> rows[i].0 != rows[j].0
}

/// Names occur at most once.
pub open spec fn distinct_names(cache: Seq<ColumnStorageView>) -> bool {
    forall|i: int, j: int| 0 <= i < j < cache.len() ==> cache[i].name != cache[j].name
}

/// A table with row-major storage and cached columnar projections.
pub struct HybridTable {
    /// Table name.
    pub name: String,
    /// Schema.
    pub columns: Vec<Column>,
    rows: Vec<RowRecord>,
    projections: Vec<ColumnStorage>,
    layout: StorageLayout,
    stats: TableStats,
}

impl HybridTable {
    /// The rows' models.
    pub closed spec fn rows(&self) -> RowsView {
        self.rows@.map_values(|r: RowRecord| r@)
    }

    /// The cached projections' models.
    pub closed spec fn cache(&self) -> Seq<ColumnStorageView> {
        self.projections@.map_values(|c: ColumnStorage| c@)
    }

    /// The schema's model.
    pub closed spec fn schema(&self) -> Seq<ColumnView> {
        self.columns@.map_values(|c: Column| c@)
    }

    /// The table name.
    pub closed spec fn title(&self) -> Seq<char> {
        self.name@
    }

    /// The layout mode.
    pub closed spec fn mode(&self) -> StorageLayout {
        self.layout
    }

    /// The access statistics.
    pub closed spec fn statistics(&self) -> TableStats {
        self.stats
    }

    /// Keys and cached names occur at most once.
    pub closed spec fn wf(&self) -> bool {
        distinct_keys(self.rows()) && distinct_names(self.cache())
    }

    /// An empty table.
    pub fn new(name: String, columns: Vec<Column>, layout: StorageLayout) -> (t: HybridTable)
        ensures
            t.wf(),
            t.title() == name@,
            t.schema() == columns@.map_values(|c: Column| c@),
            t.rows() == RowsView::empty(),
            t.cache() == Seq::<ColumnStorageView>::empty(),
            t.mode() == layout,
            t.statistics() == (TableStats { inserts: 0, row_accesses: 0, column_accesses: 0, full_scans: 0 }),
    {
        let t = HybridTable {
            name,
            columns,
            rows: Vec::new(),
            projections: Vec::new(),
            layout,
            stats: TableStats::default(),
        };
        assert(t.rows() =~= RowsView::empty());
        assert(t.cache() =~= Seq::<ColumnStorageView>::empty());
        t
    }
}

/// The names of the cached projections, compared with `n`.
pub open spec fn name_flags(s: Seq<ColumnStorageView>, n: Seq<char>) -> Seq<bool> {
    Seq::new(s.len(), |i: int| s[i].name == n)
}

/// Appending a projection leaves every cached name's position as it was; a
/// name not cached before now finds the new one if it has that name.
proof fn lemma_cache_pos_push(s: Seq<ColumnStorageView>, x: ColumnStorageView, n: Seq<char>)
    ensures
        cache_pos(s.push(x), n) == if cache_pos(s, n) >= 0 {
            cache_pos(s, n)
        } else if x.name == n {
            s.len() as int
        } else {
            -1
        },
{
    let t = s.push(x);
    let bs = name_flags(s, n);
    let bt = name_flags(t, n);
    lemma_first_true(bs);
    lemma_first_true(bt);
    assert forall|j: int| 0 <= j < s.len() implies bt[j] == bs[j] by {
        assert(t[j] == s[j]);
    }
    let c = first_true(bs);
    if c >= 0 {
        lemma_first_true_at(bt, c);
    } else if x.name == n {
        assert(bt[s.len() as int]);
        lemma_first_true_at(bt, s.len() as int);
    } else {
        assert forall|i: int| 0 <= i < bt.len() implies !bt[i] by {
            if i < s.len() {
                assert(!bs[i]);
            }
        }
    }
}

/// After a projection of the rows is cached, every request returns what it
/// returned before.
proof fn lemma_cache_grows(cache: Seq<ColumnStorageView>, cols: Seq<ColumnView>, rows: RowsView, name: Seq<char>, c: ColumnStorageView)
    requires
        cache_pos(cache, name) < 0,
        materialize(cols, rows, name) == Projection::Built(c),
    ensures
        forall|n: Seq<char>| #[trigger] projection_for(cache.push(c), cols, rows, n) == projection_for(cache, cols, rows, n),
        distinct_names(cache) ==> distinct_names(cache.push(c)),
{
    assert(c.name == name);
    assert forall|n: Seq<char>| #[trigger] projection_for(cache.push(c), cols, rows, n) == projection_for(cache, cols, rows, n) by {
        lemma_cache_pos_push(cache, c, n);
    }
    if distinct_names(cache) {
        let b = name_flags(cache, name);
        lemma_first_true(b);
        assert forall|i: int, j: int| 0 <= i < j < cache.push(c).len() implies cache.push(c)[i].name != cache.push(c)[j].name by {
            assert(cache.push(c)[i] == cache[i]);
            if j == cache.len() {
                assert(!b[i]);
            } else {
                assert(cache.push(c)[j] == cache[j]);
            }
        }
    }
}

impl HybridTable {
    fn find_row(&self, key: i64) -> (p: Option<usize>)
        ensures
            match p {
                Some(i) => row_pos(self.rows(), key) == i && i < self.rows().len(),
                None => row_pos(self.rows(), key) == -1,
            },
    {
        let ghost rs = self.rows();
        let mut i: usize = 0;
        while i < self.rows.len()
            invariant
                i <= self.rows@.len(),
                rs == self.rows(),
                forall|j: int| 0 <= j < i ==> rs[j].0 != key,
            decreases self.rows.len() - i,
        {
            if self.rows[i].key == key {
                proof {
                    assert(rs[i as int] == self.rows@[i as int]@);
                    let b = key_flags(rs, key);
                    assert(b[i as int]);
                    assert(forall|j: int| 0 <= j < i ==> !b[j]);
                    lemma_first_true_at(b, i as int);
                }
                return Some(i);
            }
            i = i + 1;
        }
        proof {
            lemma_first_true(key_flags(rs, key));
        }
        None
    }

    fn find_cached(&self, name: &str) -> (p: Option<usize>)
        ensures
            match p {
                Some(i) => cache_pos(self.cache(), name@) == i && i < self.cache().len(),
                None => cache_pos(self.cache(), name@) == -1,
            },
    {
        let ghost cs = self.cache();
        let mut i: usize = 0;
        while i < self.projections.len()
            invariant
                i <= self.projections@.len(),
                cs == self.cache(),
                forall|j: int| 0 <= j < i ==> cs[j].name != name@,
            decreases self.projections.len() - i,
        {
            if crate::text::str_eq(self.projections[i].name.as_str(), name) {
                proof {
                    lemma_first_true_at(name_flags(cs, name@), i as int);
                }
                return Some(i);
            }
            i = i + 1;
        }
        proof {
            lemma_first_true(name_flags(cs, name@));
        }
        None
    }

    fn find_column(&self, name: &str) -> (p: Option<usize>)
        ensures
            match p {
                Some(i) => column_pos(self.schema(), name@) == i && i < self.schema().len(),
                None => column_pos(self.schema(), name@) == -1,
            },
    {
        let ghost cs = self.schema();
        let mut i: usize = 0;
        while i < self.columns.len()
            invariant
                i <= self.columns@.len(),
                cs == self.schema(),
                forall|j: int| 0 <= j < i ==> cs[j].name != name@,
            decreases self.columns.len() - i,
        {
            if crate::text::str_eq(self.columns[i].name.as_str(), name) {
                proof {
                    lemma_first_true_at(column_flags(cs, name@), i as int);
                }
                return Some(i);
            }
            i = i + 1;
        }
        proof {
            lemma_first_true(column_flags(cs, name@));
        }
        None
    }

    fn find_holding(&self, idx: usize) -> (p: Option<usize>)
        ensures
            match p {
                Some(i) => first_holding(self.rows(), idx as int) == i && i < self.rows().len(),
                None => first_holding(self.rows(), idx as int) == -1,
            },
    {
        let ghost rs = self.rows();
        let mut i: usize = 0;
        while i < self.rows.len()
            invariant
                i <= self.rows@.len(),
                rs == self.rows(),
                forall|j: int| 0 <= j < i ==> cell(rs[j], idx as int) is None,
            decreases self.rows.len() - i,
        {
            if idx < self.rows[i].values.len() {
                proof {
                    lemma_first_true_at(holding_flags(rs, idx as int), i as int);
                }
                return Some(i);
            }
            i = i + 1;
        }
        proof {
            lemma_first_true(holding_flags(rs, idx as int));
        }
        None
    }

    fn build_integers(&self, name: &str, idx: usize) -> (c: ColumnStorage)
        ensures
            c@ == integer_projection(name@, self.rows(), idx as int),
    {
        let ghost rs = self.rows();
        let ghost target = integer_projection(name@, rs, idx as int);
        let mut values: Vec<i64> = Vec::new();
        let mut nulls: Vec<bool> = Vec::new();
        let mut i: usize = 0;
        while i < self.rows.len()
            invariant
                i <= self.rows@.len(),
                rs == self.rows(),
                target == integer_projection(name@, rs, idx as int),
                values@.len() == i && nulls@.len() == i,
                forall|k: int| 0 <= k < i ==> values@[k] == (target.data->Integer_0)[k] && nulls@[k] == target.nulls[k],
            decreases self.rows.len() - i,
        {
            let r = &self.rows[i];
            assert(rs[i as int] == r@);
            if idx < r.values.len() {
                match &r.values[idx] {
                    Value::Integer(x) => {
                        values.push(*x);
                        nulls.push(false);
                    },
                    _ => {
                        values.push(0);
                        nulls.push(true);
                    },
                }
            } else {
                values.push(0);
                nulls.push(true);
            }
            i = i + 1;
        }
        assert(values@ =~= target.data->Integer_0);
        assert(nulls@ =~= target.nulls);
        ColumnStorage::from_integers(String::from_str(name), values, nulls)
    }

    fn build_reals(&self, name: &str, idx: usize) -> (c: ColumnStorage)
        ensures
            c@ == real_projection(name@, self.rows(), idx as int),
    {
        let ghost rs = self.rows();
        let ghost target = real_projection(name@, rs, idx as int);
        let mut values: Vec<u64> = Vec::new();
        let mut nulls: Vec<bool> = Vec::new();
        let mut i: usize = 0;
        while i < self.rows.len()
            invariant
                i <= self.rows@.len(),
                rs == self.rows(),
                target == real_projection(name@, rs, idx as int),
                values@.len() == i && nulls@.len() == i,
                forall|k: int| 0 <= k < i ==> values@[k] == (target.data->Real_0)[k] && nulls@[k] == target.nulls[k],
            decreases self.rows.len() - i,
        {
            let r = &self.rows[i];
            assert(rs[i as int] == r@);
            if idx < r.values.len() {
                match &r.values[idx] {
                    Value::Real(x) => {
                        values.push(*x);
                        nulls.push(false);
                    },
                    _ => {
                        values.push(0);
                        nulls.push(true);
                    },
                }
            } else {
                values.push(0);
                nulls.push(true);
            }
            i = i + 1;
        }
        assert(values@ =~= target.data->Real_0);
        assert(nulls@ =~= target.nulls);
        ColumnStorage::from_reals(String::from_str(name), values, nulls)
    }

    fn build_text(&self, name: &str, idx: usize) -> (c: ColumnStorage)
        ensures
            c@ == text_projection(name@, self.rows(), idx as int),
    {
        let ghost rs = self.rows();
        let ghost target = text_projection(name@, rs, idx as int);
        let mut values: Vec<String> = Vec::new();
        let mut nulls: Vec<bool> = Vec::new();
        let mut i: usize = 0;
        while i < self.rows.len()
            invariant
                i <= self.rows@.len(),
                rs == self.rows(),
                target == text_projection(name@, rs, idx as int),
                values@.len() == i && nulls@.len() == i,
                forall|k: int| 0 <= k < i ==> (#[trigger] values@[k])@ == (target.data->Text_0)[k],
                forall|k: int| 0 <= k < i ==> (#[trigger] nulls@[k]) == target.nulls[k],
            decreases self.rows.len() - i,
        {
            let r = &self.rows[i];
            assert(rs[i as int] == r@);
            if idx < r.values.len() {
                match &r.values[idx] {
                    Value::Text(x) => {
                        values.push(x.clone());
                        nulls.push(false);
                    },
                    _ => {
                        values.push(String::new());
                        nulls.push(true);
                    },
                }
            } else {
                values.push(String::new());
                nulls.push(true);
            }
            i = i + 1;
        }
        assert(values@.map_values(|t: String| t@) =~= target.data->Text_0);
        assert(nulls@ =~= target.nulls);
        ColumnStorage::from_text(String::from_str(name), values, nulls)
    }
}

/// Statistics with one more count of each kind given.
pub open spec fn counted(s: TableStats, inserts: int, rows: int, cols: int, scans: int) -> TableStats {
    TableStats {
        inserts: (s.inserts + inserts) as u64,
        row_accesses: (s.row_accesses + rows) as u64,
        column_accesses: (s.column_accesses + cols) as u64,
        full_scans: (s.full_scans + scans) as u64,
    }
}

impl HybridTable {
    /// Inserts a row, replacing the row with the same key. Under the hybrid
    /// layout the cached projections are dropped.
    pub fn insert_row(&mut self, key: i64, values: Vec<Value>) -> (r: Result<()>)
        requires
            old(self).wf(),
            old(self).statistics().inserts < u64::MAX,
        ensures
            r is Ok,
            final(self).wf(),
            final(self).rows() == upsert(old(self).rows(), key, values.deep_view()),
            final(self).cache() == if old(self).mode() == StorageLayout::Hybrid {
                Seq::<ColumnStorageView>::empty()
            } else {
                old(self).cache()
            },
            final(self).statistics() == counted(old(self).statistics(), 1, 0, 0, 0),
            final(self).schema() == old(self).schema(),
            final(self).title() == old(self).title(),
            final(self).mode() == old(self).mode(),
    {
        let ghost rs = self.rows();
        let ghost vs = values.deep_view();
        let record = RowRecord::new(key, values);
        match self.find_row(key) {
            Some(i) => {
                self.rows.set(i, record);
                proof {
                    assert(self.rows() =~= rs.update(i as int, (key, vs)));
                    lemma_first_true(key_flags(rs, key));
                }
            },
            None => {
                self.rows.push(record);
                proof {
                    assert(self.rows() =~= rs.push((key, vs)));
                    lemma_first_true(key_flags(rs, key));
                    assert forall|a: int| 0 <= a < rs.len() implies rs[a].0 != key by {
                        assert(!key_flags(rs, key)[a]);
                    }
                }
            },
        }
        self.stats.record_insert();
        if self.layout == StorageLayout::Hybrid {
            self.projections.clear();
            assert(self.cache() =~= Seq::<ColumnStorageView>::empty());
        }
        Ok(())
    }

    /// The row with key `key`, if there is one.
    pub fn get_row(&mut self, key: i64) -> (r: Option<RowRecord>)
        requires
            old(self).statistics().row_accesses < u64::MAX,
        ensures
            row_pos(old(self).rows(), key) >= 0 <==> r is Some,
            r matches Some(rec) ==> rec@ == old(self).rows()[row_pos(old(self).rows(), key)],
            final(self).statistics() == counted(old(self).statistics(), 0, 1, 0, 0),
            final(self).rows() == old(self).rows(),
            final(self).cache() == old(self).cache(),
            final(self).schema() == old(self).schema(),
            final(self).title() == old(self).title(),
            final(self).mode() == old(self).mode(),
            old(self).wf() ==> final(self).wf(),
    {
        self.stats.record_row_access();
        match self.find_row(key) {
            Some(i) => Some(self.rows[i].duplicate()),
            None => None,
        }
    }

    /// All rows, in order.
    pub fn scan_rows(&mut self) -> (rs: Vec<RowRecord>)
        requires
            old(self).statistics().full_scans < u64::MAX,
        ensures
            rs@.map_values(|r: RowRecord| r@) == old(self).rows(),
            final(self).statistics() == counted(old(self).statistics(), 0, 0, 0, 1),
            final(self).rows() == old(self).rows(),
            final(self).cache() == old(self).cache(),
            final(self).schema() == old(self).schema(),
            final(self).title() == old(self).title(),
            final(self).mode() == old(self).mode(),
            old(self).wf() ==> final(self).wf(),
    {
        self.stats.record_full_scan();
        let mut out: Vec<RowRecord> = Vec::new();
        let mut i: usize = 0;
        while i < self.rows.len()
            invariant
                i <= self.rows@.len(),
                out@.len() == i,
                forall|k: int| 0 <= k < i ==> (#[trigger] out@[k])@ == self.rows@[k]@,
            decreases self.rows.len() - i,
        {
            out.push(self.rows[i].duplicate());
            i = i + 1;
        }
        assert(out@.map_values(|r: RowRecord| r@) =~= self.rows());
        out
    }

    /// The columnar projection of the column `column_name`: the cached one if
    /// there is one, else materialised from the rows (see [`materialize`])
    /// and cached. `NotFound` when the schema has no such column or no row
    /// holds a value in it; `TypeMismatch` when the first value found is
    /// neither an integer, a real nor a text. Every later request is
    /// answered as before.
    pub fn get_column_projection(&mut self, column_name: &str) -> (r: Result<ColumnStorage>)
        requires
            old(self).wf(),
            old(self).statistics().column_accesses < u64::MAX,
        ensures
            final(self).wf(),
            final(self).statistics() == counted(old(self).statistics(), 0, 0, 1, 0),
            final(self).rows() == old(self).rows(),
            final(self).schema() == old(self).schema(),
            final(self).title() == old(self).title(),
            final(self).mode() == old(self).mode(),
            match projection_for(old(self).cache(), old(self).schema(), old(self).rows(), column_name@) {
                Projection::Built(c) => r matches Ok(x) && x@ == c,
                Projection::NoColumn => r matches Err(VelociError::NotFound(_)),
                Projection::NoValues => r matches Err(VelociError::NotFound(_)),
                Projection::Unsupported => r matches Err(VelociError::TypeMismatch { .. }),
            },
            r is Ok && cache_pos(old(self).cache(), column_name@) < 0 ==> final(self).cache() == old(self).cache().push(r->Ok_0@),
            !(r is Ok && cache_pos(old(self).cache(), column_name@) < 0) ==> final(self).cache() == old(self).cache(),
            forall|n: Seq<char>| #[trigger] projection_for(final(self).cache(), final(self).schema(), final(self).rows(), n)
                == projection_for(old(self).cache(), old(self).schema(), old(self).rows(), n),
    {
        self.stats.record_column_access();
        match self.find_cached(column_name) {
            Some(i) => {
                return Ok(self.projections[i].duplicate());
            },
            None => {},
        }
        let idx = match self.find_column(column_name) {
            Some(i) => i,
            None => {
                let a = crate::parser::concat("Column ", column_name);
                return Err(VelociError::NotFound(crate::parser::concat(a.as_str(), " not found")));
            },
        };
        let f = match self.find_holding(idx) {
            Some(f) => f,
            None => {
                return Err(VelociError::NotFound(String::from_str("No values in column")));
            },
        };
        let ghost rs = self.rows();
        proof {
            assert(rs[f as int] == self.rows@[f as int]@);
        }
        let built = match &self.rows[f].values[idx] {
            Value::Integer(_) => self.build_integers(column_name, idx),
            Value::Real(_) => self.build_reals(column_name, idx),
            Value::Text(_) => self.build_text(column_name, idx),
            other => {
                return Err(VelociError::TypeMismatch {
                    expected: String::from_str("Integer, Real, or Text"),
                    actual: debug_value(other),
                });
            },
        };
        let ghost before = self.cache();
        proof {
            lemma_cache_grows(before, self.schema(), rs, column_name@, built@);
        }
        self.projections.push(built.duplicate());
        assert(self.cache() =~= before.push(built@));
        Ok(built)
    }

    /// The projections of the named columns, in order, as a vector batch
    /// whose row count is the number of rows. Fails with the error of the
    /// first name whose projection fails (see [`projection_for`]).
    pub fn get_vector_batch(&mut self, column_names: Vec<&str>) -> (r: Result<VectorBatch>)
        requires
            old(self).wf(),
            old(self).statistics().column_accesses + column_names@.len() <= u64::MAX,
        ensures
            final(self).wf(),
            final(self).rows() == old(self).rows(),
            final(self).schema() == old(self).schema(),
            final(self).mode() == old(self).mode(),
            (forall|k: int| 0 <= k < column_names@.len() ==>
                #[trigger] projection_for(old(self).cache(), old(self).schema(), old(self).rows(), column_names@[k]@) is Built)
                <==> r is Ok,
            r matches Ok(b) ==> b.rows() == old(self).rows().len() && b.cols() == Seq::new(column_names@.len(),
                |k: int| (projection_for(old(self).cache(), old(self).schema(), old(self).rows(), column_names@[k]@)->Built_0).data),
            forall|n: Seq<char>| #[trigger] projection_for(final(self).cache(), final(self).schema(), final(self).rows(), n)
                == projection_for(old(self).cache(), old(self).schema(), old(self).rows(), n),
    {
        let ghost c0 = self.cache();
        let ghost cols = self.schema();
        let ghost rs = self.rows();
        let mut batch = VectorBatch::new();
        let mut i: usize = 0;
        while i < column_names.len()
            invariant
                i <= column_names@.len(),
                self.wf(),
                self.rows() == rs,
                self.schema() == cols,
                self.mode() == old(self).mode(),
                self.statistics().column_accesses == old(self).statistics().column_accesses + i,
                old(self).statistics().column_accesses + column_names@.len() <= u64::MAX,
                c0 == old(self).cache(),
                cols == old(self).schema(),
                rs == old(self).rows(),
                forall|n: Seq<char>| #[trigger] projection_for(self.cache(), cols, rs, n) == projection_for(c0, cols, rs, n),
                forall|k: int| 0 <= k < i ==> #[trigger] projection_for(c0, cols, rs, column_names@[k]@) is Built,
                batch.cols() == Seq::new(i as nat, |k: int| (projection_for(c0, cols, rs, column_names@[k]@)->Built_0).data),
            decreases column_names.len() - i,
        {
            let name = column_names[i];
            let ghost before = batch.cols();
            match self.get_column_projection(name) {
                Ok(col) => {
                    batch.add_column(col.data);
                    assert(batch.cols() =~= Seq::new((i + 1) as nat, |k: int| (projection_for(c0, cols, rs, column_names@[k]@)->Built_0).data));
                },
                Err(e) => {
                    assert(!(projection_for(c0, cols, rs, column_names@[i as int]@) is Built));
                    return Err(e);
                },
            }
            i = i + 1;
        }
        batch.set_row_count(self.rows.len());
        Ok(batch)
    }

    /// The layout the access statistics call for (see [`workload`]).
    pub fn adaptive_layout(&self) -> (l: StorageLayout)
        requires
            classifiable(self.statistics().column_accesses, self.statistics().row_accesses),
        ensures
            l == workload(self.statistics().column_accesses as int, self.statistics().row_accesses as int),
    {
        classify(self.stats.column_accesses, self.stats.row_accesses)
    }

    /// The access statistics.
    pub fn get_stats(&self) -> (s: TableStats)
        ensures
            s == self.statistics(),
    {
        self.stats
    }
}

/// A row inserted under a key is the row found under that key, and rows
/// under other keys are found as before.
pub proof fn law_insert_then_get(rows: RowsView, key: i64, vals: Seq<ValueView>, other: i64)
    requires
        distinct_keys(rows),
        other != key,
    ensures
        row_pos(upsert(rows, key, vals), key) >= 0,
        upsert(rows, key, vals)[row_pos(upsert(rows, key, vals), key)] == (key, vals),
        row_pos(upsert(rows, key, vals), other) >= 0 <==> row_pos(rows, other) >= 0,
        row_pos(rows, other) >= 0 ==> upsert(rows, key, vals)[row_pos(upsert(rows, key, vals), other)]
            == rows[row_pos(rows, other)],
{
    let u = upsert(rows, key, vals);
    let p = row_pos(rows, key);
    lemma_first_true(key_flags(rows, key));
    lemma_first_true(key_flags(rows, other));
    lemma_first_true(key_flags(u, key));
    lemma_first_true(key_flags(u, other));
    if p >= 0 {
        assert(u =~= rows.update(p, (key, vals)));
        assert(key_flags(u, other) =~= key_flags(rows, other));
        assert forall|j: int| 0 <= j < p implies !key_flags(u, key)[j] by {
            assert(!key_flags(rows, key)[j]);
        }
        lemma_first_true_at(key_flags(u, key), p);
    } else {
        assert(u =~= rows.push((key, vals)));
        assert forall|j: int| 0 <= j < rows.len() implies !key_flags(u, key)[j] by {
            assert(!key_flags(rows, key)[j]);
        }
        lemma_first_true_at(key_flags(u, key), rows.len() as int);
        assert(key_flags(u, other) =~= key_flags(rows, other).push(false));
        let q = row_pos(rows, other);
        if q >= 0 {
            lemma_first_true_at(key_flags(u, other), q);
        }
    }
}

} // verus!
