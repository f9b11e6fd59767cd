//! Vectorised kernels over columns of integers: filters that compare every
//! element with a constant, and aggregations (sum, count, minimum, maximum).

use vstd::prelude::*;
use crate::types::{Result, Value, ValueView, VelociError};
use crate::text::decimal;

verus! {

/// Number of elements a vectorised batch processes at once.
pub const VECTOR_BATCH_SIZE: usize = 256;

/// For each element, whether it is greater than `t`.
pub open spec fn greater_flags(values: Seq<i64>, t: i64) -> Seq<bool> {
    Seq::new(values.len(), |i: int| values[i] > t)
}

/// For each element, whether it equals `t`.
pub open spec fn equal_flags(values: Seq<i64>, t: i64) -> Seq<bool> {
    Seq::new(values.len(), |i: int| values[i] == t)
}

/// The sum of the elements, each addition wrapping around in 64 bits.
pub open spec fn wrapping_sum(values: Seq<i64>) -> i64
    decreases values.len(),
{
    if values.len() == 0 {
        0
    } else {
        wrapping_sum(values.drop_last()).wrapping_add(values.last())
    }
}

/// The mathematical sum of the elements.
pub open spec fn int_sum(values: Seq<i64>) -> int
    decreases values.len(),
{
    if values.len() == 0 {
        0
    } else {
        int_sum(values.drop_last()) + values.last()
    }
}

/// Every running total of the elements fits in an `i64`.
pub open spec fn prefix_sums_fit(values: Seq<i64>) -> bool {
    forall|k: int| 0 <= k <= values.len() ==> i64::MIN <= #[trigger] int_sum(values.take(k)) <= i64::MAX
}

/// The number of present values.
pub open spec fn count_some(values: Seq<Option<i64>>) -> nat
    decreases values.len(),
{
    if values.len() == 0 {
        0
    } else {
        count_some(values.drop_last()) + if values.last() is Some { 1nat } else { 0nat }
    }
}

/// `m` is the least element of `values`.
pub open spec fn is_min(values: Seq<i64>, m: i64) -> bool {
    values.contains(m) && forall|i: int| 0 <= i < values.len() ==> m <= #[trigger] values[i]
}

/// `m` is the greatest element of `values`.
pub open spec fn is_max(values: Seq<i64>, m: i64) -> bool {
    values.contains(m) && forall|i: int| 0 <= i < values.len() ==> #[trigger] values[i] <= m
}

/// Vectorised comparison filters.
pub struct VectorizedFilter;

impl VectorizedFilter {
    /// For each value, whether it is greater than `threshold`.
    pub fn filter_integers_greater_than(values: &[i64], threshold: i64) -> (r: Vec<bool>)
        ensures
            r@ == greater_flags(values@, threshold),
    {
        let mut r: Vec<bool> = Vec::new();
        let mut i: usize = 0;
        while i < values.len()
            invariant
                i <= values@.len(),
                r@ =~= greater_flags(values@.take(i as int), threshold),
            decreases values.len() - i,
        {
            r.push(values[i] > threshold);
            i = i + 1;
            assert(r@ =~= greater_flags(values@.take(i as int), threshold));
        }
        assert(values@.take(i as int) =~= values@);
        r
    }

    /// For each value, whether it equals `target`.
    pub fn filter_integers_equal(values: &[i64], target: i64) -> (r: Vec<bool>)
        ensures
            r@ == equal_flags(values@, target),
    {
        let mut r: Vec<bool> = Vec::new();
        let mut i: usize = 0;
        while i < values.len()
            invariant
                i <= values@.len(),
                r@ =~= equal_flags(values@.take(i as int), target),
            decreases values.len() - i,
        {
            r.push(values[i] == target);
            i = i + 1;
            assert(r@ =~= equal_flags(values@.take(i as int), target));
        }
        assert(values@.take(i as int) =~= values@);
        r
    }
}

/// Where no running total overflows, the wrapping sum is the true sum.
pub proof fn lemma_wrapping_sum_exact(values: Seq<i64>)
    requires
        prefix_sums_fit(values),
    ensures
        wrapping_sum(values) == int_sum(values),
    decreases values.len(),
{
    if values.len() > 0 {
        let p = values.drop_last();
        assert(prefix_sums_fit(p)) by {
            assert forall|k: int| 0 <= k <= p.len() implies i64::MIN <= #[trigger] int_sum(p.take(k)) <= i64::MAX by {
                assert(p.take(k) =~= values.take(k));
            }
        }
        lemma_wrapping_sum_exact(p);
        assert(values.take(values.len() as int) =~= values);
        assert(i64::MIN <= int_sum(values.take(values.len() as int)) <= i64::MAX);
    }
}

/// Vectorised aggregations.
pub struct VectorizedAggregation;

impl VectorizedAggregation {
    /// The sum of the values, wrapping around on overflow; where no running
    /// total overflows, the exact sum.
    pub fn sum_integers(values: &[i64]) -> (s: i64)
        ensures
            s == wrapping_sum(values@),
            prefix_sums_fit(values@) ==> s == int_sum(values@),
    {
        let mut s: i64 = 0;
        let mut i: usize = 0;
        while i < values.len()
            invariant
                i <= values@.len(),
                s == wrapping_sum(values@.take(i as int)),
            decreases values.len() - i,
        {
            proof {
                assert(values@.take(i + 1).drop_last() =~= values@.take(i as int));
            }
            s = s.wrapping_add(values[i]);
            i = i + 1;
        }
        proof {
            assert(values@.take(i as int) =~= values@);
            if prefix_sums_fit(values@) {
                lemma_wrapping_sum_exact(values@);
            }
        }
        s
    }

    /// The number of values that are present.
    pub fn count_non_null(values: &[Option<i64>]) -> (n: usize)
        ensures
            n == count_some(values@),
    {
        let mut n: usize = 0;
        let mut i: usize = 0;
        while i < values.len()
            invariant
                i <= values@.len(),
                n == count_some(values@.take(i as int)),
                n <= i,
            decreases values.len() - i,
        {
            proof {
                assert(values@.take(i + 1).drop_last() =~= values@.take(i as int));
            }
            if values[i].is_some() {
                n = n + 1;
            }
            i = i + 1;
        }
        proof {
            assert(values@.take(i as int) =~= values@);
        }
        n
    }

    /// The least value, or `None` for no values.
    pub fn min_integers(values: &[i64]) -> (r: Option<i64>)
        ensures
            values@.len() == 0 <==> r is None,
            r matches Some(m) ==> is_min(values@, m),
    {
        if values.len() == 0 {
            return None;
        }
        let mut m: i64 = values[0];
        let mut i: usize = 1;
        assert(values@.subrange(0, 1)[0] == m);
        while i < values.len()
            invariant
                1 <= i <= values@.len(),
                values@.subrange(0, i as int).contains(m),
                forall|j: int| 0 <= j < i ==> m <= #[trigger] values@[j],
            decreases values.len() - i,
        {
            if values[i] < m {
                m = values[i];
                assert(values@.subrange(0, i + 1)[i as int] == m);
            } else {
                let ghost k = choose|k: int| 0 <= k < i && values@.subrange(0, i as int)[k] == m;
                assert(values@.subrange(0, i + 1)[k] == m);
            }
            i = i + 1;
        }
        assert(values@.subrange(0, i as int) =~= values@);
        Some(m)
    }

    /// The greatest value, or `None` for no values.
    pub fn max_integers(values: &[i64]) -> (r: Option<i64>)
        ensures
            values@.len() == 0 <==> r is None,
            r matches Some(m) ==> is_max(values@, m),
    {
        if values.len() == 0 {
            return None;
        }
        let mut m: i64 = values[0];
        let mut i: usize = 1;
        assert(values@.subrange(0, 1)[0] == m);
        while i < values.len()
            invariant
                1 <= i <= values@.len(),
                values@.subrange(0, i as int).contains(m),
                forall|j: int| 0 <= j < i ==> #[trigger] values@[j] <= m,
            decreases values.len() - i,
        {
            if values[i] > m {
                m = values[i];
                assert(values@.subrange(0, i + 1)[i as int] == m);
            } else {
                let ghost k = choose|k: int| 0 <= k < i && values@.subrange(0, i as int)[k] == m;
                assert(values@.subrange(0, i + 1)[k] == m);
            }
            i = i + 1;
        }
        assert(values@.subrange(0, i as int) =~= values@);
        Some(m)
    }
}

/// A column of vectorised data. Real numbers are held as their IEEE-754
/// bit patterns, as in [`Value::Real`].
#[derive(Debug, Clone)]
pub enum VectorColumn {
    Integer(Vec<i64>),
    Real(Vec<u64>),
    Text(Vec<String>),
    /// A column of nulls: only their count.
    Null(usize),
}

/// The model of a [`VectorColumn`].
pub enum VectorColumnView {
    Integer(Seq<i64>),
    Real(Seq<u64>),
    Text(Seq<Seq<char>>),
    Null(usize),
}

impl View for VectorColumn {
    type V = VectorColumnView;

    open spec fn view(&self) -> VectorColumnView {
        match self {
            VectorColumn::Integer(v) => VectorColumnView::Integer(v@),
            VectorColumn::Real(v) => VectorColumnView::Real(v@),
            VectorColumn::Text(v) => VectorColumnView::Text(v@.map_values(|t: String| t@)),
            VectorColumn::Null(n) => VectorColumnView::Null(*n),
        }
    }
}

impl VectorColumn {
    /// A copy of the column with the same model.
    pub fn duplicate(&self) -> (c: VectorColumn)
        ensures
            c@ == self@,
    {
        match self {
            VectorColumn::Integer(v) => {
                let mut w: Vec<i64> = Vec::new();
                let mut i: usize = 0;
                while i < v.len()
                    invariant
                        i <= v@.len(),
                        w@ =~= v@.take(i as int),
                    decreases v.len() - i,
                {
                    w.push(v[i]);
                    i = i + 1;
                    assert(w@ =~= v@.take(i as int));
                }
                assert(v@.take(i as int) =~= v@);
                VectorColumn::Integer(w)
            },
            VectorColumn::Real(v) => {
                let mut w: Vec<u64> = Vec::new();
                let mut i: usize = 0;
                while i < v.len()
                    invariant
                        i <= v@.len(),
                        w@ =~= v@.take(i as int),
                    decreases v.len() - i,
                {
                    w.push(v[i]);
                    i = i + 1;
                    assert(w@ =~= v@.take(i as int));
                }
                assert(v@.take(i as int) =~= v@);
                VectorColumn::Real(w)
            },
            VectorColumn::Text(v) => {
                let mut w: Vec<String> = Vec::new();
                let mut i: usize = 0;
                while i < v.len()
                    invariant
                        i <= v@.len(),
                        w@.len() == i,
                        forall|k: int| 0 <= k < i ==> (#[trigger] w@[k])@ == v@[k]@,
                    decreases v.len() - i,
                {
                    w.push(v[i].clone());
                    i = i + 1;
                }
                assert(w@.map_values(|t: String| t@) =~= v@.map_values(|t: String| t@));
                VectorColumn::Text(w)
            },
            VectorColumn::Null(n) => VectorColumn::Null(*n),
        }
    }
}

/// Filter predicate types.
#[derive(Debug, Clone)]
pub enum FilterPredicate {
    Equal(Value),
    NotEqual(Value),
    GreaterThan(Value),
    LessThan(Value),
    GreaterThanOrEqual(Value),
    LessThanOrEqual(Value),
}

/// Aggregate function types.
#[derive(Debug, Clone, Copy, PartialEq, Eq, Structural)]
pub enum AggregateFunction {
    Sum,
    Count,
    Avg,
    Min,
    Max,
}

/// What a vectorised filter gives on a column: `None` where the column and
/// predicate are not an integer column compared for `>` or `==` with an
/// integer.
pub open spec fn filter_outcome(c: VectorColumnView, p: FilterPredicate) -> Option<Seq<bool>> {
    match (c, p) {
        (VectorColumnView::Integer(v), FilterPredicate::GreaterThan(Value::Integer(t))) => Some(greater_flags(v, t)),
        (VectorColumnView::Integer(v), FilterPredicate::Equal(Value::Integer(t))) => Some(equal_flags(v, t)),
        _ => None,
    }
}

/// What an exact (integer) aggregation gives on a column: `None` for the
/// average and for columns that are not integers.
pub open spec fn aggregate_outcome(c: VectorColumnView, f: AggregateFunction) -> Option<i64> {
    match c {
        VectorColumnView::Integer(v) => match f {
            AggregateFunction::Sum => Some(wrapping_sum(v)),
            AggregateFunction::Count => Some(v.len() as i64),
            AggregateFunction::Min => Some(if v.len() == 0 { 0 } else { choose|m: i64| is_min(v, m) }),
            AggregateFunction::Max => Some(if v.len() == 0 { 0 } else { choose|m: i64| is_max(v, m) }),
            AggregateFunction::Avg => None,
        },
        _ => None,
    }
}

/// A batch of columns for vectorised query execution.
pub struct VectorBatch {
    columns: Vec<VectorColumn>,
    row_count: usize,
}

impl VectorBatch {
    /// The columns' models.
    pub closed spec fn cols(&self) -> Seq<VectorColumnView> {
        self.columns@.map_values(|c: VectorColumn| c@)
    }

    /// The recorded row count.
    pub closed spec fn rows(&self) -> usize {
        self.row_count
    }

    /// An empty batch.
    pub fn new() -> (b: VectorBatch)
        ensures
            b.cols() == Seq::<VectorColumnView>::empty(),
            b.rows() == 0,
    {
        let b = VectorBatch { columns: Vec::new(), row_count: 0 };
        assert(b.cols() =~= Seq::<VectorColumnView>::empty());
        b
    }

    /// Appends a column.
    pub fn add_column(&mut self, column: VectorColumn)
        ensures
            final(self).cols() == old(self).cols().push(column@),
            final(self).rows() == old(self).rows(),
    {
        self.columns.push(column);
        assert(self.cols() =~= old(self).cols().push(column@));
    }

    /// Sets the row count.
    pub fn set_row_count(&mut self, count: usize)
        ensures
            final(self).cols() == old(self).cols(),
            final(self).rows() == count,
    {
        self.row_count = count;
    }

    /// The row count.
    pub fn row_count(&self) -> (n: usize)
        ensures
            n == self.rows(),
    {
        self.row_count
    }

    /// The column at `column_idx`, if there is one.
    pub fn column(&self, column_idx: usize) -> (c: Option<&VectorColumn>)
        ensures
            column_idx < self.cols().len() <==> c is Some,
            c matches Some(col) ==> col@ == self.cols()[column_idx as int],
    {
        if column_idx < self.columns.len() {
            Some(&self.columns[column_idx])
        } else {
            None
        }
    }

    /// Applies a vectorised filter to a column: `NotFound` for a column that
    /// does not exist, `NotImplemented` for a predicate with no vectorised
    /// form (see [`filter_outcome`]).
    pub fn filter_column(&self, column_idx: usize, predicate: FilterPredicate) -> (r: Result<Vec<bool>>)
        ensures
            column_idx >= self.cols().len() ==> r matches Err(VelociError::NotFound(_)),
            column_idx < self.cols().len() ==> match filter_outcome(self.cols()[column_idx as int], predicate) {
                Some(flags) => r matches Ok(v) && v@ == flags,
                None => r matches Err(VelociError::NotImplemented(_)),
            },
    {
        if column_idx >= self.columns.len() {
            return Err(VelociError::NotFound(column_missing(column_idx)));
        }
        match (&self.columns[column_idx], predicate) {
            (VectorColumn::Integer(values), FilterPredicate::GreaterThan(Value::Integer(threshold))) => {
                Ok(VectorizedFilter::filter_integers_greater_than(values.as_slice(), threshold))
            },
            (VectorColumn::Integer(values), FilterPredicate::Equal(Value::Integer(target))) => {
                Ok(VectorizedFilter::filter_integers_equal(values.as_slice(), target))
            },
            _ => Err(VelociError::NotImplemented(
                String::from_str("Predicate type not supported for vectorized execution"),
            )),
        }
    }

    /// Aggregates an integer column exactly: the sum (wrapping), the count,
    /// or the least or greatest value (0 for an empty column). `NotFound` for
    /// a column that does not exist; `NotImplemented` for the average, which
    /// is a floating-point result, and for columns that are not integers.
    pub fn aggregate_integers(&self, column_idx: usize, agg_func: AggregateFunction) -> (r: Result<Value>)
        ensures
            column_idx >= self.cols().len() ==> r matches Err(VelociError::NotFound(_)),
            column_idx < self.cols().len() ==> match aggregate_outcome(self.cols()[column_idx as int], agg_func) {
                Some(x) => r matches Ok(v) && v@ == ValueView::Integer(x),
                None => r matches Err(VelociError::NotImplemented(_)),
            },
    {
        if column_idx >= self.columns.len() {
            return Err(VelociError::NotFound(column_missing(column_idx)));
        }
        let not_supported = VelociError::NotImplemented(String::from_str("Aggregate function not supported"));
        match &self.columns[column_idx] {
            VectorColumn::Integer(values) => match agg_func {
                AggregateFunction::Sum => Ok(Value::Integer(VectorizedAggregation::sum_integers(values.as_slice()))),
                AggregateFunction::Count => Ok(Value::Integer(values.len() as i64)),
                AggregateFunction::Min => {
                    let m = VectorizedAggregation::min_integers(values.as_slice());
                    match m {
                        Some(x) => {
                            proof { lemma_min_unique(values@, x); }
                            Ok(Value::Integer(x))
                        },
                        None => Ok(Value::Integer(0)),
                    }
                },
                AggregateFunction::Max => {
                    let m = VectorizedAggregation::max_integers(values.as_slice());
                    match m {
                        Some(x) => {
                            proof { lemma_max_unique(values@, x); }
                            Ok(Value::Integer(x))
                        },
                        None => Ok(Value::Integer(0)),
                    }
                },
                AggregateFunction::Avg => Err(not_supported),
            },
            _ => Err(not_supported),
        }
    }
}

impl Default for VectorBatch {
    fn default() -> (b: VectorBatch)
        ensures
            b.cols() == Seq::<VectorColumnView>::empty(),
            b.rows() == 0,
    {
        VectorBatch::new()
    }
}

/// The least element is the one that `choose` picks.
proof fn lemma_min_unique(v: Seq<i64>, m: i64)
    requires
        is_min(v, m),
    ensures
        (choose|x: i64| is_min(v, x)) == m,
{
    let c = choose|x: i64| is_min(v, x);
    let i = choose|i: int| 0 <= i < v.len() && v[i] == c;
    let j = choose|j: int| 0 <= j < v.len() && v[j] == m;
    assert(m <= v[i] && c <= v[j]);
}

/// The greatest element is the one that `choose` picks.
proof fn lemma_max_unique(v: Seq<i64>, m: i64)
    requires
        is_max(v, m),
    ensures
        (choose|x: i64| is_max(v, x)) == m,
{
    let c = choose|x: i64| is_max(v, x);
    let i = choose|i: int| 0 <= i < v.len() && v[i] == c;
    let j = choose|j: int| 0 <= j < v.len() && v[j] == m;
    assert(v[i] <= m && v[j] <= c);
}

/// "Column <n> not found".
fn column_missing(idx: usize) -> (s: String)
    ensures
        s@ == "Column "@ + crate::text::decimal_text(idx as nat) + " not found"@,
{
    let a = crate::parser::concat("Column ", decimal(idx).as_str());
    crate::parser::concat(a.as_str(), " not found")
}

} // verus!
