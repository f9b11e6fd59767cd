use velocidb::simd::{AggregateFunction, FilterPredicate, VectorBatch, VectorColumn, VectorizedAggregation, VectorizedFilter};
use velocidb::types::{Value, VelociError};

#[test]
fn test_vectorized_filter_greater_than() {
    let values = vec![1, 5, 10, 15, 20, 25];
    let result = VectorizedFilter::filter_integers_greater_than(&values, 10);

    assert_eq!(result, vec![false, false, false, true, true, true]);
}

#[test]
fn test_vectorized_filter_equal() {
    let values = vec![1, 5, 10, 15, 10, 25];
    let result = VectorizedFilter::filter_integers_equal(&values, 10);

    assert_eq!(result, vec![false, false, true, false, true, false]);
}

#[test]
fn test_vectorized_sum() {
    let values = vec![1, 2, 3, 4, 5, 6, 7, 8, 9, 10];
    let sum = VectorizedAggregation::sum_integers(&values);

    assert_eq!(sum, 55);
}

#[test]
fn test_vectorized_min_max() {
    let values = vec![5, 2, 8, 1, 9, 3];

    let min = VectorizedAggregation::min_integers(&values);
    let max = VectorizedAggregation::max_integers(&values);

    assert_eq!(min, Some(1));
    assert_eq!(max, Some(9));
}

#[test]
fn test_large_vectorized_sum() {
    let values: Vec<i64> = (1..=1000).collect();
    let sum = VectorizedAggregation::sum_integers(&values);

    assert_eq!(sum, 500500);
}

#[test]
fn simd_empty_inputs() {
    let empty: Vec<i64> = Vec::new();
    assert_eq!(VectorizedAggregation::min_integers(&empty), None);
    assert_eq!(VectorizedAggregation::max_integers(&empty), None);
    assert_eq!(VectorizedAggregation::sum_integers(&empty), 0);
    assert!(VectorizedFilter::filter_integers_equal(&empty, 1).is_empty());
}

#[test]
fn simd_sum_wraps_on_overflow() {
    let values = vec![i64::MAX, 1];
    assert_eq!(VectorizedAggregation::sum_integers(&values), i64::MIN);
}

#[test]
fn simd_count_non_null() {
    let values = vec![Some(1), None, Some(3), None, None];
    assert_eq!(VectorizedAggregation::count_non_null(&values), 2);
}

#[test]
fn simd_batch_filters_and_exact_aggregates() {
    let mut batch = VectorBatch::new();
    batch.add_column(VectorColumn::Integer(vec![1, 5, 10, 15, 20]));
    batch.add_column(VectorColumn::Text(vec!["a".to_string()]));
    batch.set_row_count(5);
    assert_eq!(batch.row_count(), 5);

    let flags = batch.filter_column(0, FilterPredicate::GreaterThan(Value::Integer(5))).unwrap();
    assert_eq!(flags, vec![false, false, true, true, true]);
    let flags = batch.filter_column(0, FilterPredicate::Equal(Value::Integer(15))).unwrap();
    assert_eq!(flags, vec![false, false, false, true, false]);
    assert!(matches!(
        batch.filter_column(0, FilterPredicate::LessThan(Value::Integer(5))),
        Err(VelociError::NotImplemented(_))
    ));
    assert!(matches!(
        batch.filter_column(7, FilterPredicate::Equal(Value::Integer(5))),
        Err(VelociError::NotFound(_))
    ));

    assert_eq!(batch.aggregate_integers(0, AggregateFunction::Sum).unwrap(), Value::Integer(51));
    assert_eq!(batch.aggregate_integers(0, AggregateFunction::Count).unwrap(), Value::Integer(5));
    assert_eq!(batch.aggregate_integers(0, AggregateFunction::Min).unwrap(), Value::Integer(1));
    assert_eq!(batch.aggregate_integers(0, AggregateFunction::Max).unwrap(), Value::Integer(20));
    assert!(matches!(
        batch.aggregate_integers(1, AggregateFunction::Sum),
        Err(VelociError::NotImplemented(_))
    ));
}
