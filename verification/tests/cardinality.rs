use synth::cardinality::{distinct_non_null, distinct_values, learn_cardinality, CardinalityDist};
use synth::cardinality::MAX_COUNT_BUCKET;
use synth::value::Value;

fn whole(v: i64) -> Value {
    Value::Number(v.to_string())
}

fn ints(values: &[i64]) -> Vec<Value> {
    values.iter().map(|v| whole(*v)).collect()
}

fn share(dist: &CardinalityDist, count: u64) -> f64 {
    let parents = dist.counts.iter().find(|(n, _)| *n == count).unwrap().1;
    parents as f64 / dist.parents as f64
}

fn null_share(dist: &CardinalityDist) -> f64 {
    dist.null_rows as f64 / dist.rows as f64
}

#[test]
fn should_learn_counts_and_zero_share_from_parent_distinct() {
    let dist = learn_cardinality(&ints(&[1, 1, 2, 3]), Some(6)).unwrap();

    assert!((share(&dist, 0) - 3.0 / 6.0).abs() < 1e-9);
    assert!((share(&dist, 1) - 2.0 / 6.0).abs() < 1e-9);
    assert!((share(&dist, 2) - 1.0 / 6.0).abs() < 1e-9);
    assert_eq!(null_share(&dist), 0.0);
    assert_eq!(dist.counts, vec![(0, 3), (1, 2), (2, 1)]);
}

#[test]
fn should_keep_null_share_out_of_the_count_buckets() {
    let values = vec![Value::Null, whole(1), whole(1)];
    let dist = learn_cardinality(&values, Some(4)).unwrap();

    assert!((null_share(&dist) - 1.0 / 3.0).abs() < 1e-9);
    assert!((share(&dist, 0) - 3.0 / 4.0).abs() < 1e-9);
    assert!((share(&dist, 2) - 1.0 / 4.0).abs() < 1e-9);
}

#[test]
fn should_omit_the_zero_bucket_when_parent_distinct_is_unknown() {
    let dist = learn_cardinality(&ints(&[1, 1, 1]), None).unwrap();
    assert_eq!(dist.counts.len(), 1);
    assert!((share(&dist, 3) - 1.0).abs() < 1e-9);
}

#[test]
fn should_merge_the_tail_into_the_max_bucket() {
    let values = ints(&vec![1; MAX_COUNT_BUCKET as usize + 10]);
    let dist = learn_cardinality(&values, None).unwrap();
    assert_eq!(dist.counts.len(), 1);
    assert!((share(&dist, MAX_COUNT_BUCKET) - 1.0).abs() < 1e-9);
}

#[test]
fn should_return_none_when_no_parent_is_referenced() {
    assert!(learn_cardinality(&[Value::Null, Value::Null], Some(5)).is_none());
    assert!(learn_cardinality(&[], Some(5)).is_none());
}

#[test]
fn parents_are_the_sum_of_the_buckets() {
    let dist = learn_cardinality(&ints(&[4, 4, 4, 9, 7, 7]), Some(10)).unwrap();
    let sum: usize = dist.counts.iter().map(|(_, parents)| *parents).sum();
    assert_eq!(dist.parents, 10);
    assert_eq!(sum, dist.parents);
}

#[test]
fn distinct_values_keep_their_first_order() {
    let values = vec![whole(2), Value::Null, whole(1), whole(2)];
    assert_eq!(distinct_values(&values), vec![whole(2), whole(1)]);
    assert_eq!(distinct_non_null(&values), 2);
    assert_eq!(distinct_non_null(&[Value::Null]), 0);
}
