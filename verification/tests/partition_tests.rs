//! Tests of the five-minute partitioner.
use debs2021::aggregate::LocalizedMeasurement;
use debs2021::partition::Partition5Min;
use debs2021::partition::partition_all;

fn m(ts: i64) -> LocalizedMeasurement {
    LocalizedMeasurement {
        batch_seq_id: 0,
        cityid: 0,
        timestamp_seconds: ts,
        p1: 0,
        p2: 0,
    }
}

fn ts_of(bucket: &Vec<LocalizedMeasurement>) -> Vec<i64> {
    bucket.iter().map(|x| x.timestamp_seconds).collect()
}

#[test]
fn partition_with_gap() {
    // first window ends at 100 + 300 = 400; the span 700..1000 has no
    // data, so an empty bucket keeps the cadence
    let input = vec![m(100), m(150), m(400), m(450), m(1000), m(1050)];
    let buckets = partition_all(input);
    assert_eq!(buckets.len(), 4);
    assert_eq!(ts_of(&buckets[0]), vec![100, 150]);
    assert_eq!(ts_of(&buckets[1]), vec![400, 450]);
    assert_eq!(ts_of(&buckets[2]), Vec::<i64>::new());
    assert_eq!(ts_of(&buckets[3]), vec![1000, 1050]);
}

#[test]
fn partition_iterator_matches_whole_run() {
    let input = vec![m(100), m(150), m(400), m(450), m(1000), m(1050)];
    let mut part = input.clone().partition_5min();
    let mut collected: Vec<Vec<LocalizedMeasurement>> = Vec::new();
    while let Some(b) = part.next() {
        collected.push(b);
    }
    let whole = partition_all(input);
    assert_eq!(collected.len(), whole.len());
    for i in 0..whole.len() {
        assert_eq!(ts_of(&collected[i]), ts_of(&whole[i]));
    }
}

#[test]
fn partition_concatenates_back() {
    let input = vec![m(0), m(1), m(299), m(300), m(301), m(2000), m(2000)];
    let buckets = partition_all(input.clone());
    let mut rebuilt: Vec<i64> = Vec::new();
    for b in &buckets {
        rebuilt.extend(ts_of(b));
    }
    let expected: Vec<i64> = input.iter().map(|x| x.timestamp_seconds).collect();
    assert_eq!(rebuilt, expected);
}

#[test]
fn partition_empty_stream() {
    let buckets = partition_all(Vec::new());
    assert_eq!(buckets.len(), 0);
}
