//! Tests of the query-1 operator: end-to-end runs, active-city
//! filtering, ranking order and the out-of-scale sentinel.
use debs2021::AnalysisLocations;
use debs2021::Location;
use debs2021::Locations;
use debs2021::aggregate::LocalizedMeasurement;
use debs2021::aggregate::preaggregate_all;
use debs2021::aggregate::PreAggregateData;
use debs2021::geometry::PointMicro;
use debs2021::pipeline::run_query1;
use debs2021::pipeline::run_pipeline;
use debs2021::pipeline::run_pipeline_with;
use debs2021::pipeline::Batch;
use debs2021::pipeline::Measurement;

fn lm(cityid: u32, ts: i64, p1: u32, p2: u32) -> LocalizedMeasurement {
    lm_of_batch(cityid, ts, 0, p1, p2)
}

fn lm_of_batch(cityid: u32, ts: i64, batch_seq_id: i64, p1: u32, p2: u32) -> LocalizedMeasurement {
    LocalizedMeasurement {
        batch_seq_id,
        cityid,
        timestamp_seconds: ts,
        p1,
        p2,
    }
}

fn square_x_catalog() -> Locations {
    // a square inside the Germany bounding box: longitudes 7..14,
    // latitudes 48..54 degrees
    let p = |x: i32, y: i32| PointMicro { x, y };
    let ring = vec![
        p(7_000_000, 48_000_000),
        p(14_000_000, 48_000_000),
        p(14_000_000, 54_000_000),
        p(7_000_000, 54_000_000),
        p(7_000_000, 48_000_000),
    ];
    Locations {
        locations: vec![Location {
            zipcode: "79098".to_string(),
            city: "X".to_string(),
            polygons: vec![ring],
        }],
    }
}

/// One bucket per five minutes, one measurement per bucket.
fn buckets_of(n: usize, p1: u32, p2: u32) -> Vec<PreAggregateData> {
    let mut bs: Vec<Vec<LocalizedMeasurement>> = Vec::new();
    for i in 0..n {
        bs.push(vec![lm(0, (i as i64) * 300, p1, p2)]);
    }
    preaggregate_all(&bs)
}

#[test]
fn short_end_to_end_improvement() {
    // two days of five-minute buckets, windows of one day: the city got
    // cleaner air than a year before, so it is reported with a positive
    // improvement at position zero
    let names = vec!["X".to_string()];
    let current = buckets_of(576, 50_000, 30_000);
    let lastyear = buckets_of(576, 100_000, 60_000);
    let results = run_query1(&current, &lastyear, 288, 288, 50, &names);
    assert_eq!(results.len(), 576 - 288 + 1);
    let first = &results[0];
    assert_eq!(first.topkimproved.len(), 1);
    let row = &first.topkimproved[0];
    assert_eq!(row.position, 0);
    assert_eq!(row.city, "X");
    assert!(row.average_aqi_improvement > 0);
    assert_eq!(row.average_aqi_improvement, 64679);
    // every window sees the same data, so every result is the same
    let last = &results[results.len() - 1];
    assert_eq!(last.topkimproved[0].average_aqi_improvement, 64679);
}

#[test]
fn inactive_city_is_not_reported() {
    // the city has data only in buckets older than the trailing ten
    // minutes of the window: it must not appear, however large its
    // improvement
    let names = vec!["X".to_string()];
    let bs_current = vec![
        vec![lm(0, 0, 10_000, 10_000)],
        vec![lm(0, 300, 10_000, 10_000)],
        vec![],
        vec![],
    ];
    let current = preaggregate_all(&bs_current);
    let lastyear = buckets_of(4, 100_000, 100_000);
    let results = run_query1(&current, &lastyear, 4, 2, 50, &names);
    assert_eq!(results.len(), 1);
    assert_eq!(results[0].topkimproved.len(), 0);
}

#[test]
fn ranking_is_by_improvement_with_positions() {
    // city 0 improved, city 1 got worse: city 0 must come first, and the
    // emitted improvements never increase along the list
    let names = vec!["Lowtown".to_string(), "Hightown".to_string()];
    let mk_bucket = |ts: i64, p0: u32, p1: u32| {
        vec![lm(0, ts, p0, p0), lm(1, ts + 1, p1, p1)]
    };
    let bs_current = vec![mk_bucket(0, 10_000, 100_000), mk_bucket(300, 10_000, 100_000)];
    let bs_lastyear = vec![mk_bucket(0, 100_000, 10_000), mk_bucket(300, 100_000, 10_000)];
    let current = preaggregate_all(&bs_current);
    let lastyear = preaggregate_all(&bs_lastyear);
    let results = run_query1(&current, &lastyear, 2, 2, 50, &names);
    assert_eq!(results.len(), 1);
    let rows = &results[0].topkimproved;
    assert_eq!(rows.len(), 2);
    assert_eq!(rows[0].position, 0);
    assert_eq!(rows[1].position, 1);
    assert_eq!(rows[0].city, "Lowtown");
    assert_eq!(rows[1].city, "Hightown");
    assert!(rows[0].average_aqi_improvement > 0);
    assert!(rows[1].average_aqi_improvement < 0);
    assert!(rows[0].average_aqi_improvement >= rows[1].average_aqi_improvement);
}

#[test]
fn out_of_scale_last_day_yields_sentinel() {
    // the five-day PM10 mean is on the scale, the last-day mean is not:
    // the improvement is still ranked, the last-day PM10 field carries
    // the sentinel
    let names = vec!["X".to_string()];
    let bs_current = vec![
        vec![lm(0, 0, 0, 10_000)],
        vec![lm(0, 300, 0, 10_000)],
        vec![lm(0, 600, 1_200_000, 10_000)],
        vec![lm(0, 900, 1_200_000, 10_000)],
    ];
    let current = preaggregate_all(&bs_current);
    let lastyear = buckets_of(4, 10_000, 10_000);
    let results = run_query1(&current, &lastyear, 4, 2, 50, &names);
    assert_eq!(results.len(), 1);
    let rows = &results[0].topkimproved;
    assert_eq!(rows.len(), 1);
    assert_eq!(rows[0].current_aqip1, i32::MAX);
    assert!(rows[0].current_aqip2 < i32::MAX);
}

#[test]
fn default_pipeline_end_to_end() {
    // the full run with the default configuration: one batch holding
    // five days of measurements for both years, one window emitted
    let mut locations = AnalysisLocations::new(square_x_catalog());
    let mut current: Vec<Measurement> = Vec::new();
    let mut lastyear: Vec<Measurement> = Vec::new();
    for i in 0..1440i64 {
        current.push(Measurement {
            timestamp_seconds: i * 300,
            latitude: 50_000_000,
            longitude: 10_000_000,
            p1: 50_000,
            p2: 30_000,
        });
        lastyear.push(Measurement {
            timestamp_seconds: i * 300,
            latitude: 50_000_000,
            longitude: 10_000_000,
            p1: 100_000,
            p2: 60_000,
        });
    }
    let batch = Batch { seq_id: 1, last: true, current, lastyear };
    let results = run_pipeline(&mut locations, vec![batch]);
    assert_eq!(results.len(), 1);
    let rows = &results[0].topkimproved;
    assert_eq!(rows.len(), 1);
    assert_eq!(rows[0].position, 0);
    assert_eq!(rows[0].city, "X");
    assert_eq!(rows[0].average_aqi_improvement, 64679);
    assert_eq!(rows[0].current_aqip1, 46296);
    assert_eq!(rows[0].current_aqip2, 88644);
    assert_eq!(results[0].benchmark_id, 0);
    // the window is labeled with the newest contributing batch id
    assert_eq!(results[0].batch_seq_id, 1);
}

#[test]
fn measurements_outside_germany_box_are_dropped() {
    // the catalog square lies outside the Germany bounding box, so
    // nothing is localized and nothing is emitted
    let mut locations = AnalysisLocations::new(square_x_catalog());
    let mut current: Vec<Measurement> = Vec::new();
    for i in 0..4i64 {
        current.push(Measurement {
            timestamp_seconds: i * 300,
            latitude: 5_000_000,
            longitude: 5_000_000,
            p1: 50_000,
            p2: 30_000,
        });
    }
    let batch = Batch { seq_id: 1, last: true, current, lastyear: Vec::new() };
    let results = run_pipeline(&mut locations, vec![batch]);
    assert_eq!(results.len(), 0);
    assert_eq!(locations.cachemisses, 0);
}

#[test]
fn incremental_windows_match_cold_recompute() {
    // the cached path (every window after the first) must emit the same
    // rankings as a cold start at that window
    let names = vec!["A".to_string(), "B".to_string()];
    let mut bs: Vec<Vec<LocalizedMeasurement>> = Vec::new();
    for i in 0..6i64 {
        let mut bucket = Vec::new();
        bucket.push(lm(0, i * 300, 10_000 + (i as u32) * 3_000, 9_000));
        if i % 2 == 0 {
            bucket.push(lm(1, i * 300 + 1, 80_000, 40_000 + (i as u32) * 5_000));
        }
        bs.push(bucket);
    }
    let mut bs_last: Vec<Vec<LocalizedMeasurement>> = Vec::new();
    for i in 0..6i64 {
        bs_last.push(vec![
            lm(0, i * 300, 90_000, 70_000),
            lm(1, i * 300 + 1, 20_000, 10_000),
        ]);
    }
    let current = preaggregate_all(&bs);
    let lastyear = preaggregate_all(&bs_last);
    let full = run_query1(&current, &lastyear, 2, 2, 50, &names);
    assert_eq!(full.len(), 5);
    for j in 1..5usize {
        // a fresh run over the suffix computes window j from scratch
        let cur_suffix = preaggregate_all(&bs[j..].to_vec());
        let last_suffix = preaggregate_all(&bs_last[j..].to_vec());
        let cold = run_query1(&cur_suffix, &last_suffix, 2, 2, 50, &names);
        let a = &full[j].topkimproved;
        let b = &cold[0].topkimproved;
        assert_eq!(a.len(), b.len());
        for x in 0..a.len() {
            assert_eq!(a[x].position, b[x].position);
            assert_eq!(a[x].city, b[x].city);
            assert_eq!(a[x].average_aqi_improvement, b[x].average_aqi_improvement);
            assert_eq!(a[x].current_aqip1, b[x].current_aqip1);
            assert_eq!(a[x].current_aqip2, b[x].current_aqip2);
        }
    }
}

#[test]
fn windows_are_labeled_with_the_newest_batch() {
    // the label is the newest non-empty bucket's batch id, falling back
    // over empty buckets; an empty window is labeled zero
    let names = vec!["X".to_string()];
    let bs_current = vec![
        vec![lm_of_batch(0, 0, 5, 10_000, 10_000)],
        vec![lm_of_batch(0, 300, 7, 10_000, 10_000)],
        vec![],
        vec![],
    ];
    let current = preaggregate_all(&bs_current);
    let lastyear = buckets_of(4, 20_000, 20_000);
    let results = run_query1(&current, &lastyear, 4, 2, 50, &names);
    assert_eq!(results.len(), 1);
    assert_eq!(results[0].batch_seq_id, 7);
    // a window with measurements in its newest bucket takes that bucket's id
    let bs2 = vec![
        vec![lm_of_batch(0, 0, 5, 10_000, 10_000)],
        vec![lm_of_batch(0, 300, 9, 10_000, 10_000)],
    ];
    let current2 = preaggregate_all(&bs2);
    let lastyear2 = buckets_of(2, 20_000, 20_000);
    let results2 = run_query1(&current2, &lastyear2, 2, 2, 50, &names);
    assert_eq!(results2[0].batch_seq_id, 9);
    // an entirely empty window keeps the zero label
    let empty_bs: Vec<Vec<LocalizedMeasurement>> = vec![vec![], vec![]];
    let current3 = preaggregate_all(&empty_bs);
    let results3 = run_query1(&current3, &lastyear2, 2, 2, 50, &names);
    assert_eq!(results3[0].batch_seq_id, 0);
    assert_eq!(results3[0].topkimproved.len(), 0);
}

#[test]
fn configured_pipeline_short_windows() {
    // the full pipeline with one-day windows: two days of buckets yield
    // 289 windows, each reporting the steady city at position 0
    let mut locations = AnalysisLocations::new(square_x_catalog());
    let mut current: Vec<Measurement> = Vec::new();
    let mut lastyear: Vec<Measurement> = Vec::new();
    for i in 0..576i64 {
        current.push(Measurement {
            timestamp_seconds: i * 300,
            latitude: 50_000_000,
            longitude: 10_000_000,
            p1: 50_000,
            p2: 30_000,
        });
        lastyear.push(Measurement {
            timestamp_seconds: i * 300,
            latitude: 50_000_000,
            longitude: 10_000_000,
            p1: 100_000,
            p2: 60_000,
        });
    }
    let batch = Batch { seq_id: 3, last: true, current, lastyear };
    let results = run_pipeline_with(&mut locations, vec![batch], 288, 288, 50);
    assert_eq!(results.len(), 576 - 288 + 1);
    let rows = &results[0].topkimproved;
    assert_eq!(rows.len(), 1);
    assert_eq!(rows[0].position, 0);
    assert_eq!(rows[0].city, "X");
    assert!(rows[0].average_aqi_improvement > 0);
    assert_eq!(rows[0].average_aqi_improvement, 64679);
    assert_eq!(results[0].batch_seq_id, 3);
}
