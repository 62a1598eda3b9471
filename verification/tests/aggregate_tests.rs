//! Tests of the particle aggregates and city maps.  Concentration pairs
//! are given in milli units: (100, 300) stands for 0.1 and 0.3
//! micrograms per cubic metre.
use debs2021::aggregate::CityParticleMap;
use debs2021::aggregate::ParticleAggregate;

#[test]
fn test_from_f32() {
    let agg = ParticleAggregate::from_pairs(&vec![(100, 300), (200, 200)]);
    assert_eq!(agg.p1(), 150); // (0.1 + 0.2) / 2 = 0.15
    assert_eq!(agg.p2(), 250); // (0.3 + 0.2) / 2 = 0.25
}

#[test]
fn test_aggregate_multiple() {
    let agg1 = ParticleAggregate::from_pairs(&vec![(100, 300), (200, 200)]);
    let agg2 = ParticleAggregate::from_pairs(&vec![(100, 300), (200, 1600), (300, 200)]);
    assert_eq!(agg1.p1(), 150); // (0.1 + 0.2) / 2
    assert_eq!(agg2.p1(), 200); // (0.1 + 0.2 + 0.3) / 3
    assert_eq!(agg1.p2(), 250); // (0.3 + 0.2) / 2
    assert_eq!(agg2.p2(), 700); // (0.3 + 1.6 + 0.2) / 3

    let agg = ParticleAggregate::from_aggregates(&vec![agg1, agg2]);
    // (0.1 + 0.2 + 0.3 + 0.1 + 0.2) / (2 + 3) = 0.9 / 5
    assert_eq!(agg.p1(), 180);
    // (0.3 + 0.2 + 0.3 + 1.6 + 0.2) / (2 + 3) = 2.6 / 5
    assert_eq!(agg.p2(), 520);
}

#[test]
fn fold_splits_into_parts() {
    // fold(A ++ B) == fold(A) + fold(B), exactly
    let a = vec![(100, 300), (200, 200)];
    let b = vec![(500, 700), (1, 2), (3, 4)];
    let mut whole = a.clone();
    whole.extend(b.clone());
    let fa = ParticleAggregate::from_pairs(&a);
    let fb = ParticleAggregate::from_pairs(&b);
    let fw = ParticleAggregate::from_pairs(&whole);
    assert_eq!(fa.plus(fb), fw);
}

#[test]
fn add_then_subtract_gives_back() {
    // (X + Y) - Y == X
    let x = ParticleAggregate::from_pairs(&vec![(100, 200), (300, 400)]);
    let y = ParticleAggregate::from_pairs(&vec![(50, 60)]);
    assert_eq!(x.plus(y).sub(y), x);
    // subtracting everything resets to the zero aggregate
    assert_eq!(y.sub(y), ParticleAggregate::zero());
}

#[test]
fn city_map_add_and_get() {
    let mut m = CityParticleMap::new();
    m.add_measurement(7, (100, 200));
    m.add_measurement(7, (300, 400));
    m.add_measurement(9, (10, 20));
    let a7 = m.get(7).unwrap();
    assert_eq!(a7.p1(), 200);
    assert_eq!(a7.p2(), 300);
    assert!(m.get(9).is_some());
    assert!(m.get(8).is_none());
    assert_eq!(m.len(), 2);
}
