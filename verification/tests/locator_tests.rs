//! Tests of the locator: exact point-in-polygon answers, the interned
//! city table, and the verdict caches.  Coordinates are micro-degrees.
use debs2021::AnalysisLocations;
use debs2021::Location;
use debs2021::Locations;
use debs2021::geometry::PointMicro;

fn p(x: i32, y: i32) -> PointMicro {
    PointMicro { x, y }
}

fn square_catalog() -> Locations {
    // one square 10 by 10 degrees with city "A"
    let ring = vec![
        p(0, 0),
        p(10_000_000, 0),
        p(10_000_000, 10_000_000),
        p(0, 10_000_000),
        p(0, 0),
    ];
    Locations {
        locations: vec![Location {
            zipcode: "00001".to_string(),
            city: "A".to_string(),
            polygons: vec![ring],
        }],
    }
}

#[test]
fn locate_inside_and_outside() {
    let mut locations = AnalysisLocations::new(square_catalog());
    let hits = locations.localize(5_000_000, 5_000_000);
    assert_eq!(hits.len(), 1);
    assert_eq!(hits[0].zipcode, "00001");
    assert_eq!(locations.lookup(hits[0].cityid), "A");
    let misses = locations.localize(20_000_000, 20_000_000);
    assert_eq!(misses.len(), 0);
}

#[test]
fn repeated_queries_hit_the_cache() {
    let mut locations = AnalysisLocations::new(square_catalog());
    let first = locations.localize(5_000_000, 5_000_000);
    assert_eq!(locations.cachemisses, 1);
    assert_eq!(locations.cachehits, 0);
    let second = locations.localize(5_000_000, 5_000_000);
    assert_eq!(locations.cachehits, 1);
    // the cached answer equals the exact answer
    assert_eq!(first.len(), second.len());
    assert_eq!(first[0].zipcode, second[0].zipcode);
    assert_eq!(first[0].cityid, second[0].cityid);
}

#[test]
fn outside_cache_answers_within_bounding_box() {
    // an L-shaped polygon: its bounding box holds points outside it
    let ring = vec![
        p(0, 0),
        p(10_000_000, 0),
        p(10_000_000, 10_000_000),
        p(5_000_000, 10_000_000),
        p(5_000_000, 5_000_000),
        p(0, 5_000_000),
        p(0, 0),
    ];
    let catalog = Locations {
        locations: vec![Location {
            zipcode: "00002".to_string(),
            city: "B".to_string(),
            polygons: vec![ring],
        }],
    };
    let mut locations = AnalysisLocations::new(catalog);
    // (latitude 8, longitude 2): inside the box, outside the L
    let miss1 = locations.localize(8_000_000, 2_000_000);
    assert_eq!(miss1.len(), 0);
    assert_eq!(locations.cachemisses, 1);
    let miss2 = locations.localize(8_000_000, 2_000_000);
    assert_eq!(miss2.len(), 0);
    assert_eq!(locations.outsidecachehits, 1);
    // (latitude 2, longitude 2): in the lower arm of the L
    let hit = locations.localize(2_000_000, 2_000_000);
    assert_eq!(hit.len(), 1);
    assert_eq!(locations.lookup(hit[0].cityid), "B");
}

#[test]
fn city_names_are_interned_first_seen() {
    let mk = |zip: &str, city: &str| Location {
        zipcode: zip.to_string(),
        city: city.to_string(),
        polygons: vec![vec![p(0, 0), p(1_000_000, 0), p(1_000_000, 1_000_000), p(0, 0)]],
    };
    let catalog = Locations {
        locations: vec![mk("1", "X"), mk("2", "Y"), mk("3", "X"), mk("4", "Z")],
    };
    let locations = AnalysisLocations::new(catalog);
    assert_eq!(locations.known_cities, vec!["X", "Y", "Z"]);
    assert_eq!(locations.locations[0].0.cityid, 0);
    assert_eq!(locations.locations[1].0.cityid, 1);
    assert_eq!(locations.locations[2].0.cityid, 0);
    assert_eq!(locations.locations[3].0.cityid, 2);
}

#[test]
fn overlapping_polygons_match_in_catalog_order() {
    let big = vec![
        p(0, 0),
        p(10_000_000, 0),
        p(10_000_000, 10_000_000),
        p(0, 10_000_000),
        p(0, 0),
    ];
    let small = vec![
        p(2_000_000, 2_000_000),
        p(8_000_000, 2_000_000),
        p(8_000_000, 8_000_000),
        p(2_000_000, 8_000_000),
        p(2_000_000, 2_000_000),
    ];
    let catalog = Locations {
        locations: vec![
            Location { zipcode: "1".to_string(), city: "Outer".to_string(), polygons: vec![big] },
            Location { zipcode: "2".to_string(), city: "Inner".to_string(), polygons: vec![small] },
        ],
    };
    let mut locations = AnalysisLocations::new(catalog);
    let hits = locations.localize(5_000_000, 5_000_000);
    assert_eq!(hits.len(), 2);
    assert_eq!(hits[0].zipcode, "1");
    assert_eq!(hits[1].zipcode, "2");
    let outer_only = locations.localize(1_000_000, 1_000_000);
    assert_eq!(outer_only.len(), 1);
    assert_eq!(outer_only[0].zipcode, "1");
}

#[test]
fn points_near_the_boundary_are_never_cached() {
    // latitude 0.001 degrees: inside the square, but closer to the edge
    // than the clearance threshold allows, so both queries run the exact
    // test
    let mut locations = AnalysisLocations::new(square_catalog());
    let first = locations.localize(1_000, 5_000_000);
    assert_eq!(first.len(), 1);
    let second = locations.localize(1_000, 5_000_000);
    assert_eq!(second.len(), 1);
    assert_eq!(locations.cachemisses, 2);
    assert_eq!(locations.cachehits, 0);
}
