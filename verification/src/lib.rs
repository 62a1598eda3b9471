//! Streaming analytics core for the DEBS 2021 air-quality challenge, query 1:
//! locate each measurement in a catalog of zipcode polygons, partition the
//! stream into five-minute buckets, keep two co-moving five-day windows
//! (current year and the year before), and rank the cities whose air quality
//! index improved most.
//!
//! All quantities are carried as fixed-point integers: particle
//! concentrations in thousandths of a microgram per cubic metre ("milli"
//! units) and coordinates in millionths of a degree ("micro" units), so that
//! every computation is exact and verified.
//!
//! This file holds the locator: the immutable catalog of zipcode polygons,
//! an interned city table, a bounding-box pre-filter, and one bounded
//! memoization cache per polygon and side (inside, outside), so that
//! repeatedly seen coordinates skip the exact polygon test.
//!
//! Two accelerators are deliberately simpler than spatial trees: the
//! bounding boxes are scanned linearly rather than through an R-tree, and
//! the clearance to the nearest edge is a linear minimum over the edge
//! list.  Both only decide how fast a query is answered, never what is
//! answered; see [`LocationCache`] for the cache's exact-point design.
pub mod aggregate;
pub mod aqi;
pub mod geometry;
pub mod partition;
pub mod pipeline;
pub mod spliter;
pub mod windows;

use crate::geometry::PointMicro;
use crate::geometry::lemma_inside_in_bounds;
use crate::geometry::mp_wf;
use crate::geometry::point_in_mp;
use crate::geometry::point_in_multipolygon;
use crate::geometry::pt_wf;
use crate::geometry::ring_wf;
use crate::geometry::seg_dist_sq;
use vstd::prelude::*;

verus! {

/// Index of a city name in the interned city table.
pub type CityId = u32;

/// How many points each polygon-side cache can memoize.
pub const CACHE_SIZE: usize = 32;

/// Squared clearance to the nearest polygon edge, in squared
/// micro-degrees, below which a point is not worth caching: points this
/// close to the boundary stay on the exact path.
pub const CACHE_EPS_SQ: i64 = 10_000_000;

/// One entry of the location catalog, with coordinates already in
/// micro-degrees: the polygons of one zipcode and the city it belongs to.
#[derive(Debug, Clone)]
pub struct Location {
    /// The zipcode the polygons cover.
    pub zipcode: String,
    /// The name of the city the zipcode belongs to.
    pub city: String,
    /// The polygons, each an ordered ring of points.
    pub polygons: Vec<Vec<PointMicro>>,
}

/// The location catalog handed to the locator at startup.
#[derive(Debug, Clone)]
pub struct Locations {
    /// The catalog entries, in input order.
    pub locations: Vec<Location>,
}

/// A zipcode with the id of its city, as the locator reports matches.
#[derive(Debug)]
pub struct AnalysisLocation {
    /// The matched zipcode.
    pub zipcode: String,
    /// The city id, which can be used to look up the city name using
    /// [`AnalysisLocations::lookup`].
    pub cityid: CityId,
}

/// An axis-aligned bounding box in micro-degrees.
#[derive(Debug, Copy, Clone)]
pub struct Bbox {
    /// Smallest longitude of any polygon point.
    pub min_x: i32,
    /// Smallest latitude of any polygon point.
    pub min_y: i32,
    /// Largest longitude of any polygon point.
    pub max_x: i32,
    /// Largest latitude of any polygon point.
    pub max_y: i32,
}

/// Whether the box holds the point.
pub open spec fn bbox_contains(b: Bbox, q: PointMicro) -> bool {
    &&& b.min_x <= q.x <= b.max_x
    &&& b.min_y <= q.y <= b.max_y
}

/// The rings of a multipolygon, as sequences.
pub open spec fn rings_of(polygons: Vec<Vec<PointMicro>>) -> Seq<Seq<PointMicro>> {
    polygons@.map_values(|r: Vec<PointMicro>| r@)
}

/// Declares arrayvec's bounded vector to the verifier; its contents are
/// spoken of only through [`cache_points`].
#[verifier::external_type_specification]
#[verifier::external_body]
#[verifier::reject_recursive_types(T)]
pub struct ExArrayVec<T, const CAP: usize>(arrayvec::ArrayVec<T, CAP>);

/// The contents of a polygon-side cache.  Relied on through the trusted
/// wrappers below; see [`cache_array_new`].
pub uninterp spec fn cache_points(v: arrayvec::ArrayVec<(i32, i32), 32>) -> Seq<(i32, i32)>;

/// Relies on arrayvec::ArrayVec::new: a freshly created vector holds no
/// elements.
#[verifier::external_body]
fn cache_array_new() -> (r: arrayvec::ArrayVec<(i32, i32), 32>)
    ensures
        cache_points(r) == Seq::<(i32, i32)>::empty(),
{
    arrayvec::ArrayVec::new()
}

/// Relies on arrayvec::ArrayVec::len: the number of elements held, never
/// above the capacity.
#[verifier::external_body]
fn cache_array_len(v: &arrayvec::ArrayVec<(i32, i32), 32>) -> (r: usize)
    ensures
        r == cache_points(*v).len(),
        r <= 32,
{
    v.len()
}

/// Relies on arrayvec::ArrayVec::as_slice: the elements in insertion
/// order.
#[verifier::external_body]
fn cache_array_get(v: &arrayvec::ArrayVec<(i32, i32), 32>, i: usize) -> (r: (i32, i32))
    requires
        i < cache_points(*v).len(),
    ensures
        r == cache_points(*v)[i as int],
{
    v.as_slice()[i]
}

/// Relies on arrayvec::ArrayVec::push: appends one element at the end;
/// the capacity bound in the precondition keeps it from panicking.
#[verifier::external_body]
fn cache_array_push(v: &mut arrayvec::ArrayVec<(i32, i32), 32>, e: (i32, i32))
    requires
        cache_points(*old(v)).len() < 32,
    ensures
        cache_points(*final(v)) == cache_points(*old(v)).push(e),
{
    v.push(e)
}

/// A bounded memoization cache for one polygon and one side of it: the
/// coordinates whose inside-or-outside verdict is already known.  Points
/// too close to the polygon's boundary (see [`CACHE_EPS_SQ`]) are never
/// admitted, and once the cache is full it simply stops admitting
/// (cold-fill, no eviction).
///
/// A cached verdict stands for the stored coordinate pair alone: this
/// replaces a design in which each entry was a circle around the point
/// whose radius was its clearance to the boundary, answering for every
/// query inside the circle.  That a clearance-radius disc never crosses
/// the boundary is a continuity argument about the plane that lies
/// outside this verifier's reach, so the radius here is degenerate: the
/// clearance is still computed and gates admission, but a hit needs the
/// exact coordinates, which is what makes cached answers provably equal
/// to the exact test.  Repeated coordinates — the case the cache is for,
/// since sensors are stationary — are still answered without a polygon
/// walk.
pub struct LocationCache {
    /// Every edge of the polygons, for the clearance test at admission.
    pub edges: Vec<(PointMicro, PointMicro)>,
    /// The memoized coordinates, longitude first.
    pub items: arrayvec::ArrayVec<(i32, i32), 32>,
}

/// All edge ends are acceptable coordinates.
pub open spec fn edges_wf(edges: Seq<(PointMicro, PointMicro)>) -> bool {
    forall|i: int|
        0 <= i < edges.len() ==> pt_wf((#[trigger] edges[i]).0) && pt_wf(edges[i].1)
}

impl LocationCache {
    /// Creates an empty cache whose edge set joins each ring's
    /// consecutive points, the last point back to the first.
    pub fn new(polygons: &Vec<Vec<PointMicro>>) -> (r: Self)
        requires
            mp_wf(rings_of(*polygons)),
        ensures
            r.edges@ == crate::geometry::edges_of(rings_of(*polygons)),
            edges_wf(r.edges@),
            cache_points(r.items).len() == 0,
    {
        let ghost rings = rings_of(*polygons);
        let mut edges: Vec<(PointMicro, PointMicro)> = Vec::new();
        let mut i: usize = 0;
        while i < polygons.len()
            invariant
                i <= polygons@.len(),
                rings == rings_of(*polygons),
                mp_wf(rings),
                edges_wf(edges@),
                edges@ == crate::geometry::edges_of(rings.take(i as int)),
            decreases polygons@.len() - i,
        {
            let ring = &polygons[i];
            let ghost before = edges@;
            proof {
                assert(rings[i as int] == ring@);
                assert(ring_wf(ring@));
            }
            let n = ring.len();
            let mut k: usize = 0;
            while k < n
                invariant
                    k <= n,
                    n == ring@.len(),
                    ring_wf(ring@),
                    edges_wf(edges@),
                    edges@ == before + crate::geometry::ring_edges(ring@).take(k as int),
                decreases n - k,
            {
                let second = if k + 1 == n {
                    ring[0]
                } else {
                    ring[k + 1]
                };
                proof {
                    assert(second == crate::geometry::edge_b(ring@, k as int));
                    assert(crate::geometry::ring_edges(ring@).take(k + 1)
                        =~= crate::geometry::ring_edges(ring@).take(k as int).push(
                        (ring@[k as int], crate::geometry::edge_b(ring@, k as int)),
                    ));
                }
                edges.push((ring[k], second));
                k += 1;
            }
            proof {
                assert(crate::geometry::ring_edges(ring@).take(n as int)
                    =~= crate::geometry::ring_edges(ring@));
                assert(rings.take(i + 1).drop_last() =~= rings.take(i as int));
                assert(rings.take(i + 1).last() == ring@);
            }
            i += 1;
        }
        proof {
            assert(rings.take(rings.len() as int) =~= rings);
        }
        LocationCache { edges, items: cache_array_new() }
    }

    /// Whether the exact verdict for this coordinate pair is memoized.
    pub fn contains(&self, latitude: i32, longitude: i32) -> (r: bool)
        ensures
            r == cache_points(self.items).contains((longitude, latitude)),
    {
        let n = cache_array_len(&self.items);
        let mut i: usize = 0;
        while i < n
            invariant
                i <= n,
                n == cache_points(self.items).len(),
                forall|j: int| 0 <= j < i ==> cache_points(self.items)[j] != (longitude, latitude),
            decreases n - i,
        {
            let item = cache_array_get(&self.items, i);
            if item.0 == longitude && item.1 == latitude {
                proof {
                    assert(cache_points(self.items)[i as int] == (longitude, latitude));
                }
                return true;
            }
            i += 1;
        }
        proof {
            if cache_points(self.items).contains((longitude, latitude)) {
                let j = choose|j: int|
                    0 <= j < cache_points(self.items).len() && cache_points(self.items)[j] == (
                longitude, latitude);
                assert(false);
            }
        }
        false
    }

    /// Memoizes a coordinate pair: the pair is appended exactly when the
    /// cache has room and the point's squared clearance to the nearest
    /// edge reaches the threshold; a full cache or a point too close to
    /// the boundary leaves the cache unchanged.
    pub fn add(&mut self, latitude: i32, longitude: i32)
        requires
            edges_wf(old(self).edges@),
            pt_wf(PointMicro { x: longitude, y: latitude }),
        ensures
            final(self).edges == old(self).edges,
            (cache_points(old(self).items).len() < 32 && crate::geometry::min_clearance(
                old(self).edges@,
                PointMicro { x: longitude, y: latitude },
            ) >= CACHE_EPS_SQ) ==> cache_points(final(self).items) == cache_points(
                old(self).items,
            ).push((longitude, latitude)),
            (cache_points(old(self).items).len() >= 32 || crate::geometry::min_clearance(
                old(self).edges@,
                PointMicro { x: longitude, y: latitude },
            ) < CACHE_EPS_SQ) ==> cache_points(final(self).items) == cache_points(
                old(self).items,
            ),
    {
        if cache_array_len(&self.items) >= CACHE_SIZE {
            return ;
        }
        // the clearance to the nearest edge; points close to the border
        // are not kept
        let q = PointMicro { x: longitude, y: latitude };
        let mut clearance: i64 = i64::MAX;
        let mut i: usize = 0;
        while i < self.edges.len()
            invariant
                i <= self.edges@.len(),
                edges_wf(self.edges@),
                pt_wf(q),
                *self == *old(self),
                clearance == crate::geometry::min_clearance(
                    self.edges@.take(i as int),
                    q,
                ),
            decreases self.edges@.len() - i,
        {
            let e = self.edges[i];
            let d = seg_dist_sq(e.0, e.1, q);
            proof {
                assert(self.edges@.take(i + 1).drop_last() =~= self.edges@.take(i as int));
                assert(self.edges@.take(i + 1).last() == e);
            }
            if d < clearance {
                clearance = d;
            }
            i += 1;
        }
        proof {
            assert(self.edges@.take(self.edges@.len() as int) =~= self.edges@);
        }
        if clearance < CACHE_EPS_SQ {
            // too close to the border: leave it on the exact path
            return ;
        }
        if cache_array_len(&self.items) < CACHE_SIZE {
            cache_array_push(&mut self.items, (longitude, latitude));
        }
    }
}

/// The location catalog, ready for queries: polygons, bounding boxes,
/// the interned city table and the per-polygon verdict caches.
pub struct AnalysisLocations {
    /// Per catalog entry: the zipcode with its city id, and the polygons.
    pub locations: Vec<(AnalysisLocation, Vec<Vec<PointMicro>>)>,
    /// The bounding box of each entry's polygons.
    pub bboxes: Vec<Bbox>,
    /// Per entry, the memoized coordinates known to lie inside.
    pub insidecache: Vec<LocationCache>,
    /// Per entry, the memoized coordinates known to lie outside.
    pub outsidecache: Vec<LocationCache>,
    /// A map from city id to city name: the id is the index.
    pub known_cities: Vec<String>,
    /// How many queries were answered from the inside cache.
    pub cachehits: u64,
    /// How many queries ran the exact polygon test.
    pub cachemisses: u64,
    /// How many queries were answered from the outside cache.
    pub outsidecachehits: u64,
}

/// The interned city table of a sequence of city names: every name once,
/// in order of first appearance.
pub open spec fn intern_seq(s: Seq<Seq<char>>) -> Seq<Seq<char>>
    decreases s.len(),
{
    if s.len() == 0 {
        Seq::empty()
    } else {
        let p = intern_seq(s.drop_last());
        if p.contains(s.last()) {
            p
        } else {
            p.push(s.last())
        }
    }
}

/// The point a cache entry stands for.
pub open spec fn cached_pt(e: (i32, i32)) -> PointMicro {
    PointMicro { x: e.0, y: e.1 }
}

/// How many catalog entries' bounding boxes hold the query point: each
/// of them is consulted by a query, stepping exactly one of the three
/// observability counters.
pub open spec fn candidates_in_box(bboxes: Seq<Bbox>, q: PointMicro) -> int
    decreases bboxes.len(),
{
    if bboxes.len() == 0 {
        0
    } else {
        candidates_in_box(bboxes.drop_last(), q) + if bbox_contains(bboxes.last(), q) {
            1int
        } else {
            0int
        }
    }
}

/// The candidate count of a prefix is non-negative and never exceeds the
/// count of the whole catalog.
pub proof fn lemma_candidates_in_box_prefix(bboxes: Seq<Bbox>, q: PointMicro, i: int)
    requires
        0 <= i <= bboxes.len(),
    ensures
        0 <= candidates_in_box(bboxes.take(i), q) <= candidates_in_box(bboxes, q),
    decreases bboxes.len() - i,
{
    lemma_candidates_in_box_nonneg(bboxes.take(i), q);
    if i < bboxes.len() {
        lemma_candidates_in_box_prefix(bboxes, q, i + 1);
        assert(bboxes.take(i + 1).drop_last() =~= bboxes.take(i));
        assert(bboxes.take(i + 1).last() == bboxes[i]);
    } else {
        assert(bboxes.take(i) =~= bboxes);
    }
}

/// Candidate counts are never negative.
pub proof fn lemma_candidates_in_box_nonneg(bboxes: Seq<Bbox>, q: PointMicro)
    ensures
        candidates_in_box(bboxes, q) >= 0,
    decreases bboxes.len(),
{
    if bboxes.len() > 0 {
        lemma_candidates_in_box_nonneg(bboxes.drop_last(), q);
    }
}

/// The locator's invariant: aligned tables, acceptable polygons, valid
/// city ids, bounding boxes that hold all their polygons' points, and
/// caches that only memoize true verdicts.
pub open spec fn locations_wf(s: AnalysisLocations) -> bool {
    &&& s.bboxes@.len() == s.locations@.len()
    &&& s.insidecache@.len() == s.locations@.len()
    &&& s.outsidecache@.len() == s.locations@.len()
    &&& forall|i: int|
        0 <= i < s.locations@.len() ==> {
            let rings = rings_of((#[trigger] s.locations@[i]).1);
            &&& mp_wf(rings)
            &&& (s.locations@[i].0.cityid as int) < s.known_cities@.len()
            &&& (forall|ri: int, pj: int|
                0 <= ri < rings.len() && 0 <= pj < rings[ri].len() ==> bbox_contains(
                    s.bboxes@[i],
                    #[trigger] rings[ri][pj],
                ))
            &&& s.insidecache@[i].edges@ == crate::geometry::edges_of(rings)
            &&& s.outsidecache@[i].edges@ == crate::geometry::edges_of(rings)
            &&& edges_wf(s.insidecache@[i].edges@)
            &&& edges_wf(s.outsidecache@[i].edges@)
            &&& cache_points(s.insidecache@[i].items).len() <= 32
            &&& cache_points(s.outsidecache@[i].items).len() <= 32
            &&& (forall|j: int|
                0 <= j < cache_points(s.insidecache@[i].items).len() ==> point_in_multipolygon(
                    rings,
                    cached_pt(#[trigger] cache_points(s.insidecache@[i].items)[j]),
                ))
            &&& (forall|j: int|
                0 <= j < cache_points(s.outsidecache@[i].items).len() ==> !point_in_multipolygon(
                    rings,
                    cached_pt(#[trigger] cache_points(s.outsidecache@[i].items)[j]),
                ))
        }
}

/// The matches a query point yields: the zipcode and city id of every
/// catalog entry whose polygons contain it, in catalog order.
pub open spec fn matches_of(
    locs: Seq<(AnalysisLocation, Vec<Vec<PointMicro>>)>,
    q: PointMicro,
) -> Seq<(Seq<char>, CityId)>
    decreases locs.len(),
{
    if locs.len() == 0 {
        Seq::empty()
    } else {
        let prev = matches_of(locs.drop_last(), q);
        if point_in_multipolygon(rings_of(locs.last().1), q) {
            prev.push((locs.last().0.zipcode@, locs.last().0.cityid))
        } else {
            prev
        }
    }
}

} // verus!

verus! {

/// Copies one polygon ring.
fn copy_ring(ring: &Vec<PointMicro>) -> (r: Vec<PointMicro>)
    ensures
        r@ == ring@,
{
    let mut r: Vec<PointMicro> = Vec::new();
    let mut i: usize = 0;
    while i < ring.len()
        invariant
            i <= ring@.len(),
            r@ == ring@.take(i as int),
        decreases ring@.len() - i,
    {
        r.push(ring[i]);
        proof {
            assert(r@ =~= ring@.take(i + 1));
        }
        i += 1;
    }
    proof {
        assert(ring@.take(ring@.len() as int) =~= ring@);
    }
    r
}

/// Index of `city` in the interned table, when already present.
fn find_city(known: &Vec<String>, city: &String) -> (r: Option<usize>)
    ensures
        (r is Some) ==> (r->Some_0) < known@.len() && known@[r->Some_0 as int]@ == city@,
        (r is None) ==> forall|k: int| 0 <= k < known@.len() ==> (#[trigger] known@[k])@ != city@,
{
    let mut j: usize = 0;
    while j < known.len()
        invariant
            j <= known@.len(),
            forall|k: int| 0 <= k < j ==> (#[trigger] known@[k])@ != city@,
        decreases known@.len() - j,
    {
        if known[j].eq(city) {
            return Some(j);
        }
        j += 1;
    }
    None
}

/// Saturating counter step, for the observability counters.
fn bump_counter(c: u64) -> (r: u64)
    ensures
        r == if c < u64::MAX {
            c + 1
        } else {
            c as int
        },
{
    if c < u64::MAX {
        c + 1
    } else {
        c
    }
}

impl AnalysisLocations {
    /// Builds the locator: interns city names in order of first
    /// appearance, computes each entry's bounding box and prepares the
    /// empty verdict caches.
    pub fn new(locations: Locations) -> (r: Self)
        requires
            locations.locations@.len() <= 0xFFFF_FFFF,
            forall|i: int|
                0 <= i < locations.locations@.len() ==> mp_wf(
                    rings_of((#[trigger] locations.locations@[i]).polygons),
                ),
        ensures
            locations_wf(r),
            r.locations@.len() == locations.locations@.len(),
            forall|i: int|
                0 <= i < r.locations@.len() ==> {
                    &&& (#[trigger] r.locations@[i]).0.zipcode@ == locations.locations@[i].zipcode@
                    &&& rings_of(r.locations@[i].1) == rings_of(locations.locations@[i].polygons)
                    &&& r.known_cities@[r.locations@[i].0.cityid as int]@
                        == locations.locations@[i].city@
                },
            r.known_cities@.map_values(|c: String| c@) == intern_seq(
                locations.locations@.map_values(|l: Location| l.city@),
            ),
            r.cachehits == 0,
            r.cachemisses == 0,
            r.outsidecachehits == 0,
            forall|i: int|
                0 <= i < r.locations@.len() ==> cache_points(
                    (#[trigger] r.insidecache@[i]).items,
                ).len() == 0,
            forall|i: int|
                0 <= i < r.locations@.len() ==> cache_points(
                    (#[trigger] r.outsidecache@[i]).items,
                ).len() == 0,
    {
        let ghost input0 = locations.locations@;
        let ghost cities = locations.locations@.map_values(|l: Location| l.city@);
        let mut src = locations.locations;
        let mut out_locs: Vec<(AnalysisLocation, Vec<Vec<PointMicro>>)> = Vec::new();
        let mut bboxes: Vec<Bbox> = Vec::new();
        let mut insidecache: Vec<LocationCache> = Vec::new();
        let mut outsidecache: Vec<LocationCache> = Vec::new();
        let mut known_cities: Vec<String> = Vec::new();
        let n = src.len();
        let mut i: usize = 0;
        while i < n
            invariant
                i <= n,
                n == input0.len(),
                input0.len() <= 0xFFFF_FFFF,
                src@.len() == n,
                cities == input0.map_values(|l: Location| l.city@),
                forall|j: int| i <= j < n ==> src@[j] == input0[j],
                forall|j: int|
                    0 <= j < n ==> mp_wf(rings_of((#[trigger] input0[j]).polygons)),
                out_locs@.len() == i,
                bboxes@.len() == i,
                insidecache@.len() == i,
                outsidecache@.len() == i,
                known_cities@.len() <= i,
                known_cities@.map_values(|c: String| c@) == intern_seq(cities.take(i as int)),
                forall|j: int|
                    0 <= j < i ==> {
                        let rings = rings_of((#[trigger] out_locs@[j]).1);
                        &&& out_locs@[j].0.zipcode@ == input0[j].zipcode@
                        &&& rings == rings_of(input0[j].polygons)
                        &&& mp_wf(rings)
                        &&& (out_locs@[j].0.cityid as int) < known_cities@.len()
                        &&& known_cities@[out_locs@[j].0.cityid as int]@ == input0[j].city@
                        &&& (forall|ri: int, pj: int|
                            0 <= ri < rings.len() && 0 <= pj < rings[ri].len() ==> bbox_contains(
                                bboxes@[j],
                                #[trigger] rings[ri][pj],
                            ))
                        &&& insidecache@[j].edges@ == crate::geometry::edges_of(rings)
                        &&& outsidecache@[j].edges@ == crate::geometry::edges_of(rings)
                        &&& edges_wf(insidecache@[j].edges@)
                        &&& edges_wf(outsidecache@[j].edges@)
                        &&& cache_points(insidecache@[j].items).len() == 0
                        &&& cache_points(outsidecache@[j].items).len() == 0
                    },
            decreases n - i,
        {
            let mut loc = Location { zipcode: String::new(), city: String::new(), polygons: Vec::new() };
            core::mem::swap(&mut loc, &mut src[i]);
            proof {
                assert(loc == input0[i as int]);
            }
            // intern the city name: first appearance fixes the id
            let ghost kcv = known_cities@.map_values(|c: String| c@);
            proof {
                assert(cities.take(i + 1).drop_last() =~= cities.take(i as int));
                assert(cities.take(i + 1).last() == input0[i as int].city@);
            }
            let cityid: CityId = match find_city(&known_cities, &loc.city) {
                Some(j) => {
                    proof {
                        assert(kcv[j as int] == known_cities@[j as int]@);
                        assert(kcv.contains(loc.city@));
                        assert(intern_seq(cities.take(i + 1)) =~= kcv);
                    }
                    j as u32
                },
                None => {
                    proof {
                        if kcv.contains(loc.city@) {
                            let k = choose|k: int| 0 <= k < kcv.len() && kcv[k] == loc.city@;
                            assert(known_cities@[k]@ == loc.city@);
                            assert(false);
                        }
                    }
                    let id = known_cities.len() as u32;
                    known_cities.push(loc.city.clone());
                    proof {
                        assert(known_cities@.map_values(|c: String| c@) =~= kcv.push(loc.city@));
                        assert(known_cities@.map_values(|c: String| c@) =~= intern_seq(
                            cities.take(i + 1),
                        ));
                    }
                    id
                },
            };
            // the bounding box of all polygon points of this entry
            let mut bbox = Bbox {
                min_x: i32::MAX,
                min_y: i32::MAX,
                max_x: i32::MIN,
                max_y: i32::MIN,
            };
            let ghost rings = rings_of(loc.polygons);
            let mut ri: usize = 0;
            while ri < loc.polygons.len()
                invariant
                    ri <= rings.len(),
                    rings == rings_of(loc.polygons),
                    forall|a: int, b: int|
                        0 <= a < ri && 0 <= b < rings[a].len() ==> bbox_contains(
                            bbox,
                            #[trigger] rings[a][b],
                        ),
                decreases rings.len() - ri,
            {
                let ring = &loc.polygons[ri];
                proof {
                    assert(rings[ri as int] == ring@);
                }
                let mut pj: usize = 0;
                while pj < ring.len()
                    invariant
                        pj <= ring@.len(),
                        rings == rings_of(loc.polygons),
                        ri < rings.len(),
                        rings[ri as int] == ring@,
                        forall|a: int, b: int|
                            0 <= a < ri && 0 <= b < rings[a].len() ==> bbox_contains(
                                bbox,
                                #[trigger] rings[a][b],
                            ),
                        forall|b: int|
                            0 <= b < pj ==> bbox_contains(bbox, #[trigger] ring@[b]),
                    decreases ring@.len() - pj,
                {
                    let p = ring[pj];
                    if p.x < bbox.min_x {
                        bbox.min_x = p.x;
                    }
                    if p.x > bbox.max_x {
                        bbox.max_x = p.x;
                    }
                    if p.y < bbox.min_y {
                        bbox.min_y = p.y;
                    }
                    if p.y > bbox.max_y {
                        bbox.max_y = p.y;
                    }
                    pj += 1;
                }
                ri += 1;
            }
            let icache = LocationCache::new(&loc.polygons);
            let ocache = LocationCache::new(&loc.polygons);
            let analysis = AnalysisLocation { zipcode: loc.zipcode, cityid };
            out_locs.push((analysis, loc.polygons));
            bboxes.push(bbox);
            insidecache.push(icache);
            outsidecache.push(ocache);
            i += 1;
        }
        proof {
            assert(cities.take(n as int) =~= cities);
            assert forall|j: int| 0 <= j < out_locs@.len() implies cache_points(
                (#[trigger] insidecache@[j]).items,
            ).len() == 0 by {
                assert(out_locs@[j] == out_locs@[j]);
            }
            assert forall|j: int| 0 <= j < out_locs@.len() implies cache_points(
                (#[trigger] outsidecache@[j]).items,
            ).len() == 0 by {
                assert(out_locs@[j] == out_locs@[j]);
            }
        }
        AnalysisLocations {
            locations: out_locs,
            bboxes,
            insidecache,
            outsidecache,
            known_cities,
            cachehits: 0,
            cachemisses: 0,
            outsidecachehits: 0,
        }
    }

    /// Yields the zipcode and city id of every catalog entry whose
    /// polygons contain the coordinate, in catalog order: an empty result
    /// means the coordinate lies outside every polygon.  Verdicts may be
    /// answered from the per-polygon caches; a cache answer always equals
    /// the exact polygon test.  Each consulted candidate — each entry
    /// whose bounding box holds the point — steps exactly one of the
    /// three counters, and each of its two caches either stays as it is
    /// or memoizes this very point.
    pub fn localize(&mut self, latitude: i32, longitude: i32) -> (r: Vec<AnalysisLocation>)
        requires
            locations_wf(*old(self)),
            pt_wf(PointMicro { x: longitude, y: latitude }),
        ensures
            locations_wf(*final(self)),
            final(self).locations == old(self).locations,
            final(self).known_cities == old(self).known_cities,
            final(self).bboxes == old(self).bboxes,
            r@.len() == matches_of(
                old(self).locations@,
                PointMicro { x: longitude, y: latitude },
            ).len(),
            forall|i: int|
                0 <= i < r@.len() ==> ((#[trigger] r@[i]).zipcode@, r@[i].cityid) == matches_of(
                    old(self).locations@,
                    PointMicro { x: longitude, y: latitude },
                )[i],
            final(self).cachehits >= old(self).cachehits,
            final(self).cachemisses >= old(self).cachemisses,
            final(self).outsidecachehits >= old(self).outsidecachehits,
            old(self).cachehits + old(self).cachemisses + old(self).outsidecachehits
                + candidates_in_box(old(self).bboxes@, PointMicro { x: longitude, y: latitude })
                <= u64::MAX ==> final(self).cachehits + final(self).cachemisses
                + final(self).outsidecachehits == old(self).cachehits + old(self).cachemisses
                + old(self).outsidecachehits + candidates_in_box(
                old(self).bboxes@,
                PointMicro { x: longitude, y: latitude },
            ),
            forall|i: int|
                0 <= i < old(self).locations@.len() ==> cache_points(
                    (#[trigger] final(self).insidecache@[i]).items,
                ) == cache_points(old(self).insidecache@[i].items) || cache_points(
                    final(self).insidecache@[i].items,
                ) == cache_points(old(self).insidecache@[i].items).push((longitude, latitude)),
            forall|i: int|
                0 <= i < old(self).locations@.len() ==> cache_points(
                    (#[trigger] final(self).outsidecache@[i]).items,
                ) == cache_points(old(self).outsidecache@[i].items) || cache_points(
                    final(self).outsidecache@[i].items,
                ) == cache_points(old(self).outsidecache@[i].items).push((longitude, latitude)),
    {
        let ghost q = PointMicro { x: longitude, y: latitude };
        let ghost locs = self.locations@;
        let ghost inside0 = self.insidecache@;
        let ghost outside0 = self.outsidecache@;
        let mut out: Vec<AnalysisLocation> = Vec::new();
        let n = self.locations.len();
        let mut i: usize = 0;
        while i < n
            invariant
                i <= n,
                n == locs.len(),
                locations_wf(*self),
                locations_wf(*old(self)),
                old(self).locations@ == locs,
                self.locations@ == locs,
                self.locations == old(self).locations,
                self.known_cities == old(self).known_cities,
                self.bboxes == old(self).bboxes,
                pt_wf(q),
                q == (PointMicro { x: longitude, y: latitude }),
                out@.len() == matches_of(locs.take(i as int), q).len(),
                forall|k: int|
                    0 <= k < out@.len() ==> ((#[trigger] out@[k]).zipcode@, out@[k].cityid)
                        == matches_of(locs.take(i as int), q)[k],
                self.cachehits >= old(self).cachehits,
                self.cachemisses >= old(self).cachemisses,
                self.outsidecachehits >= old(self).outsidecachehits,
                old(self).cachehits + old(self).cachemisses + old(self).outsidecachehits
                    + candidates_in_box(old(self).bboxes@, q) <= u64::MAX ==> self.cachehits
                    + self.cachemisses + self.outsidecachehits == old(self).cachehits
                    + old(self).cachemisses + old(self).outsidecachehits + candidates_in_box(
                    old(self).bboxes@.take(i as int),
                    q,
                ),
                inside0.len() == locs.len(),
                outside0.len() == locs.len(),
                self.insidecache@.len() == locs.len(),
                self.outsidecache@.len() == locs.len(),
                forall|j: int|
                    i <= j < locs.len() ==> (#[trigger] self.insidecache@[j]) == inside0[j],
                forall|j: int|
                    i <= j < locs.len() ==> (#[trigger] self.outsidecache@[j]) == outside0[j],
                forall|j: int|
                    0 <= j < i ==> cache_points((#[trigger] self.insidecache@[j]).items)
                        == cache_points(inside0[j].items) || cache_points(
                        self.insidecache@[j].items,
                    ) == cache_points(inside0[j].items).push((longitude, latitude)),
                forall|j: int|
                    0 <= j < i ==> cache_points((#[trigger] self.outsidecache@[j]).items)
                        == cache_points(outside0[j].items) || cache_points(
                        self.outsidecache@[j].items,
                    ) == cache_points(outside0[j].items).push((longitude, latitude)),
            decreases n - i,
        {
            let ghost rings = rings_of(locs[i as int].1);
            proof {
                assert(locs.take(i + 1).drop_last() =~= locs.take(i as int));
                assert(locs.take(i + 1).last() == locs[i as int]);
                assert(old(self).bboxes@.take(i + 1).drop_last() =~= old(self).bboxes@.take(
                    i as int,
                ));
                assert(old(self).bboxes@.take(i + 1).last() == old(self).bboxes@[i as int]);
                lemma_candidates_in_box_prefix(old(self).bboxes@, q, i + 1);
                lemma_candidates_in_box_prefix(old(self).bboxes@, q, i as int);
            }
            let bbox = self.bboxes[i];
            let in_box = bbox.min_x <= longitude && longitude <= bbox.max_x && bbox.min_y
                <= latitude && latitude <= bbox.max_y;
            if !in_box {
                // outside the bounding box: a point inside any ring would
                // have to lie inside the box
                proof {
                    if point_in_multipolygon(rings, q) {
                        let ri = choose|ri: int|
                            0 <= ri < rings.len() && crate::geometry::point_in_ring_spec(
                                #[trigger] rings[ri],
                                q,
                            );
                        assert(rings[ri].len() >= 1) by {
                            if rings[ri].len() == 0 {
                                assert(crate::geometry::crossings(rings[ri], q, 0) == 0);
                            }
                        }
                        lemma_inside_in_bounds(
                            rings[ri],
                            q,
                            bbox.min_x as int,
                            bbox.max_x as int,
                            bbox.min_y as int,
                            bbox.max_y as int,
                        );
                        assert(false);
                    }
                }
            } else if self.outsidecache[i].contains(latitude, longitude) {
                self.outsidecachehits = bump_counter(self.outsidecachehits);
                proof {
                    let pts = cache_points(self.outsidecache@[i as int].items);
                    let j = choose|j: int| 0 <= j < pts.len() && pts[j] == (longitude, latitude);
                    assert(cached_pt(pts[j]) == q);
                    assert(!point_in_multipolygon(rings, q));
                }
            } else if self.insidecache[i].contains(latitude, longitude) {
                self.cachehits = bump_counter(self.cachehits);
                proof {
                    let pts = cache_points(self.insidecache@[i as int].items);
                    let j = choose|j: int| 0 <= j < pts.len() && pts[j] == (longitude, latitude);
                    assert(cached_pt(pts[j]) == q);
                    assert(point_in_multipolygon(rings, q));
                }
                let m = &self.locations[i].0;
                out.push(AnalysisLocation { zipcode: m.zipcode.clone(), cityid: m.cityid });
            } else {
                self.cachemisses = bump_counter(self.cachemisses);
                let q_exec = PointMicro { x: longitude, y: latitude };
                let verdict = point_in_mp(&self.locations[i].1, q_exec);
                if verdict {
                    let ghost caches0 = self.insidecache@;
                    let c = &mut self.insidecache[i];
                    c.add(latitude, longitude);
                    proof {
                        assert(self.insidecache@ =~= caches0.update(i as int, self.insidecache@[i as int]));
                        assert forall|j: int|
                            0 <= j < cache_points(
                                self.insidecache@[i as int].items,
                            ).len() implies point_in_multipolygon(
                            rings,
                            cached_pt(#[trigger] cache_points(self.insidecache@[i as int].items)[j]),
                        ) by {
                            let newpts = cache_points(self.insidecache@[i as int].items);
                            let oldpts = cache_points(caches0[i as int].items);
                            if newpts == oldpts.push((longitude, latitude)) && j == oldpts.len() {
                                assert(cached_pt(newpts[j]) == q);
                            } else {
                                assert(newpts[j] == oldpts[j]);
                            }
                        }
                    }
                    let m = &self.locations[i].0;
                    out.push(AnalysisLocation { zipcode: m.zipcode.clone(), cityid: m.cityid });
                } else {
                    let ghost caches0 = self.outsidecache@;
                    let c = &mut self.outsidecache[i];
                    c.add(latitude, longitude);
                    proof {
                        assert(self.outsidecache@ =~= caches0.update(i as int, self.outsidecache@[i as int]));
                        assert forall|j: int|
                            0 <= j < cache_points(
                                self.outsidecache@[i as int].items,
                            ).len() implies !point_in_multipolygon(
                            rings,
                            cached_pt(#[trigger] cache_points(self.outsidecache@[i as int].items)[j]),
                        ) by {
                            let newpts = cache_points(self.outsidecache@[i as int].items);
                            let oldpts = cache_points(caches0[i as int].items);
                            if newpts == oldpts.push((longitude, latitude)) && j == oldpts.len() {
                                assert(cached_pt(newpts[j]) == q);
                            } else {
                                assert(newpts[j] == oldpts[j]);
                            }
                        }
                    }
                }
            }
            i += 1;
        }
        proof {
            assert(locs.take(n as int) =~= locs);
            assert(old(self).bboxes@.take(n as int) =~= old(self).bboxes@);
            assert(inside0 == old(self).insidecache@);
            assert(outside0 == old(self).outsidecache@);
        }
        out
    }

    /// The name of the city with the given id.
    pub fn lookup(&self, cityid: CityId) -> (r: &str)
        requires
            (cityid as int) < self.known_cities@.len(),
        ensures
            r@ == self.known_cities@[cityid as int]@,
    {
        self.known_cities[cityid as usize].as_str()
    }
}

} // verus!
