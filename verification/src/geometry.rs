//! Exact planar geometry on micro-degree coordinates.
//!
//! Coordinates are integers in millionths of a degree, so every test is
//! exact: no epsilon, no rounding.  A polygon is a ring of points; a point
//! is inside when a horizontal ray to the right crosses the ring's edges an
//! odd number of times ([`point_in_ring_spec`]).  Points on the boundary
//! may land on either side; the answer is stable for a given ring.
use vstd::prelude::*;

verus! {

/// A coordinate pair in micro-degrees: `x` is the longitude, `y` the
/// latitude.
#[derive(Debug, Copy, Clone, PartialEq, Eq, Structural)]
pub struct PointMicro {
    /// Longitude, in millionths of a degree.
    pub x: i32,
    /// Latitude, in millionths of a degree.
    pub y: i32,
}

/// A coordinate pair the geometry accepts: within the world's bounds, so
/// 64-bit cross products cannot overflow.
pub open spec fn pt_wf(p: PointMicro) -> bool {
    &&& -180_000_000 <= p.x <= 180_000_000
    &&& -90_000_000 <= p.y <= 90_000_000
}

/// A ring of acceptable points.
pub open spec fn ring_wf(ring: Seq<PointMicro>) -> bool {
    forall|i: int| 0 <= i < ring.len() ==> pt_wf(#[trigger] ring[i])
}

/// A multipolygon of acceptable rings.
pub open spec fn mp_wf(mp: Seq<Seq<PointMicro>>) -> bool {
    forall|i: int| 0 <= i < mp.len() ==> ring_wf(#[trigger] mp[i])
}

/// The end point of edge `i`: the following point, the last edge closing
/// the ring back to the first point.
pub open spec fn edge_b(ring: Seq<PointMicro>, i: int) -> PointMicro {
    if i + 1 == ring.len() {
        ring[0]
    } else {
        ring[i + 1]
    }
}

/// Whether the edge from `a` to `b` crosses the horizontal ray from `q`
/// to the right: the edge's open vertical span covers `q.y`, and the
/// intersection lies strictly right of `q`.
pub open spec fn edge_crosses(a: PointMicro, b: PointMicro, q: PointMicro) -> bool {
    ((a.y > q.y) != (b.y > q.y)) && {
        let cross = (b.x - a.x) * (q.y - a.y) - (q.x - a.x) * (b.y - a.y);
        if b.y > a.y {
            cross > 0
        } else {
            cross < 0
        }
    }
}

/// The number of the first `k` edges of the ring that cross the ray
/// from `q`.
pub open spec fn crossings(ring: Seq<PointMicro>, q: PointMicro, k: int) -> int
    decreases k,
{
    if k <= 0 {
        0
    } else {
        crossings(ring, q, k - 1) + if edge_crosses(ring[k - 1], edge_b(ring, k - 1), q) {
            1int
        } else {
            0int
        }
    }
}

/// The even-odd rule: a point is inside the ring when the ray to the
/// right crosses an odd number of edges.
pub open spec fn point_in_ring_spec(ring: Seq<PointMicro>, q: PointMicro) -> bool {
    crossings(ring, q, ring.len() as int) % 2 == 1
}

/// A point is inside a multipolygon when it is inside one of its rings.
pub open spec fn point_in_multipolygon(mp: Seq<Seq<PointMicro>>, q: PointMicro) -> bool {
    exists|i: int| 0 <= i < mp.len() && point_in_ring_spec(#[trigger] mp[i], q)
}

/// Runs the even-odd test on one ring, exactly as the rule states it.
pub fn point_in_ring(ring: &Vec<PointMicro>, q: PointMicro) -> (r: bool)
    requires
        ring_wf(ring@),
        pt_wf(q),
    ensures
        r == point_in_ring_spec(ring@, q),
{
    let n = ring.len();
    let mut inside = false;
    let mut i: usize = 0;
    while i < n
        invariant
            i <= n,
            n == ring@.len(),
            ring_wf(ring@),
            pt_wf(q),
            inside == (crossings(ring@, q, i as int) % 2 == 1),
        decreases n - i,
    {
        let a = ring[i];
        let b = if i + 1 == n {
            ring[0]
        } else {
            ring[i + 1]
        };
        proof {
            assert(b == edge_b(ring@, i as int));
        }
        if (a.y > q.y) != (b.y > q.y) {
            let u1: i64 = (b.x as i64) - (a.x as i64);
            let v1: i64 = (q.y as i64) - (a.y as i64);
            let u2: i64 = (q.x as i64) - (a.x as i64);
            let v2: i64 = (b.y as i64) - (a.y as i64);
            proof {
                lemma_mul_bound(u1 as int, v1 as int, 400_000_000);
                lemma_mul_bound(u2 as int, v2 as int, 400_000_000);
            }
            let cross: i64 = u1 * v1 - u2 * v2;
            let crossed = if b.y > a.y {
                cross > 0
            } else {
                cross < 0
            };
            if crossed {
                inside = !inside;
            }
        }
        i += 1;
    }
    inside
}

/// Runs the even-odd test on every ring of a multipolygon.
pub fn point_in_mp(mp: &Vec<Vec<PointMicro>>, q: PointMicro) -> (r: bool)
    requires
        mp_wf(mp@.map_values(|ring: Vec<PointMicro>| ring@)),
        pt_wf(q),
    ensures
        r == point_in_multipolygon(mp@.map_values(|ring: Vec<PointMicro>| ring@), q),
{
    let ghost rings = mp@.map_values(|ring: Vec<PointMicro>| ring@);
    let mut i: usize = 0;
    while i < mp.len()
        invariant
            i <= mp@.len(),
            rings == mp@.map_values(|ring: Vec<PointMicro>| ring@),
            mp_wf(rings),
            pt_wf(q),
            forall|j: int| 0 <= j < i ==> !point_in_ring_spec(#[trigger] rings[j], q),
        decreases mp@.len() - i,
    {
        proof {
            assert(rings[i as int] == mp@[i as int]@);
        }
        if point_in_ring(&mp[i], q) {
            proof {
                assert(point_in_ring_spec(rings[i as int], q));
            }
            return true;
        }
        i += 1;
    }
    false
}

/// A crossing edge whose ends lie at or left of `hi_x` pins `q` strictly
/// left of `hi_x`.
proof fn lemma_crossing_x_bound(a: PointMicro, b: PointMicro, q: PointMicro, hi_x: int)
    requires
        edge_crosses(a, b, q),
        a.x <= hi_x,
        b.x <= hi_x,
    ensures
        q.x < hi_x,
{
    let t = q.y - a.y;
    let dy = b.y - a.y;
    let cross = (b.x - a.x) * t - (q.x - a.x) * dy;
    assert(cross == (b.x - q.x) * t + (a.x - q.x) * (dy - t)) by (nonlinear_arith)
        requires
            cross == (b.x - a.x) * t - (q.x - a.x) * dy,
            t == q.y - a.y,
            dy == b.y - a.y,
    ;
    if q.x >= hi_x {
        if b.y > a.y {
            // 0 <= t < dy and both edge ends lie at or left of q
            assert((b.x - q.x) * t <= 0) by (nonlinear_arith)
                requires
                    b.x <= q.x,
                    t >= 0,
            ;
            assert((a.x - q.x) * (dy - t) <= 0) by (nonlinear_arith)
                requires
                    a.x <= q.x,
                    dy - t >= 1,
            ;
            assert(false);
        } else {
            assert((b.x - q.x) * t >= 0) by (nonlinear_arith)
                requires
                    b.x <= q.x,
                    t <= 0,
            ;
            assert((a.x - q.x) * (dy - t) >= 0) by (nonlinear_arith)
                requires
                    a.x <= q.x,
                    dy - t <= 0,
            ;
            assert(false);
        }
    }
}

/// For a point strictly left of both edge ends, crossing reduces to the
/// vertical span covering `q.y`.
proof fn lemma_edge_crosses_left(a: PointMicro, b: PointMicro, q: PointMicro)
    requires
        q.x < a.x,
        q.x < b.x,
    ensures
        edge_crosses(a, b, q) <==> ((a.y > q.y) != (b.y > q.y)),
{
    let t = q.y - a.y;
    let dy = b.y - a.y;
    let cross = (b.x - a.x) * t - (q.x - a.x) * dy;
    assert(cross == (b.x - q.x) * t + (a.x - q.x) * (dy - t)) by (nonlinear_arith)
        requires
            cross == (b.x - a.x) * t - (q.x - a.x) * dy,
            t == q.y - a.y,
            dy == b.y - a.y,
    ;
    if (a.y > q.y) != (b.y > q.y) {
        if b.y > a.y {
            assert((b.x - q.x) * t >= 0) by (nonlinear_arith)
                requires
                    b.x - q.x >= 1,
                    t >= 0,
            ;
            assert((a.x - q.x) * (dy - t) >= 1) by (nonlinear_arith)
                requires
                    a.x - q.x >= 1,
                    dy - t >= 1,
            ;
        } else {
            assert((b.x - q.x) * t <= -1) by (nonlinear_arith)
                requires
                    b.x - q.x >= 1,
                    t <= -1,
            ;
            assert((a.x - q.x) * (dy - t) <= 0) by (nonlinear_arith)
                requires
                    a.x - q.x >= 1,
                    dy - t <= 0,
            ;
        }
    }
}

/// With no crossing edge among the first `k`, the count is zero.
proof fn lemma_crossings_zero(ring: Seq<PointMicro>, q: PointMicro, k: int)
    requires
        forall|i: int| 0 <= i < k ==> !edge_crosses(#[trigger] ring[i], edge_b(ring, i), q),
    ensures
        crossings(ring, q, k) == 0,
    decreases k,
{
    if k > 0 {
        lemma_crossings_zero(ring, q, k - 1);
    }
}

/// A positive crossing count names a crossing edge.
proof fn lemma_crossings_pos(ring: Seq<PointMicro>, q: PointMicro, k: int)
    requires
        crossings(ring, q, k) != 0,
    ensures
        exists|i: int| 0 <= i < k && edge_crosses(#[trigger] ring[i], edge_b(ring, i), q),
    decreases k,
{
    if k > 0 {
        if edge_crosses(ring[k - 1], edge_b(ring, k - 1), q) {
        } else {
            lemma_crossings_pos(ring, q, k - 1);
        }
    }
}

/// For a point strictly left of the whole ring, the count over the first
/// `k` non-closing edges is odd exactly when the ray level separates the
/// ring's first point from point `k`.
proof fn lemma_left_parity(ring: Seq<PointMicro>, q: PointMicro, k: int)
    requires
        forall|i: int| 0 <= i < ring.len() ==> q.x < (#[trigger] ring[i]).x,
        0 <= k < ring.len(),
    ensures
        (crossings(ring, q, k) % 2 == 1) <==> ((ring[0].y > q.y) != (ring[k].y > q.y)),
    decreases k,
{
    if k > 0 {
        lemma_left_parity(ring, q, k - 1);
        assert(edge_b(ring, k - 1) == ring[k]);
        lemma_edge_crosses_left(ring[k - 1], ring[k], q);
    }
}

/// A point strictly left of the whole ring is outside: the ray crosses
/// the closed ring an even number of times.
proof fn lemma_left_outside(ring: Seq<PointMicro>, q: PointMicro)
    requires
        forall|i: int| 0 <= i < ring.len() ==> q.x < (#[trigger] ring[i]).x,
        ring.len() >= 1,
    ensures
        !point_in_ring_spec(ring, q),
{
    let n = ring.len() as int;
    lemma_left_parity(ring, q, n - 1);
    assert(edge_b(ring, n - 1) == ring[0]);
    lemma_edge_crosses_left(ring[n - 1], ring[0], q);
}

/// A point inside a ring lies within every box that holds all of the
/// ring's points.
pub proof fn lemma_inside_in_bounds(
    ring: Seq<PointMicro>,
    q: PointMicro,
    lo_x: int,
    hi_x: int,
    lo_y: int,
    hi_y: int,
)
    requires
        ring.len() >= 1,
        forall|i: int|
            0 <= i < ring.len() ==> lo_x <= (#[trigger] ring[i]).x <= hi_x && lo_y
                <= ring[i].y <= hi_y,
        point_in_ring_spec(ring, q),
    ensures
        lo_x <= q.x <= hi_x,
        lo_y <= q.y <= hi_y,
{
    let n = ring.len() as int;
    if q.x < lo_x {
        lemma_left_outside(ring, q);
        assert(false);
    }
    if q.x >= hi_x {
        lemma_crossings_pos(ring, q, n);
        let i = choose|i: int| 0 <= i < n && edge_crosses(#[trigger] ring[i], edge_b(ring, i), q);
        lemma_crossing_x_bound(ring[i], edge_b(ring, i), q, hi_x);
        assert(false);
    }
    if q.y > hi_y || q.y < lo_y {
        assert forall|i: int| 0 <= i < n implies !edge_crosses(
            #[trigger] ring[i],
            edge_b(ring, i),
            q,
        ) by {
            assert((ring[i].y > q.y) == (edge_b(ring, i).y > q.y));
        }
        lemma_crossings_zero(ring, q, n);
        assert(false);
    }
}

/// Bounded factors give a bounded product.
pub proof fn lemma_mul_bound(x: int, y: int, m: int)
    requires
        -m <= x <= m,
        -m <= y <= m,
        m >= 0,
    ensures
        -(m * m) <= x * y <= m * m,
{
    assert(-(m * m) <= x * y <= m * m) by (nonlinear_arith)
        requires
            -m <= x <= m,
            -m <= y <= m,
            m >= 0,
    ;
}

/// The Lagrange identity for two planar vectors: the product of their
/// squared lengths splits into the squared dot product and the squared
/// cross product.
pub proof fn lemma_lagrange(px: int, py: int, dx: int, dy: int)
    ensures
        (px * px + py * py) * (dx * dx + dy * dy) == (px * dx + py * dy) * (px * dx + py * dy)
            + (px * dy - py * dx) * (px * dy - py * dx),
{
    let a = px * dx;
    let b = py * dy;
    let u = px * dy;
    let v = py * dx;
    assert((a + b) * (a + b) == a * a + 2 * (a * b) + b * b) by (nonlinear_arith);
    assert((u - v) * (u - v) == u * u - 2 * (u * v) + v * v) by (nonlinear_arith);
    assert(a * b == u * v) by (nonlinear_arith)
        requires
            a == px * dx,
            b == py * dy,
            u == px * dy,
            v == py * dx,
    ;
    assert(a * a == (px * px) * (dx * dx)) by (nonlinear_arith)
        requires
            a == px * dx,
    ;
    assert(b * b == (py * py) * (dy * dy)) by (nonlinear_arith)
        requires
            b == py * dy,
    ;
    assert(u * u == (px * px) * (dy * dy)) by (nonlinear_arith)
        requires
            u == px * dy,
    ;
    assert(v * v == (py * py) * (dx * dx)) by (nonlinear_arith)
        requires
            v == py * dx,
    ;
    assert((px * px + py * py) * (dx * dx + dy * dy) == (px * px) * (dx * dx) + (px * px) * (dy
        * dy) + (py * py) * (dx * dx) + (py * py) * (dy * dy)) by (nonlinear_arith);
}

/// The floor of the squared distance from `q` to the segment from `a` to
/// `b`, in micro-degree units: the squared distance to the nearer end
/// when the perpendicular foot falls outside the segment, else the
/// squared perpendicular distance, rounded down.
pub open spec fn seg_dist_sq_floor(a: PointMicro, b: PointMicro, q: PointMicro) -> int {
    let dx = b.x - a.x;
    let dy = b.y - a.y;
    let px = q.x - a.x;
    let py = q.y - a.y;
    let len2 = dx * dx + dy * dy;
    let dot = px * dx + py * dy;
    if len2 == 0 || dot <= 0 {
        px * px + py * py
    } else if dot >= len2 {
        let ex = q.x - b.x;
        let ey = q.y - b.y;
        ex * ex + ey * ey
    } else {
        let cross = px * dy - py * dx;
        (cross * cross) / len2
    }
}

/// Computes [`seg_dist_sq_floor`] exactly.
pub fn seg_dist_sq(a: PointMicro, b: PointMicro, q: PointMicro) -> (r: i64)
    requires
        pt_wf(a),
        pt_wf(b),
        pt_wf(q),
    ensures
        r == seg_dist_sq_floor(a, b, q),
        r >= 0,
{
    let dx: i64 = (b.x as i64) - (a.x as i64);
    let dy: i64 = (b.y as i64) - (a.y as i64);
    let px: i64 = (q.x as i64) - (a.x as i64);
    let py: i64 = (q.y as i64) - (a.y as i64);
    proof {
        lemma_mul_bound(dx as int, dx as int, 400_000_000);
        lemma_mul_bound(dy as int, dy as int, 400_000_000);
        lemma_mul_bound(px as int, px as int, 400_000_000);
        lemma_mul_bound(py as int, py as int, 400_000_000);
        lemma_mul_bound(px as int, dx as int, 400_000_000);
        lemma_mul_bound(py as int, dy as int, 400_000_000);
        lemma_mul_bound(px as int, dy as int, 400_000_000);
        lemma_mul_bound(py as int, dx as int, 400_000_000);
    }
    let len2: i64 = dx * dx + dy * dy;
    let dot: i64 = px * dx + py * dy;
    if len2 == 0 || dot <= 0 {
        proof {
            assert(px * px >= 0) by (nonlinear_arith);
            assert(py * py >= 0) by (nonlinear_arith);
        }
        px * px + py * py
    } else if dot >= len2 {
        let ex: i64 = (q.x as i64) - (b.x as i64);
        let ey: i64 = (q.y as i64) - (b.y as i64);
        proof {
            lemma_mul_bound(ex as int, ex as int, 400_000_000);
            lemma_mul_bound(ey as int, ey as int, 400_000_000);
            assert(ex * ex >= 0) by (nonlinear_arith);
            assert(ey * ey >= 0) by (nonlinear_arith);
        }
        ex * ex + ey * ey
    } else {
        let cross: i64 = px * dy - py * dx;
        let ghost c = cross as int;
        let ghost l2 = len2 as int;
        let ghost pp = (px as int) * (px as int) + (py as int) * (py as int);
        proof {
            lemma_mul_bound(c, c, 400_000_000_000_000_000);
            assert(c * c >= 0) by (nonlinear_arith);
            // a Lagrange identity bounds the perpendicular term by the
            // distance to the segment's first end
            lemma_lagrange(px as int, py as int, dx as int, dy as int);
            assert(((px as int) * (dx as int) + (py as int) * (dy as int)) * ((px as int) * (
            dx as int) + (py as int) * (dy as int)) >= 0) by (nonlinear_arith);
            assert(c * c <= pp * l2);
            assert((c * c) / l2 <= (pp * l2) / l2) by {
                vstd::arithmetic::div_mod::lemma_div_is_ordered(c * c, pp * l2, l2);
            }
            assert((pp * l2) / l2 == pp) by {
                vstd::arithmetic::div_mod::lemma_div_multiples_vanish(pp, l2);
                assert(pp * l2 == l2 * pp) by (nonlinear_arith);
            }
            vstd::arithmetic::div_mod::lemma_div_pos_is_pos(c * c, l2);
            assert((cross as i128) * (cross as i128) == c * c);
        }
        let num: i128 = (cross as i128) * (cross as i128);
        let d: i128 = num / (len2 as i128);
        d as i64
    }
}

} // verus!

verus! {

/// The edges of one ring: each point joined to the next, the last point
/// joined back to the first.
pub open spec fn ring_edges(ring: Seq<PointMicro>) -> Seq<(PointMicro, PointMicro)> {
    Seq::new(ring.len(), |k: int| (ring[k], edge_b(ring, k)))
}

/// The edges of a multipolygon: the edges of its rings, in ring order.
pub open spec fn edges_of(rings: Seq<Seq<PointMicro>>) -> Seq<(PointMicro, PointMicro)>
    decreases rings.len(),
{
    if rings.len() == 0 {
        Seq::empty()
    } else {
        edges_of(rings.drop_last()) + ring_edges(rings.last())
    }
}

/// The squared clearance of a point: its smallest floored squared
/// distance to any of the edges, the whole `i64` range when there is no
/// edge.
pub open spec fn min_clearance(edges: Seq<(PointMicro, PointMicro)>, q: PointMicro) -> int
    decreases edges.len(),
{
    if edges.len() == 0 {
        i64::MAX as int
    } else {
        let prev = min_clearance(edges.drop_last(), q);
        let d = seg_dist_sq_floor(edges.last().0, edges.last().1, q);
        if d < prev {
            d
        } else {
            prev
        }
    }
}

} // verus!
