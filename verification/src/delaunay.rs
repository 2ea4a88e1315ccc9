//! Unconstrained Delaunay triangulation: direct constructions for up to four
//! points and incremental Bowyer–Watson insertion inside an enclosing
//! triangle for larger sets.
use vstd::prelude::*;
use crate::cdt::{has_duplicate_point, validate_unique_points, DelaunayTriangulation};
use crate::cdt_validate::{delaunay_validation, hull_result, triangles_in_bounds, triangulates_convex_hull, validate_delaunay};
use crate::context::{PredicatePolicy, TriangulationCertainty, TriangulationContext, TriangulationOutcome};
use crate::error::Error;
use crate::point_set::{
    classify_point_triangle, lemma_unvisited_bounds, lemma_unvisited_count, locate_triangle, make_oriented,
    make_oriented_result, swap_if_negative, triangle_if_not_degenerate, triangle_in_bounds, unvisited_count,
};
use crate::predicates::{incircle2, incircle2_result, orient2, orient2_result, point_on_segment, fractions_valid, policy_decides};
use crate::topology::{adjacency_failure, has_vertex, neighbor_of, signs_strictly_differ, triangle_neighbors};
use crate::types::{reversed_sign, ExactPoint, Point2, Real, Sign, Triangle, TriangleLocation};

verus! {

/// Positive orientation as the exact predicate decides it: the predicate
/// reports `Positive` for the triangle's vertex order, or `Negative` for the
/// order with the last two vertices exchanged.
pub open spec fn predicate_oriented(points: Seq<Point2>, t: Triangle, policy: PredicatePolicy) -> bool {
    ||| orient2_result(points, t[0] as int, t[1] as int, t[2] as int, policy) == Ok::<Sign, Error>(Sign::Positive)
    ||| orient2_result(points, t[0] as int, t[2] as int, t[1] as int, policy) == Ok::<Sign, Error>(Sign::Negative)
}

/// Every triangle names points in range and is positively oriented.
pub open spec fn oriented_in_bounds(points: Seq<Point2>, triangles: Seq<Triangle>, policy: PredicatePolicy) -> bool {
    forall|i: int| 0 <= i < triangles.len() ==> {
        &&& triangle_in_bounds(#[trigger] triangles[i], points.len() as int)
        &&& predicate_oriented(points, triangles[i], policy)
    }
}

/// A triangle that orientation repair accepted is positively oriented.
proof fn lemma_made_oriented(points: Seq<Point2>, t: Triangle, u: Triangle, policy: PredicatePolicy)
    requires
        make_oriented_result(points, t, policy) == Ok::<Triangle, Error>(u),
    ensures
        predicate_oriented(points, u, policy),
{
}

/// The triangle with its last two vertices exchanged when `sign` is
/// negative.
fn oriented_triangle(sign: Sign, triangle: Triangle) -> (r: Triangle)
    ensures
        r == swap_if_negative(sign, triangle),
{
    if sign == Sign::Negative { [triangle[0], triangle[2], triangle[1]] } else { triangle }
}

/// Whether the in-circle test puts `point` inside or on the circle of the
/// triangle (whose orientation is positive).
pub open spec fn conflict_result(points: Seq<Point2>, t: Triangle, point: int, policy: PredicatePolicy) -> Result<bool, Error> {
    match incircle2_result(points, t[0] as int, t[1] as int, t[2] as int, point, policy) {
        Err(e) => Err(e),
        Ok(s) => Ok(s == Sign::Positive || s == Sign::Zero),
    }
}

fn incircle_inside_or_on_positive(points: &[Point2], triangle: Triangle, point: usize, policy: PredicatePolicy) -> (r: Result<bool, Error>)
    requires
        triangle_in_bounds(triangle, points@.len() as int),
        point < points@.len(),
    ensures
        r == conflict_result(points@, triangle, point as int, policy),
{
    let sign = incircle2(points, triangle[0], triangle[1], triangle[2], point, policy)?;
    Ok(sign == Sign::Positive || sign == Sign::Zero)
}

/// Whether the in-circle test puts `point` strictly inside the circle of the
/// triangle, read against the triangle's orientation.
pub open spec fn strictly_inside_result(points: Seq<Point2>, t: Triangle, point: int, orientation: Sign, policy: PredicatePolicy) -> Result<bool, Error> {
    match incircle2_result(points, t[0] as int, t[1] as int, t[2] as int, point, policy) {
        Err(e) => Err(e),
        Ok(s) => Ok((orientation == Sign::Positive && s == Sign::Positive) || (orientation == Sign::Negative && s == Sign::Negative)),
    }
}

fn incircle_inside(points: &[Point2], triangle: Triangle, point: usize, orientation: Sign, policy: PredicatePolicy) -> (r: Result<bool, Error>)
    requires
        triangle_in_bounds(triangle, points@.len() as int),
        point < points@.len(),
    ensures
        r == strictly_inside_result(points@, triangle, point as int, orientation, policy),
{
    let sign = incircle2(points, triangle[0], triangle[1], triangle[2], point, policy)?;
    Ok((orientation == Sign::Positive && sign == Sign::Positive) || (orientation == Sign::Negative && sign == Sign::Negative))
}

/// Whether the diagonal `a`–`b` of the quadrilateral with opposite corners
/// `c` and `d` is Delaunay: neither opposite corner lies strictly inside the
/// circle through the other triangle.
pub open spec fn diagonal_delaunay_result(points: Seq<Point2>, a: int, b: int, c: int, d: int, policy: PredicatePolicy) -> Result<bool, Error> {
    match orient2_result(points, a, b, c, policy) {
        Err(e) => Err(e),
        Ok(abc) => match orient2_result(points, a, b, d, policy) {
            Err(e) => Err(e),
            Ok(abd) => match strictly_inside_result(points, [a as usize, b as usize, c as usize], d, abc, policy) {
                Err(e) => Err(e),
                Ok(d_in) => match strictly_inside_result(points, [a as usize, d as usize, b as usize], c, reversed_sign(abd), policy) {
                    Err(e) => Err(e),
                    Ok(c_in) => Ok(!d_in && !c_in),
                },
            },
        },
    }
}

fn diagonal_is_delaunay(points: &[Point2], a: usize, b: usize, c: usize, d: usize, policy: PredicatePolicy) -> (r: Result<bool, Error>)
    requires
        a < points@.len(),
        b < points@.len(),
        c < points@.len(),
        d < points@.len(),
    ensures
        r == diagonal_delaunay_result(points@, a as int, b as int, c as int, d as int, policy),
{
    let abc = orient2(points, a, b, c, policy)?;
    let abd = orient2(points, a, b, d, policy)?;
    let d_in_abc = incircle_inside(points, [a, b, c], d, abc, policy)?;
    let c_in_abd = incircle_inside(points, [a, d, b], c, abd.reversed(), policy)?;
    Ok(!d_in_abc && !c_in_abd)
}

/// Split the triangle at a point on one of its edges: the first edge (in
/// vertex order) that contains the point is replaced by two triangles
/// through the point and the opposite vertex.
fn triangulate_point_on_triangle_edge(points: &[Point2], point: usize, triangle: Triangle, policy: PredicatePolicy) -> (r: Result<Vec<Triangle>, Error>)
    requires
        triangle_in_bounds(triangle, points@.len() as int),
        point < points@.len(),
    ensures
        r matches Ok(t) ==> t@.len() == 2 && oriented_in_bounds(points@, t@, policy),
        r matches Ok(t) ==> has_vertex(t@[0], point as int) && has_vertex(t@[1], point as int),
        r is Err && policy_decides(policy) && fractions_valid(points@) ==> r == Err::<Vec<Triangle>, Error>(Error::InvalidInput { reason: "edge point was not on a triangle edge" })
            || r == Err::<Vec<Triangle>, Error>(Error::InvalidInput { reason: "degenerate triangle" }),
{
    let mut edge_index: usize = 0;
    while edge_index < 3
        invariant
            0 <= edge_index <= 3,
            triangle_in_bounds(triangle, points@.len() as int),
            point < points@.len(),
        decreases 3 - edge_index,
    {
        let a = triangle[edge_index];
        let b = triangle[(edge_index + 1) % 3];
        let c = triangle[(edge_index + 2) % 3];
        if point_on_segment(points, a, b, point, policy)? {
            let first = make_oriented(points, [a, point, c], policy)?;
            let second = make_oriented(points, [point, b, c], policy)?;
            proof {
                lemma_made_oriented(points@, [a, point, c], first, policy);
                lemma_made_oriented(points@, [point, b, c], second, policy);
            }
            let out = vec![first, second];
            return Ok(out);
        }
        edge_index = edge_index + 1;
    }
    Err(Error::InvalidInput { reason: "edge point was not on a triangle edge" })
}

/// The three points other than `interior`, in increasing order.
fn outer_of(interior: usize) -> (r: [usize; 3])
    requires
        interior < 4,
    ensures
        r[0] < 4 && r[1] < 4 && r[2] < 4,
        r[0] != interior && r[1] != interior && r[2] != interior,
        r[0] < r[1] < r[2],
{
    if interior == 0 {
        [1, 2, 3]
    } else if interior == 1 {
        [0, 2, 3]
    } else if interior == 2 {
        [0, 1, 3]
    } else {
        [0, 1, 2]
    }
}

/// Four points with one inside (or on an edge of) the triangle of the other
/// three: the fan (or edge split) through that point.
fn triangulate_interior_point(points: &[Point2], policy: PredicatePolicy) -> (r: Result<Option<Vec<Triangle>>, Error>)
    requires
        points@.len() == 4,
    ensures
        r matches Ok(Some(t)) ==> (t@.len() == 2 || t@.len() == 3) && oriented_in_bounds(points@, t@, policy),
        r is Err && policy_decides(policy) && fractions_valid(points@) ==> r == Err::<Option<Vec<Triangle>>, Error>(Error::InvalidInput { reason: "edge point was not on a triangle edge" })
            || r == Err::<Option<Vec<Triangle>>, Error>(Error::InvalidInput { reason: "degenerate triangle" }),
{
    let mut interior: usize = 0;
    while interior < 4
        invariant
            0 <= interior <= 4,
            points@.len() == 4,
        decreases 4 - interior,
    {
        let outer = outer_of(interior);
        let location = classify_point_triangle(points, outer[0], outer[1], outer[2], interior, policy)?;
        match location {
            TriangleLocation::Inside => {
                let first = make_oriented(points, [interior, outer[0], outer[1]], policy)?;
                let second = make_oriented(points, [interior, outer[1], outer[2]], policy)?;
                let third = make_oriented(points, [interior, outer[2], outer[0]], policy)?;
                proof {
                    lemma_made_oriented(points@, [interior, outer[0], outer[1]], first, policy);
                    lemma_made_oriented(points@, [interior, outer[1], outer[2]], second, policy);
                    lemma_made_oriented(points@, [interior, outer[2], outer[0]], third, policy);
                }
                let out = vec![first, second, third];
                return Ok(Some(out));
            },
            TriangleLocation::OnEdge => {
                let split = triangulate_point_on_triangle_edge(points, interior, outer, policy)?;
                return Ok(Some(split));
            },
            _ => {},
        }
        interior = interior + 1;
    }
    Ok(None)
}

/// The Delaunay triangulation of four points: a fan when one point lies in
/// the triangle of the others, else the first diagonal (of `0–1`, `0–2`,
/// `0–3`) that separates the other two points and passes the empty-circle
/// test.
fn delaunay_quad(points: &[Point2], policy: PredicatePolicy) -> (r: Result<Vec<Triangle>, Error>)
    requires
        points@.len() == 4,
    ensures
        r matches Ok(t) ==> (t@.len() == 2 || t@.len() == 3) && oriented_in_bounds(points@, t@, policy),
        r is Err && policy_decides(policy) && fractions_valid(points@) ==> r == Err::<Vec<Triangle>, Error>(Error::InvalidInput { reason: "edge point was not on a triangle edge" })
            || r == Err::<Vec<Triangle>, Error>(Error::InvalidInput { reason: "degenerate triangle" })
            || r == Err::<Vec<Triangle>, Error>(Error::InvalidInput { reason: "four-point set is degenerate" }),
{
    if let Some(triangles) = triangulate_interior_point(points, policy)? {
        return Ok(triangles);
    }
    let diagonals: [(usize, usize, usize, usize); 3] = [(0, 1, 2, 3), (0, 2, 1, 3), (0, 3, 1, 2)];
    let mut k: usize = 0;
    while k < 3
        invariant
            0 <= k <= 3,
            points@.len() == 4,
            diagonals@ == seq![(0usize, 1usize, 2usize, 3usize), (0usize, 2usize, 1usize, 3usize), (0usize, 3usize, 1usize, 2usize)],
        decreases 3 - k,
    {
        let (a, b, c, d) = diagonals[k];
        let ac = orient2(points, a, b, c, policy)?;
        let ad = orient2(points, a, b, d, policy)?;
        if signs_strictly_differ(ac, ad) && diagonal_is_delaunay(points, a, b, c, d, policy)? {
            let first = oriented_triangle(ac, [a, b, c]);
            let second = oriented_triangle(ad.reversed(), [a, d, b]);
            let out = vec![first, second];
            return Ok(out);
        }
        k = k + 1;
    }
    Err(Error::InvalidInput { reason: "four-point set is degenerate" })
}

/// Every triangle of the sequence names points below `point_count`.
proof fn lemma_oriented_in_bounds(points: Seq<Point2>, triangles: Seq<Triangle>, policy: PredicatePolicy)
    requires
        oriented_in_bounds(points, triangles, policy),
    ensures
        triangles_in_bounds(triangles, points.len() as int),
{
    assert forall|t: int, i: int| 0 <= t < triangles.len() && 0 <= i < 3 implies #[trigger] triangles[t][i] < points.len() by {
        assert(triangle_in_bounds(triangles[t], points.len() as int));
    }
}

/// Orientation decided over a prefix of the points is the same decision.
proof fn lemma_oriented_prefix(work: Seq<Point2>, points: Seq<Point2>, t: Triangle, policy: PredicatePolicy)
    requires
        points.len() <= work.len(),
        points =~= work.subrange(0, points.len() as int),
        triangle_in_bounds(t, points.len() as int),
        predicate_oriented(work, t, policy),
    ensures
        predicate_oriented(points, t, policy),
{
    assert(work[t[0] as int] == points[t[0] as int]);
    assert(work[t[1] as int] == points[t[1] as int]);
    assert(work[t[2] as int] == points[t[2] as int]);
}

/// A neighbor named by the adjacency is a triangle of the sequence.
proof fn lemma_neighbor_in_range(triangles: Seq<Triangle>, t: int, slot: int)
    ensures
        neighbor_of(triangles, t, slot) matches Some(v) ==> (v as int) < triangles.len(),
{
    let u = 3 * t + slot;
    if exists|v: int| 0 <= v < 3 * triangles.len() && v != u && crate::topology::use_edge(triangles, v) == crate::topology::use_edge(triangles, u) {
        let v = choose|v: int| 0 <= v < 3 * triangles.len() && v != u && crate::topology::use_edge(triangles, v) == crate::topology::use_edge(triangles, u);
        assert(v / 3 < triangles.len());
    }
}

/// Axis-aligned bounds of a point set.
struct Bounds {
    min_x: Real,
    max_x: Real,
    min_y: Real,
    max_y: Real,
}

/// The bounds of the points, each extreme taken from the first point that
/// attains it; an error for an empty set.
fn bounds_from_points(points: &[Point2]) -> (r: Result<Bounds, Error>)
    ensures
        points@.len() == 0 <==> r is Err,
        r is Err ==> r == Err::<Bounds, Error>(Error::InvalidInput { reason: "Delaunay point set must be non-empty" }),
{
    if points.len() == 0 {
        return Err(Error::InvalidInput { reason: "Delaunay point set must be non-empty" });
    }
    let first = points[0];
    let mut bounds = Bounds { min_x: first.x, max_x: first.x, min_y: first.y, max_y: first.y };
    let mut i: usize = 1;
    while i < points.len()
        invariant
            1 <= i <= points@.len(),
        decreases points@.len() - i,
    {
        let point = points[i];
        if point.x.exact_lt(&bounds.min_x) {
            bounds.min_x = point.x;
        }
        if bounds.max_x.exact_lt(&point.x) {
            bounds.max_x = point.x;
        }
        if point.y.exact_lt(&bounds.min_y) {
            bounds.min_y = point.y;
        }
        if bounds.max_y.exact_lt(&point.y) {
            bounds.max_y = point.y;
        }
        i = i + 1;
    }
    Ok(bounds)
}

/// The error for exact coordinates whose fraction leaves the coordinate
/// range.
fn coordinate_range_error() -> (r: Error)
    ensures
        r == (Error::UnsupportedFeature { feature: "super-triangle coordinates beyond the coordinate range" }),
{
    Error::UnsupportedFeature { feature: "super-triangle coordinates beyond the coordinate range" }
}

/// An exact value that fit, or the coordinate range error.
fn fitted(value: Option<Real>) -> (r: Result<Real, Error>)
    ensures
        value matches Some(v) ==> r == Ok::<Real, Error>(v),
        value is None ==> r == Err::<Real, Error>(Error::UnsupportedFeature { feature: "super-triangle coordinates beyond the coordinate range" }),
{
    match value {
        Some(v) => Ok(v),
        None => Err(coordinate_range_error()),
    }
}

/// A triangle enclosing the bounds: centred on the bounds' midpoint, with
/// radius `span · scale + 1` where `span` is the larger side of the bounds.
fn super_triangle(points: &[Point2], scale: &Real) -> (r: Result<[Point2; 3], Error>)
    ensures
        points@.len() == 0 ==> r == Err::<[Point2; 3], Error>(Error::InvalidInput { reason: "Delaunay point set must be non-empty" }),
        points@.len() > 0 && r is Err ==> r == Err::<[Point2; 3], Error>(Error::UnsupportedFeature { feature: "super-triangle coordinates beyond the coordinate range" }),
        r matches Ok(c) ==> c[0].y.num() == c[2].y.num() && c[0].y.den() == c[2].y.den(),
{
    let bounds = bounds_from_points(points)?;
    let dx = fitted(bounds.max_x.checked_sub(&bounds.min_x))?;
    let dy = fitted(bounds.max_y.checked_sub(&bounds.min_y))?;
    let span = if dx.exact_lt(&dy) { dy } else { dx };
    let one = Real::one();
    let two = Real::from_int(2);
    let scaled = fitted(span.checked_mul(scale))?;
    let radius = fitted(scaled.checked_add(&one))?;
    let double_radius = fitted(radius.checked_mul(&two))?;
    let mid_x = fitted(fitted(bounds.min_x.checked_add(&bounds.max_x))?.checked_half())?;
    let mid_y = fitted(fitted(bounds.min_y.checked_add(&bounds.max_y))?.checked_half())?;
    let first = Point2::new(fitted(mid_x.checked_sub(&double_radius))?, fitted(mid_y.checked_sub(&radius))?);
    let second = Point2::new(mid_x, fitted(mid_y.checked_add(&double_radius))?);
    let third = Point2::new(fitted(mid_x.checked_add(&double_radius))?, fitted(mid_y.checked_sub(&radius))?);
    Ok([first, second, third])
}

/// Mark every triangle whose circle holds `point` (inside or on it).
fn mark_bad_triangles_exhaustive(points: &[Point2], triangles: &[Triangle], point: usize, bad: &mut Vec<bool>, policy: PredicatePolicy) -> (r: Result<(), Error>)
    requires
        triangles_in_bounds(triangles@, points@.len() as int),
        point < points@.len(),
        old(bad)@.len() == triangles@.len(),
        forall|i: int| 0 <= i < triangles@.len() && #[trigger] old(bad)@[i] ==> conflict_result(points@, triangles@[i], point as int, policy) == Ok::<bool, Error>(true),
    ensures
        final(bad)@.len() == triangles@.len(),
        forall|i: int| 0 <= i < triangles@.len() && #[trigger] final(bad)@[i] ==> conflict_result(points@, triangles@[i], point as int, policy) == Ok::<bool, Error>(true),
        r is Ok ==> forall|i: int| 0 <= i < triangles@.len() ==> (#[trigger] final(bad)@[i] <==> (old(bad)@[i] || conflict_result(points@, triangles@[i], point as int, policy) == Ok::<bool, Error>(true))),
        policy_decides(policy) && fractions_valid(points@) ==> r is Ok,
{
    let mut i: usize = 0;
    while i < triangles.len()
        invariant
            0 <= i <= triangles@.len(),
            triangles_in_bounds(triangles@, points@.len() as int),
            point < points@.len(),
            bad@.len() == triangles@.len(),
            forall|j: int| 0 <= j < triangles@.len() && #[trigger] bad@[j] ==> conflict_result(points@, triangles@[j], point as int, policy) == Ok::<bool, Error>(true),
            forall|j: int| 0 <= j < i ==> (#[trigger] bad@[j] <==> (old(bad)@[j] || conflict_result(points@, triangles@[j], point as int, policy) == Ok::<bool, Error>(true))),
            forall|j: int| i <= j < triangles@.len() ==> #[trigger] bad@[j] == old(bad)@[j],
        decreases triangles@.len() - i,
    {
        let triangle = triangles[i];
        assert(triangle_in_bounds(triangle, points@.len() as int)) by {
            assert(triangles@[i as int][0] < points@.len());
            assert(triangles@[i as int][1] < points@.len());
            assert(triangles@[i as int][2] < points@.len());
        }
        if incircle_inside_or_on_positive(points, triangle, point, policy)? {
            bad.set(i, true);
        }
        i = i + 1;
    }
    Ok(())
}

/// Whether any entry is set.
fn any_set(flags: &Vec<bool>) -> (r: bool)
    ensures
        r == exists|i: int| 0 <= i < flags@.len() && flags@[i],
{
    let mut i: usize = 0;
    while i < flags.len()
        invariant
            0 <= i <= flags@.len(),
            forall|j: int| 0 <= j < i ==> !flags@[j],
        decreases flags@.len() - i,
    {
        if flags[i] {
            return true;
        }
        i = i + 1;
    }
    false
}

/// Mark the triangles in conflict with `point`. From four triangles on, the
/// point is located by a walk over the adjacency and the conflict region is
/// grown from the located triangle across shared edges; when the walk fails
/// or marks nothing, every triangle is tested.
fn mark_conflicts(points: &[Point2], triangles: &[Triangle], point: usize, policy: PredicatePolicy) -> (r: Result<Vec<bool>, Error>)
    requires
        triangles_in_bounds(triangles@, points@.len() as int),
        point < points@.len(),
    ensures
        r matches Ok(bad) ==> bad@.len() == triangles@.len()
            && forall|i: int| 0 <= i < triangles@.len() && #[trigger] bad@[i] ==> conflict_result(points@, triangles@[i], point as int, policy) == Ok::<bool, Error>(true),
        triangles@.len() < 4 ==> (r matches Ok(bad) ==> forall|i: int| 0 <= i < triangles@.len() ==> (#[trigger] bad@[i] <==> conflict_result(points@, triangles@[i], point as int, policy) == Ok::<bool, Error>(true))),
        policy_decides(policy) && fractions_valid(points@) && (triangles@.len() < 4 || triangles@.len() > usize::MAX / 8 || adjacency_failure(triangles@) is None) ==> r is Ok,
{
    let len = triangles.len();
    let mut bad: Vec<bool> = vec![false; len];
    if len >= 4 && len <= usize::MAX / 8 {
        let neighbors = triangle_neighbors(triangles)?;
        match locate_triangle(points, triangles, neighbors.as_slice(), point, len - 1, policy)? {
            Some(seed) => {
                let mut visited: Vec<bool> = vec![false; len];
                let mut pending: Vec<usize> = Vec::new();
                pending.push(seed);
                let ghost mut remaining: int = unvisited_count(visited@);
                proof { lemma_unvisited_bounds(visited@); }
                while pending.len() > 0
                    invariant
                        len == triangles@.len(),
                        triangles_in_bounds(triangles@, points@.len() as int),
                        point < points@.len(),
                        neighbors@.len() == len,
                        forall|t: int, slot: int| 0 <= t < len && 0 <= slot < 3 ==> #[trigger] neighbors@[t][slot] == neighbor_of(triangles@, t, slot),
                        visited@.len() == len,
                        bad@.len() == len,
                        remaining == unvisited_count(visited@),
                        remaining >= 0,
                        forall|k: int| 0 <= k < pending@.len() ==> #[trigger] pending@[k] < len,
                        forall|j: int| 0 <= j < len && #[trigger] bad@[j] ==> conflict_result(points@, triangles@[j], point as int, policy) == Ok::<bool, Error>(true),
                    decreases remaining, pending@.len(),
                {
                    let current = match pending.pop() {
                        Some(c) => c,
                        None => 0,
                    };
                    assert(current < len);
                    if !visited[current] {
                        proof { lemma_unvisited_count(visited@, current as int); }
                        visited.set(current, true);
                        proof {
                            remaining = remaining - 1;
                            lemma_unvisited_bounds(visited@);
                        }
                        let triangle = triangles[current];
                        assert(triangle_in_bounds(triangle, points@.len() as int)) by {
                            assert(triangles@[current as int][0] < points@.len());
                            assert(triangles@[current as int][1] < points@.len());
                            assert(triangles@[current as int][2] < points@.len());
                        }
                        if incircle_inside_or_on_positive(points, triangle, point, policy)? {
                            bad.set(current, true);
                            let row = neighbors[current];
                            let mut slot: usize = 0;
                            while slot < 3
                                invariant
                                    0 <= slot <= 3,
                                    len == triangles@.len(),
                                    current < len,
                                    row == neighbors@[current as int],
                                    forall|t: int, s: int| 0 <= t < len && 0 <= s < 3 ==> #[trigger] neighbors@[t][s] == neighbor_of(triangles@, t, s),
                                    forall|k: int| 0 <= k < pending@.len() ==> #[trigger] pending@[k] < len,
                                decreases 3 - slot,
                            {
                                proof { lemma_neighbor_in_range(triangles@, current as int, slot as int); }
                                assert(row[slot as int] == neighbor_of(triangles@, current as int, slot as int));
                                if let Some(neighbor) = row[slot] {
                                    pending.push(neighbor);
                                }
                                slot = slot + 1;
                            }
                        }
                    }
                }
                if !any_set(&bad) {
                    mark_bad_triangles_exhaustive(points, triangles, point, &mut bad, policy)?;
                }
            },
            None => {
                mark_bad_triangles_exhaustive(points, triangles, point, &mut bad, policy)?;
            },
        }
    } else {
        mark_bad_triangles_exhaustive(points, triangles, point, &mut bad, policy)?;
    }
    Ok(bad)
}

/// Both endpoints of every edge are below `bound`.
pub open spec fn edges_below(edges: Seq<(usize, usize)>, bound: int) -> bool {
    forall|k: int| 0 <= k < edges.len() ==> (#[trigger] edges[k]).0 < bound && edges[k].1 < bound
}

/// Position of the first edge at or after `j` joining `from` and `to` in
/// either direction, or the length when there is none.
pub open spec fn cavity_edge_position(edges: Seq<(usize, usize)>, from: usize, to: usize, j: int) -> int
    decreases edges.len() - j,
{
    if j < 0 || j >= edges.len() {
        edges.len() as int
    } else if (edges[j].0 == from && edges[j].1 == to) || (edges[j].0 == to && edges[j].1 == from) {
        j
    } else {
        cavity_edge_position(edges, from, to, j + 1)
    }
}

/// Toggle an undirected edge in the cavity boundary: an edge met a second
/// time is interior to the cavity and leaves the list.
fn add_cavity_edge(edges: &mut Vec<(usize, usize)>, from: usize, to: usize, bound: usize)
    requires
        edges_below(old(edges)@, bound as int),
        from < bound,
        to < bound,
    ensures
        edges_below(final(edges)@, bound as int),
        ({
            let p = cavity_edge_position(old(edges)@, from, to, 0);
            if p < old(edges)@.len() { final(edges)@ == old(edges)@.remove(p) } else { final(edges)@ == old(edges)@.push((from, to)) }
        }),
{
    let mut position: usize = 0;
    while position < edges.len()
        invariant
            0 <= position <= edges@.len(),
            edges@ == old(edges)@,
            cavity_edge_position(edges@, from, to, 0) == cavity_edge_position(edges@, from, to, position as int),
            edges_below(edges@, bound as int),
            from < bound,
            to < bound,
        decreases edges@.len() - position,
    {
        let candidate = edges[position];
        if (candidate.0 == from && candidate.1 == to) || (candidate.0 == to && candidate.1 == from) {
            let ghost before = edges@;
            edges.remove(position);
            assert forall|k: int| 0 <= k < edges@.len() implies (#[trigger] edges@[k]).0 < bound && edges@[k].1 < bound by {
                if k < position {
                    assert(edges@[k] == before[k]);
                } else {
                    assert(edges@[k] == before[k + 1]);
                    assert(before[k + 1].0 < bound && before[k + 1].1 < bound);
                }
            }
            return;
        }
        position = position + 1;
    }
    edges.push((from, to));
}

/// One Bowyer–Watson pass: start from the enclosing triangle of the given
/// scale, insert the points in `order` (each insertion removes the triangles
/// in conflict with the point and fans the cavity boundary to it), then drop
/// every triangle that touches the enclosing triangle.
fn incremental_delaunay_attempt(points: &[Point2], order: &[usize], scale: &Real, policy: PredicatePolicy) -> (r: Result<Vec<Triangle>, Error>)
    requires
        points@.len() <= usize::MAX / 64,
        forall|k: int| 0 <= k < order@.len() ==> #[trigger] order@[k] < points@.len(),
    ensures
        r matches Ok(t) ==> oriented_in_bounds(points@, t@, policy),
{
    let n = points.len();
    let corners = super_triangle(points, scale)?;
    let mut work: Vec<Point2> = vstd::slice::slice_to_vec(points);
    work.push(corners[0]);
    work.push(corners[1]);
    work.push(corners[2]);
    let m = work.len();
    assert(points@ =~= work@.subrange(0, n as int));
    let corner_triangle: Triangle = [n, n + 1, n + 2];
    let seed = make_oriented(work.as_slice(), corner_triangle, policy)?;
    proof { lemma_made_oriented(work@, corner_triangle, seed, policy); }
    let mut triangles: Vec<Triangle> = Vec::new();
    triangles.push(seed);
    let mut k: usize = 0;
    while k < order.len()
        invariant
            0 <= k <= order@.len(),
            m == work@.len(),
            m == n + 3,
            n == points@.len(),
            n <= usize::MAX / 64,
            points@ =~= work@.subrange(0, n as int),
            forall|j: int| 0 <= j < order@.len() ==> #[trigger] order@[j] < n,
            oriented_in_bounds(work@, triangles@, policy),
        decreases order@.len() - k,
    {
        let point = order[k];
        proof { lemma_oriented_in_bounds(work@, triangles@, policy); }
        let bad = mark_conflicts(work.as_slice(), triangles.as_slice(), point, policy)?;
        let mut cavity: Vec<(usize, usize)> = Vec::new();
        let mut next: Vec<Triangle> = Vec::new();
        let mut i: usize = 0;
        while i < triangles.len()
            invariant
                0 <= i <= triangles@.len(),
                bad@.len() == triangles@.len(),
                m == work@.len(),
                oriented_in_bounds(work@, triangles@, policy),
                oriented_in_bounds(work@, next@, policy),
                edges_below(cavity@, m as int),
            decreases triangles@.len() - i,
        {
            let triangle = triangles[i];
            assert(triangle_in_bounds(triangles@[i as int], m as int));
            if bad[i] {
                add_cavity_edge(&mut cavity, triangle[0], triangle[1], m);
                add_cavity_edge(&mut cavity, triangle[1], triangle[2], m);
                add_cavity_edge(&mut cavity, triangle[2], triangle[0], m);
            } else {
                next.push(triangle);
                assert(next@[next@.len() - 1] == triangle);
            }
            i = i + 1;
        }
        let mut e: usize = 0;
        while e < cavity.len()
            invariant
                0 <= e <= cavity@.len(),
                m == work@.len(),
                point < m,
                edges_below(cavity@, m as int),
                oriented_in_bounds(work@, next@, policy),
            decreases cavity@.len() - e,
        {
            let (from, to) = cavity[e];
            assert(cavity@[e as int].0 < m && cavity@[e as int].1 < m);
            let sign = orient2(work.as_slice(), from, to, point, policy)?;
            if sign != Sign::Zero {
                let triangle = oriented_triangle(sign, [from, to, point]);
                next.push(triangle);
                assert(next@[next@.len() - 1] == triangle);
            }
            e = e + 1;
        }
        triangles = next;
        k = k + 1;
    }
    let mut kept: Vec<Triangle> = Vec::new();
    let mut i: usize = 0;
    while i < triangles.len()
        invariant
            0 <= i <= triangles@.len(),
            m == work@.len(),
            n == points@.len(),
            n <= m,
            points@ =~= work@.subrange(0, n as int),
            oriented_in_bounds(work@, triangles@, policy),
            oriented_in_bounds(points@, kept@, policy),
        decreases triangles@.len() - i,
    {
        let triangle = triangles[i];
        if triangle[0] < n && triangle[1] < n && triangle[2] < n {
            proof {
                assert(predicate_oriented(work@, triangles@[i as int], policy));
                lemma_oriented_prefix(work@, points@, triangle, policy);
            }
            kept.push(triangle);
            assert(kept@[kept@.len() - 1] == triangle);
        }
        i = i + 1;
    }
    Ok(kept)
}

/// Bowyer–Watson insertion in the given order, retried with an enclosing
/// triangle of twice the scale until the result covers the convex hull of
/// the points.
fn incremental_delaunay_in_order(points: &[Point2], order: &[usize], policy: PredicatePolicy) -> (r: Result<Vec<Triangle>, Error>)
    requires
        points@.len() <= usize::MAX / 64,
        forall|k: int| 0 <= k < order@.len() ==> #[trigger] order@[k] < points@.len(),
    ensures
        r matches Ok(t) ==> oriented_in_bounds(points@, t@, policy) && hull_result(points@, t@, policy) == Ok::<bool, Error>(true),
{
    let mut scale: i64 = 64;
    loop
        invariant
            64 <= scale,
            points@.len() <= usize::MAX / 64,
            forall|k: int| 0 <= k < order@.len() ==> #[trigger] order@[k] < points@.len(),
        decreases i64::MAX - scale,
    {
        let triangles = incremental_delaunay_attempt(points, order, &Real::from_int(scale), policy)?;
        if triangles.len() > usize::MAX / 8 {
            return Err(Error::InvalidInput { reason: "triangle count exceeds the adjacency index range" });
        }
        if triangulates_convex_hull(points, triangles.as_slice(), policy)? {
            return Ok(triangles);
        }
        scale = match scale.checked_mul(2) {
            Some(doubled) => doubled,
            None => return Err(coordinate_range_error()),
        };
    }
}

/// The indices `0..n` in increasing order.
fn identity_order(n: usize) -> (r: Vec<usize>)
    ensures
        r@.len() == n,
        forall|k: int| 0 <= k < n ==> #[trigger] r@[k] == k,
{
    let mut order: Vec<usize> = Vec::new();
    let mut i: usize = 0;
    while i < n
        invariant
            0 <= i <= n,
            order@.len() == i,
            forall|k: int| 0 <= k < i ==> #[trigger] order@[k] == k,
        decreases n - i,
    {
        order.push(i);
        i = i + 1;
    }
    order
}

/// The Delaunay triangles of a point set with no duplicates: nothing for two
/// points or fewer, the one triangle of three points unless they are
/// collinear, the four-point construction, and incremental insertion in
/// input order beyond that.
pub(crate) fn delaunay_triangles(points: &[Point2], policy: PredicatePolicy) -> (r: Result<Vec<Triangle>, Error>)
    requires
        points@.len() <= usize::MAX / 64,
    ensures
        points@.len() <= 2 ==> (r matches Ok(t) && t@.len() == 0),
        points@.len() == 3 ==> match orient2_result(points@, 0, 1, 2, policy) {
            Err(e) => r == Err::<Vec<Triangle>, Error>(e),
            Ok(sign) => r matches Ok(t) && t@ == (if sign == Sign::Zero { Seq::<Triangle>::empty() } else { seq![swap_if_negative(sign, [0usize, 1, 2])] }),
        },
        points@.len() == 4 ==> (r matches Ok(t) ==> t@.len() == 2 || t@.len() == 3),
        points@.len() >= 5 ==> (r matches Ok(t) ==> hull_result(points@, t@, policy) == Ok::<bool, Error>(true)),
        r matches Ok(t) ==> oriented_in_bounds(points@, t@, policy),
{
    let n = points.len();
    if n <= 2 {
        return Ok(Vec::new());
    }
    if n == 3 {
        let whole: Triangle = [0, 1, 2];
        let mut out: Vec<Triangle> = Vec::new();
        if let Some(t) = triangle_if_not_degenerate(points, whole, policy)? {
            proof { lemma_made_oriented(points@, whole, t, policy); }
            out.push(t);
        }
        proof {
            if out@.len() == 1 {
                assert(out@ =~= seq![out@[0]]);
            }
        }
        return Ok(out);
    }
    if n == 4 {
        return delaunay_quad(points, policy);
    }
    let order = identity_order(n);
    incremental_delaunay_in_order(points, order.as_slice(), policy)
}

/// Triangulate an exact point set with the empty-circumcircle rule: every
/// in-circle decision is the exact predicate's.
///
/// Duplicate points (equal as exact values) are rejected. Two points or
/// fewer give no triangle, three give their triangle unless collinear, four
/// are handled directly, and larger sets by incremental Bowyer–Watson
/// insertion in input order inside an enclosing triangle that is enlarged
/// until the result covers the convex hull. For four points or more the
/// result is checked against the exact Delaunay validator (triangles,
/// edge uses, convex-hull coverage, empty circumcircles) before it is
/// returned.
pub fn delaunay(context: &TriangulationContext, points: &[ExactPoint]) -> (r: Result<TriangulationOutcome<DelaunayTriangulation>, Error>)
    requires
        points@.len() <= usize::MAX / 64,
    ensures
        has_duplicate_point(points@) ==> r == Err::<TriangulationOutcome<DelaunayTriangulation>, Error>(Error::InvalidInput { reason: "duplicate points are not supported" }),
        !has_duplicate_point(points@) && points@.len() <= 2 ==> (r matches Ok(out) && out.value.triangles_view().len() == 0),
        !has_duplicate_point(points@) && points@.len() == 3 ==> match orient2_result(points@, 0, 1, 2, context.policy()) {
            Err(e) => r == Err::<TriangulationOutcome<DelaunayTriangulation>, Error>(e),
            Ok(sign) => r matches Ok(out) && out.value.triangles_view() == (if sign == Sign::Zero { Seq::<Triangle>::empty() } else { seq![swap_if_negative(sign, [0usize, 1, 2])] }),
        },
        r matches Ok(out) ==> {
            &&& !has_duplicate_point(points@)
            &&& out.value.points_view() == points@
            &&& oriented_in_bounds(points@, out.value.triangles_view(), context.policy())
            &&& out.certainty == TriangulationCertainty::Certified
            &&& points@.len() == 4 ==> out.value.triangles_view().len() == 2 || out.value.triangles_view().len() == 3
            &&& points@.len() >= 5 ==> hull_result(points@, out.value.triangles_view(), context.policy()) == Ok::<bool, Error>(true)
            &&& points@.len() >= 4 && out.value.triangles_view().len() <= usize::MAX / 8
                ==> delaunay_validation(points@, out.value.triangles_view(), context.policy()) == Ok::<(), Error>(())
        },
{
    let policy = context.predicate_policy();
    validate_unique_points(points)?;
    let triangles = delaunay_triangles(points, policy)?;
    if points.len() >= 4 && triangles.len() <= usize::MAX / 8 {
        validate_delaunay(points, triangles.as_slice(), policy)?;
    }
    let copy: Vec<ExactPoint> = vstd::slice::slice_to_vec(points);
    Ok(TriangulationOutcome::new(DelaunayTriangulation::from_parts(copy, triangles), TriangulationCertainty::Certified))
}

/// The splitmix64 finalizer: an add, then two xor-shift-multiply rounds and
/// a final xor-shift, all modulo `2^64`.
pub open spec fn splitmix64_spec(value: u64) -> u64 {
    let a = vstd::wrapping::u64_specs::wrapping_add(value, 0x9e37_79b9_7f4a_7c15u64);
    let b = vstd::wrapping::u64_specs::wrapping_mul(a ^ (a >> 30u64), 0xbf58_476d_1ce4_e5b9u64);
    let c = vstd::wrapping::u64_specs::wrapping_mul(b ^ (b >> 27u64), 0x94d0_49bb_1331_11ebu64);
    c ^ (c >> 31u64)
}

/// Deterministic 64-bit mixing of an index.
pub fn splitmix64(value: u64) -> (r: u64)
    ensures
        r == splitmix64_spec(value),
{
    let a = value.wrapping_add(0x9e37_79b9_7f4a_7c15u64);
    let b = (a ^ (a >> 30u64)).wrapping_mul(0xbf58_476d_1ce4_e5b9u64);
    let c = (b ^ (b >> 27u64)).wrapping_mul(0x94d0_49bb_1331_11ebu64);
    c ^ (c >> 31u64)
}

/// Points below `k` whose level is at least `low`, in increasing order.
pub open spec fn levels_at_least(levels: Seq<usize>, low: int, k: int) -> Seq<usize>
    decreases k,
{
    if k <= 0 {
        Seq::empty()
    } else {
        let rest = levels_at_least(levels, low, k - 1);
        if levels[k - 1] >= low { rest.push((k - 1) as usize) } else { rest }
    }
}

/// Points below `k` whose level is exactly `level`, in increasing order.
pub open spec fn levels_equal(levels: Seq<usize>, level: int, k: int) -> Seq<usize>
    decreases k,
{
    if k <= 0 {
        Seq::empty()
    } else {
        let rest = levels_equal(levels, level, k - 1);
        if levels[k - 1] == level { rest.push((k - 1) as usize) } else { rest }
    }
}

/// The indices `0..n`.
pub open spec fn index_range(n: int) -> Seq<usize> {
    Seq::new(n as nat, |i: int| i as usize)
}

/// Splitting the points of level at least `level` into those of that level
/// and those above it.
proof fn lemma_levels_split(levels: Seq<usize>, level: int, k: int)
    requires
        0 <= k <= levels.len(),
    ensures
        levels_at_least(levels, level, k).to_multiset() =~= levels_at_least(levels, level + 1, k).to_multiset().add(levels_equal(levels, level, k).to_multiset()),
    decreases k,
{
    broadcast use vstd::seq_lib::group_to_multiset_ensures;
    broadcast use vstd::multiset::group_multiset_axioms;
    if k > 0 {
        lemma_levels_split(levels, level, k - 1);
    }
}

/// No point has a level above the highest.
proof fn lemma_levels_above_highest(levels: Seq<usize>, highest: int, k: int)
    requires
        0 <= k <= levels.len(),
        forall|p: int| 0 <= p < levels.len() ==> #[trigger] levels[p] <= highest,
    ensures
        levels_at_least(levels, highest + 1, k) =~= Seq::<usize>::empty(),
    decreases k,
{
    if k > 0 {
        lemma_levels_above_highest(levels, highest, k - 1);
    }
}

/// Every point has level at least zero.
proof fn lemma_levels_from_zero(levels: Seq<usize>, k: int)
    requires
        0 <= k <= levels.len(),
    ensures
        levels_at_least(levels, 0, k) =~= index_range(k),
    decreases k,
{
    if k > 0 {
        lemma_levels_from_zero(levels, k - 1);
        assert(index_range(k) =~= index_range(k - 1).push((k - 1) as usize));
    }
}

/// Exchanging two entries keeps the multiset of entries.
proof fn lemma_swap_multiset(s: Seq<usize>, i: int, j: int)
    requires
        0 <= i < s.len(),
        0 <= j < s.len(),
    ensures
        s.update(i, s[j]).update(j, s[i]).to_multiset() =~= s.to_multiset(),
{
    broadcast use vstd::seq_lib::group_to_multiset_ensures;
    broadcast use vstd::multiset::group_multiset_axioms;
    let t = s.update(i, s[j]);
    assert(t.to_multiset() =~= s.to_multiset().insert(s[j]).remove(s[i]));
    assert(t.update(j, s[i]).to_multiset() =~= t.to_multiset().insert(s[i]).remove(t[j]));
    if i == j {
        assert(t =~= s);
        assert(t.update(j, s[i]) =~= s);
    }
}

/// Exchange two entries.
fn swap_entries(v: &mut Vec<usize>, i: usize, j: usize, bound: usize)
    requires
        i < old(v)@.len(),
        j < old(v)@.len(),
        forall|k: int| 0 <= k < old(v)@.len() ==> #[trigger] old(v)@[k] < bound,
    ensures
        final(v)@ == old(v)@.update(i as int, old(v)@[j as int]).update(j as int, old(v)@[i as int]),
        final(v)@.to_multiset() == old(v)@.to_multiset(),
        forall|k: int| 0 <= k < final(v)@.len() ==> #[trigger] final(v)@[k] < bound,
{
    proof { lemma_swap_multiset(v@, i as int, j as int); }
    let a = v[i];
    let b = v[j];
    v.set(i, b);
    v.set(j, a);
}

/// Spatial order of two point indices: by the primary coordinate (`y` when
/// `y_first`, else `x`), then the other coordinate, then the index.
pub open spec fn spatial_before(points: Seq<Point2>, left: int, right: int, y_first: bool) -> bool {
    let (lp, ls) = if y_first { (points[left].y, points[left].x) } else { (points[left].x, points[left].y) };
    let (rp, rs) = if y_first { (points[right].y, points[right].x) } else { (points[right].x, points[right].y) };
    ||| lp.less_value(rp)
    ||| lp.same_value(rp) && ls.less_value(rs)
    ||| lp.same_value(rp) && ls.same_value(rs) && left < right
}

fn spatial_less(points: &[Point2], left: usize, right: usize, y_first: bool) -> (r: bool)
    requires
        left < points@.len(),
        right < points@.len(),
    ensures
        r == spatial_before(points@, left as int, right as int, y_first),
{
    let l = points[left];
    let rt = points[right];
    let (lp, ls) = if y_first { (l.y, l.x) } else { (l.x, l.y) };
    let (rp, rs) = if y_first { (rt.y, rt.x) } else { (rt.x, rt.y) };
    if lp.exact_lt(&rp) {
        return true;
    }
    if !lp.exact_eq(&rp) {
        return false;
    }
    if ls.exact_lt(&rs) {
        return true;
    }
    ls.exact_eq(&rs) && left < right
}

/// Quickselect on `v[lo..hi]`: reorder it so that position `nth` holds the
/// entry of that rank in spatial order, smaller entries before it and the
/// rest after it.
fn select_spatial_nth(points: &[Point2], v: &mut Vec<usize>, lo: usize, hi: usize, nth: usize, y_first: bool)
    requires
        lo <= nth < hi <= old(v)@.len(),
        forall|k: int| 0 <= k < old(v)@.len() ==> #[trigger] old(v)@[k] < points@.len(),
    ensures
        final(v)@.len() == old(v)@.len(),
        final(v)@.to_multiset() == old(v)@.to_multiset(),
        forall|k: int| 0 <= k < final(v)@.len() ==> #[trigger] final(v)@[k] < points@.len(),
{
    let ghost original = v@;
    let bound = points.len();
    let mut lower = lo;
    let mut upper = hi;
    while upper - lower > 1
        invariant
            lo <= lower <= nth < upper <= hi,
            hi <= v@.len(),
            original == old(v)@,
            v@.len() == original.len(),
            v@.to_multiset() == original.to_multiset(),
            bound == points@.len(),
            forall|k: int| 0 <= k < v@.len() ==> #[trigger] v@[k] < bound,
        decreases upper - lower,
    {
        let pivot_position = lower + (upper - lower) / 2;
        swap_entries(v, pivot_position, upper - 1, bound);
        let pivot = v[upper - 1];
        let mut split = lower;
        let mut candidate = lower;
        while candidate < upper - 1
            invariant
                lower <= split <= candidate <= upper - 1,
                upper <= v@.len(),
                v@.len() == original.len(),
                v@.to_multiset() == original.to_multiset(),
                bound == points@.len(),
                pivot < bound,
                forall|k: int| 0 <= k < v@.len() ==> #[trigger] v@[k] < bound,
            decreases upper - 1 - candidate,
        {
            if spatial_less(points, v[candidate], pivot, y_first) {
                swap_entries(v, candidate, split, bound);
                split = split + 1;
            }
            candidate = candidate + 1;
        }
        swap_entries(v, split, upper - 1, bound);
        if split < nth {
            lower = split + 1;
        } else if split > nth {
            upper = split;
        } else {
            return;
        }
    }
}

/// Median-split ordering of `v[lo..hi]`: the spatial median (by `x`, or by
/// `y` when `split_y`) goes to the middle, and each half is ordered the same
/// way on the other axis.
fn spatial_median_order(points: &[Point2], v: &mut Vec<usize>, lo: usize, hi: usize, split_y: bool)
    requires
        lo <= hi <= old(v)@.len(),
        forall|k: int| 0 <= k < old(v)@.len() ==> #[trigger] old(v)@[k] < points@.len(),
    ensures
        final(v)@.len() == old(v)@.len(),
        final(v)@.to_multiset() == old(v)@.to_multiset(),
        forall|k: int| 0 <= k < final(v)@.len() ==> #[trigger] final(v)@[k] < points@.len(),
    decreases hi - lo,
{
    if hi - lo <= 1 {
        return;
    }
    let middle = lo + (hi - lo) / 2;
    select_spatial_nth(points, v, lo, hi, middle, split_y);
    spatial_median_order(points, v, lo, middle, !split_y);
    spatial_median_order(points, v, middle + 1, hi, !split_y);
}

/// A deterministic biased-randomized insertion order: each point gets a
/// level from the trailing zeros of its mixed index (capped so that the
/// first round keeps at least sixteen points), rounds run from the highest
/// level down, and each round is put in spatial median order.
pub fn brio_insertion_order(points: &[Point2]) -> (r: Vec<usize>)
    ensures
        r@.to_multiset() == index_range(points@.len() as int).to_multiset(),
        forall|k: int| 0 <= k < r@.len() ==> #[trigger] r@[k] < points@.len(),
{
    let n = points.len();
    let mut highest: usize = 0;
    let mut shifted: usize = n / 2;
    while shifted >= 16
        invariant
            highest + shifted <= n / 2,
        decreases shifted,
    {
        highest = highest + 1;
        shifted = shifted / 2;
    }
    let mut levels: Vec<usize> = Vec::new();
    let mut p: usize = 0;
    while p < n
        invariant
            0 <= p <= n,
            levels@.len() == p,
            forall|q: int| 0 <= q < p ==> #[trigger] levels@[q] <= highest,
        decreases n - p,
    {
        let zeros = splitmix64(p as u64).trailing_zeros() as usize;
        let level = if zeros < highest { zeros } else { highest };
        levels.push(level);
        p = p + 1;
    }
    let mut order: Vec<usize> = Vec::new();
    let mut next = highest + 1;
    proof { lemma_levels_above_highest(levels@, highest as int, n as int); }
    while next > 0
        invariant
            next <= highest + 1,
            levels@.len() == n,
            n == points@.len(),
            forall|q: int| 0 <= q < n ==> #[trigger] levels@[q] <= highest,
            order@.to_multiset() == levels_at_least(levels@, next as int, n as int).to_multiset(),
            forall|k: int| 0 <= k < order@.len() ==> #[trigger] order@[k] < n,
        decreases next,
    {
        let level = next - 1;
        let mut round: Vec<usize> = Vec::new();
        let mut q: usize = 0;
        while q < n
            invariant
                0 <= q <= n,
                levels@.len() == n,
                round@ == levels_equal(levels@, level as int, q as int),
                forall|k: int| 0 <= k < round@.len() ==> #[trigger] round@[k] < q,
            decreases n - q,
        {
            if levels[q] == level {
                round.push(q);
            }
            q = q + 1;
        }
        let ghost before = round@;
        let round_len = round.len();
        spatial_median_order(points, &mut round, 0, round_len, false);
        let ghost prior = order@;
        let mut k: usize = 0;
        while k < round.len()
            invariant
                0 <= k <= round@.len(),
                order@ == prior + round@.subrange(0, k as int),
                forall|j: int| 0 <= j < round@.len() ==> #[trigger] round@[j] < n,
                forall|j: int| 0 <= j < prior.len() ==> #[trigger] prior[j] < n,
            decreases round@.len() - k,
        {
            order.push(round[k]);
            assert(round@.subrange(0, k + 1) =~= round@.subrange(0, k as int).push(round@[k as int]));
            k = k + 1;
        }
        proof {
            assert(round@.subrange(0, round@.len() as int) =~= round@);
            vstd::seq_lib::lemma_multiset_commutative(prior, round@);
            lemma_levels_split(levels@, level as int, n as int);
            assert forall|j: int| 0 <= j < order@.len() implies #[trigger] order@[j] < n by {
                if j < prior.len() {
                    assert(order@[j] == prior[j]);
                } else {
                    assert(order@[j] == round@[j - prior.len()]);
                }
            }
        }
        next = level;
    }
    proof { lemma_levels_from_zero(levels@, n as int); }
    order
}

/// Delaunay triangles as [`delaunay_triangles`], with sets of five points or
/// more inserted in the biased-randomized spatial order.
pub(crate) fn delaunay_triangles_spatial(points: &[Point2], policy: PredicatePolicy) -> (r: Result<Vec<Triangle>, Error>)
    requires
        points@.len() <= usize::MAX / 64,
    ensures
        points@.len() <= 2 ==> (r matches Ok(t) && t@.len() == 0),
        points@.len() == 3 ==> match orient2_result(points@, 0, 1, 2, policy) {
            Err(e) => r == Err::<Vec<Triangle>, Error>(e),
            Ok(sign) => r matches Ok(t) && t@ == (if sign == Sign::Zero { Seq::<Triangle>::empty() } else { seq![swap_if_negative(sign, [0usize, 1, 2])] }),
        },
        points@.len() == 4 ==> (r matches Ok(t) ==> t@.len() == 2 || t@.len() == 3),
        points@.len() >= 5 ==> (r matches Ok(t) ==> hull_result(points@, t@, policy) == Ok::<bool, Error>(true)),
        r matches Ok(t) ==> oriented_in_bounds(points@, t@, policy),
{
    if points.len() <= 4 {
        return delaunay_triangles(points, policy);
    }
    let order = brio_insertion_order(points);
    incremental_delaunay_in_order(points, order.as_slice(), policy)
}

/// Triangulate an exact point set as [`delaunay`] does, but insert sets of
/// five points or more in a deterministic biased-randomized order whose
/// rounds follow a spatial median traversal. Triangle indices still refer to
/// the caller's order; for cocircular points the tie choices can differ from
/// those of [`delaunay`].
pub fn delaunay_spatial(context: &TriangulationContext, points: &[ExactPoint]) -> (r: Result<TriangulationOutcome<DelaunayTriangulation>, Error>)
    requires
        points@.len() <= usize::MAX / 64,
    ensures
        has_duplicate_point(points@) ==> r == Err::<TriangulationOutcome<DelaunayTriangulation>, Error>(Error::InvalidInput { reason: "duplicate points are not supported" }),
        !has_duplicate_point(points@) && points@.len() <= 2 ==> (r matches Ok(out) && out.value.triangles_view().len() == 0),
        !has_duplicate_point(points@) && points@.len() == 3 ==> match orient2_result(points@, 0, 1, 2, context.policy()) {
            Err(e) => r == Err::<TriangulationOutcome<DelaunayTriangulation>, Error>(e),
            Ok(sign) => r matches Ok(out) && out.value.triangles_view() == (if sign == Sign::Zero { Seq::<Triangle>::empty() } else { seq![swap_if_negative(sign, [0usize, 1, 2])] }),
        },
        r matches Ok(out) ==> {
            &&& !has_duplicate_point(points@)
            &&& out.value.points_view() == points@
            &&& oriented_in_bounds(points@, out.value.triangles_view(), context.policy())
            &&& out.certainty == TriangulationCertainty::Certified
            &&& points@.len() == 4 ==> out.value.triangles_view().len() == 2 || out.value.triangles_view().len() == 3
            &&& points@.len() >= 5 ==> hull_result(points@, out.value.triangles_view(), context.policy()) == Ok::<bool, Error>(true)
            &&& points@.len() >= 4 && out.value.triangles_view().len() <= usize::MAX / 8
                ==> delaunay_validation(points@, out.value.triangles_view(), context.policy()) == Ok::<(), Error>(())
        },
{
    let policy = context.predicate_policy();
    validate_unique_points(points)?;
    let triangles = delaunay_triangles_spatial(points, policy)?;
    if points.len() >= 4 && triangles.len() <= usize::MAX / 8 {
        validate_delaunay(points, triangles.as_slice(), policy)?;
    }
    let copy: Vec<ExactPoint> = vstd::slice::slice_to_vec(points);
    Ok(TriangulationOutcome::new(DelaunayTriangulation::from_parts(copy, triangles), TriangulationCertainty::Certified))
}

} // verus!
