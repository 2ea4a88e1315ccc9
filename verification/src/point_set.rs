//! Orientation-only triangulation of a point set: an exact triangle seed or
//! convex hull fan, then point insertion by triangle location and edge
//! splitting, with retained adjacency once the mesh is large enough.
use vstd::prelude::*;
use crate::context::PredicatePolicy;
use crate::error::Error;
use crate::cdt_validate::{hull_result, triangles_in_bounds, triangulates_convex_hull};
use crate::predicates::{on_segment_result, orient2, orient2_result, point_on_segment, fractions_valid, policy_decides};
use crate::topology::{has_vertex, replaced_triangles, strictly_increasing, triangle_neighbors, TriangleTopology};
use crate::types::{Point2, Sign, Triangle, TriangleLocation};

verus! {

/// A triangle's vertices, with the last two swapped when its orientation is
/// negative.
pub open spec fn swap_if_negative(sign: Sign, triangle: Triangle) -> Triangle {
    if sign == Sign::Negative { [triangle[0], triangle[2], triangle[1]] } else { triangle }
}

/// The triangle reordered to positive orientation, or why it cannot be.
pub open spec fn make_oriented_result(points: Seq<Point2>, triangle: Triangle, policy: PredicatePolicy) -> Result<Triangle, Error> {
    match orient2_result(points, triangle[0] as int, triangle[1] as int, triangle[2] as int, policy) {
        Err(e) => Err(e),
        Ok(sign) => if sign == Sign::Zero {
            Err(Error::InvalidInput { reason: "degenerate triangle" })
        } else {
            Ok(swap_if_negative(sign, triangle))
        },
    }
}

/// Every vertex of the triangle names a point of the list.
pub open spec fn triangle_in_bounds(triangle: Triangle, point_count: int) -> bool {
    triangle[0] < point_count && triangle[1] < point_count && triangle[2] < point_count
}

/// Reorder a triangle to positive orientation; degenerate triangles are
/// rejected.
pub fn make_oriented(points: &[Point2], triangle: Triangle, policy: PredicatePolicy) -> (r: Result<Triangle, Error>)
    requires
        triangle_in_bounds(triangle, points@.len() as int),
    ensures
        r == make_oriented_result(points@, triangle, policy),
        r matches Ok(t) ==> triangle_in_bounds(t, points@.len() as int),
{
    let sign = orient2(points, triangle[0], triangle[1], triangle[2], policy)?;
    if sign == Sign::Zero {
        return Err(Error::InvalidInput { reason: "degenerate triangle" });
    }
    if sign == Sign::Negative {
        Ok([triangle[0], triangle[2], triangle[1]])
    } else {
        Ok(triangle)
    }
}

/// The triangle reordered to positive orientation, `None` when it is
/// degenerate.
pub fn triangle_if_not_degenerate(points: &[Point2], triangle: Triangle, policy: PredicatePolicy) -> (r: Result<Option<Triangle>, Error>)
    requires
        triangle_in_bounds(triangle, points@.len() as int),
    ensures
        match orient2_result(points@, triangle[0] as int, triangle[1] as int, triangle[2] as int, policy) {
            Err(e) => r == Err::<Option<Triangle>, Error>(e),
            Ok(sign) => r == Ok::<Option<Triangle>, Error>(if sign == Sign::Zero { None } else { Some(swap_if_negative(sign, triangle)) }),
        },
{
    let sign = orient2(points, triangle[0], triangle[1], triangle[2], policy)?;
    if sign == Sign::Zero {
        Ok(None)
    } else if sign == Sign::Negative {
        Ok(Some([triangle[0], triangle[2], triangle[1]]))
    } else {
        Ok(Some(triangle))
    }
}

/// Location of the point at `p` relative to the triangle `a`, `b`, `c`:
/// degenerate when the triangle has zero orientation, on a vertex when the
/// point equals one, outside when its three edge orientations have both
/// signs, on an edge when one is zero, inside otherwise; or the first
/// undecided orientation.
pub open spec fn classify_result(points: Seq<Point2>, a: int, b: int, c: int, p: int, policy: PredicatePolicy) -> Result<TriangleLocation, Error> {
    match orient2_result(points, a, b, c, policy) {
        Err(e) => Err(e),
        Ok(o) => if o == Sign::Zero {
            Ok(TriangleLocation::Degenerate)
        } else if points[p].same_point(points[a]) || points[p].same_point(points[b]) || points[p].same_point(points[c]) {
            Ok(TriangleLocation::OnVertex)
        } else {
            match orient2_result(points, a, b, p, policy) {
                Err(e) => Err(e),
                Ok(ab) => match orient2_result(points, b, c, p, policy) {
                    Err(e) => Err(e),
                    Ok(bc) => match orient2_result(points, c, a, p, policy) {
                        Err(e) => Err(e),
                        Ok(ca) => {
                            let negative = ab == Sign::Negative || bc == Sign::Negative || ca == Sign::Negative;
                            let positive = ab == Sign::Positive || bc == Sign::Positive || ca == Sign::Positive;
                            if negative && positive {
                                Ok(TriangleLocation::Outside)
                            } else if ab == Sign::Zero || bc == Sign::Zero || ca == Sign::Zero {
                                Ok(TriangleLocation::OnEdge)
                            } else {
                                Ok(TriangleLocation::Inside)
                            }
                        },
                    },
                },
            }
        },
    }
}

/// Classify the point at `p` against the triangle `a`, `b`, `c`.
pub fn classify_point_triangle(points: &[Point2], a: usize, b: usize, c: usize, p: usize, policy: PredicatePolicy) -> (r: Result<TriangleLocation, Error>)
    requires
        a < points@.len(),
        b < points@.len(),
        c < points@.len(),
        p < points@.len(),
    ensures
        r == classify_result(points@, a as int, b as int, c as int, p as int, policy),
{
    let orientation = orient2(points, a, b, c, policy)?;
    if orientation == Sign::Zero {
        return Ok(TriangleLocation::Degenerate);
    }
    if points[p].exact_eq(&points[a]) || points[p].exact_eq(&points[b]) || points[p].exact_eq(&points[c]) {
        return Ok(TriangleLocation::OnVertex);
    }
    let ab = orient2(points, a, b, p, policy)?;
    let bc = orient2(points, b, c, p, policy)?;
    let ca = orient2(points, c, a, p, policy)?;
    let negative = ab == Sign::Negative || bc == Sign::Negative || ca == Sign::Negative;
    let positive = ab == Sign::Positive || bc == Sign::Positive || ca == Sign::Positive;
    if negative && positive {
        return Ok(TriangleLocation::Outside);
    }
    if ab == Sign::Zero || bc == Sign::Zero || ca == Sign::Zero {
        Ok(TriangleLocation::OnEdge)
    } else {
        Ok(TriangleLocation::Inside)
    }
}

/// Triangle count from which point location walks the adjacency instead of
/// testing every triangle.
pub const LOCATED_CAVITY_THRESHOLD: usize = 4;

/// Triangle count from which insertion builds and retains the adjacency
/// instead of rebuilding it for each located point.
pub const RETAINED_ADJACENCY_THRESHOLD: usize = 32;

/// Number of unvisited entries.
pub open spec fn unvisited_count(visited: Seq<bool>) -> int
    decreases visited.len(),
{
    if visited.len() == 0 {
        0
    } else {
        unvisited_count(visited.drop_last()) + if visited.last() { 0int } else { 1int }
    }
}

pub(crate) proof fn lemma_unvisited_count(visited: Seq<bool>, i: int)
    requires
        0 <= i < visited.len(),
        !visited[i],
    ensures
        unvisited_count(visited.update(i, true)) == unvisited_count(visited) - 1,
        unvisited_count(visited) >= 1,
        unvisited_count(visited) <= visited.len(),
    decreases visited.len(),
{
    lemma_unvisited_bounds(visited);
    let updated = visited.update(i, true);
    if i < visited.len() - 1 {
        assert(updated.drop_last() =~= visited.drop_last().update(i, true));
        lemma_unvisited_count(visited.drop_last(), i);
    } else {
        assert(updated.drop_last() =~= visited.drop_last());
        lemma_unvisited_bounds(visited.drop_last());
    }
}

pub(crate) proof fn lemma_unvisited_bounds(visited: Seq<bool>)
    ensures
        0 <= unvisited_count(visited) <= visited.len(),
    decreases visited.len(),
{
    if visited.len() > 0 {
        lemma_unvisited_bounds(visited.drop_last());
    }
}

/// The first edge slot of the triangle (from vertex `slot` to the next)
/// with the point strictly on its right, or the first error.
pub open spec fn crossed_edge_result(points: Seq<Point2>, triangle: Triangle, point: int, policy: PredicatePolicy) -> Result<Option<usize>, Error> {
    match orient2_result(points, triangle[0] as int, triangle[1] as int, point, policy) {
        Err(e) => Err(e),
        Ok(a) => if a == Sign::Negative {
            Ok(Some(0usize))
        } else {
            match orient2_result(points, triangle[1] as int, triangle[2] as int, point, policy) {
                Err(e) => Err(e),
                Ok(b) => if b == Sign::Negative {
                    Ok(Some(1usize))
                } else {
                    match orient2_result(points, triangle[2] as int, triangle[0] as int, point, policy) {
                        Err(e) => Err(e),
                        Ok(c) => if c == Sign::Negative { Ok(Some(2usize)) } else { Ok(None) },
                    }
                },
            }
        },
    }
}

/// The first edge slot of the triangle (from vertex `slot` to the next) with
/// the point strictly on its right, if any.
fn first_crossed_edge(points: &[Point2], triangle: Triangle, point: usize, policy: PredicatePolicy) -> (r: Result<Option<usize>, Error>)
    requires
        triangle_in_bounds(triangle, points@.len() as int),
        point < points@.len(),
    ensures
        r matches Ok(Some(slot)) ==> slot < 3,
        r == crossed_edge_result(points@, triangle, point as int, policy),
{
    if orient2(points, triangle[0], triangle[1], point, policy)? == Sign::Negative {
        return Ok(Some(0));
    }
    if orient2(points, triangle[1], triangle[2], point, policy)? == Sign::Negative {
        return Ok(Some(1));
    }
    if orient2(points, triangle[2], triangle[0], point, policy)? == Sign::Negative {
        return Ok(Some(2));
    }
    Ok(None)
}

/// Walk from the seed triangle toward the point, crossing the first edge
/// that has the point on its right, until a triangle has none (found), the
/// walk leaves the mesh or revisits a triangle (not found).
pub(crate) fn locate_triangle(
    points: &[Point2],
    triangles: &[Triangle],
    neighbors: &[[Option<usize>; 3]],
    point: usize,
    seed: usize,
    policy: PredicatePolicy,
) -> (r: Result<Option<usize>, Error>)
    requires
        triangles_in_bounds(triangles@, points@.len() as int),
        neighbors@.len() == triangles@.len(),
        point < points@.len(),
    ensures
        r matches Ok(Some(t)) ==> t < triangles@.len() && crossed_edge_result(points@, triangles@[t as int], point as int, policy) == Ok::<Option<usize>, Error>(None),
        policy_decides(policy) && fractions_valid(points@) && (forall|t: int, slot: int| 0 <= t < neighbors@.len() && 0 <= slot < 3 ==> (#[trigger] neighbors@[t][slot] matches Some(v) ==> v < neighbors@.len()))
            ==> r is Ok,
{
    let len = triangles.len();
    if len == 0 {
        return Ok(None);
    }
    let mut current = if seed < len - 1 { seed } else { len - 1 };
    let mut visited: Vec<bool> = Vec::new();
    let mut k: usize = 0;
    while k < len
        invariant
            0 <= k <= len,
            visited@.len() == k,
            forall|j: int| 0 <= j < k ==> !#[trigger] visited@[j],
        decreases len - k,
    {
        visited.push(false);
        k = k + 1;
    }
    let ghost mut remaining: int = unvisited_count(visited@);
    proof {
        lemma_unvisited_bounds(visited@);
    }
    while !visited[current]
        invariant
            len == triangles@.len(),
            neighbors@.len() == len,
            current < len,
            visited@.len() == len,
            remaining == unvisited_count(visited@),
            remaining >= 0,
            triangles_in_bounds(triangles@, points@.len() as int),
            point < points@.len(),
        decreases remaining,
    {
        proof {
            lemma_unvisited_count(visited@, current as int);
        }
        visited.set(current, true);
        proof {
            remaining = remaining - 1;
            lemma_unvisited_bounds(visited@);
        }
        let triangle = triangles[current];
        assert(triangle_in_bounds(triangle, points@.len() as int)) by {
            assert(triangles@[current as int][0] < points@.len());
            assert(triangles@[current as int][1] < points@.len());
            assert(triangles@[current as int][2] < points@.len());
        }
        match first_crossed_edge(points, triangle, point, policy)? {
            None => return Ok(Some(current)),
            Some(slot) => match neighbors[current][slot] {
                None => return Ok(None),
                Some(neighbor) => {
                    if neighbor >= len {
                        return Err(Error::InvalidInput { reason: "triangle adjacency references an absent triangle" });
                    }
                    current = neighbor;
                },
            },
        }
    }
    Ok(None)
}

/// Replacing slots by in-range triangles keeps every triangle in range.
pub(crate) proof fn lemma_replaced_in_bounds(triangles: Seq<Triangle>, indices: Seq<usize>, replacement: Seq<Triangle>, point_count: int)
    requires
        triangles_in_bounds(triangles, point_count),
        indices.len() <= replacement.len(),
        forall|l: int| 0 <= l < replacement.len() ==> triangle_in_bounds(#[trigger] replacement[l], point_count),
    ensures
        triangles_in_bounds(replaced_triangles(triangles, indices, replacement), point_count),
{
    let out = replaced_triangles(triangles, indices, replacement);
    assert forall|t: int, i: int| 0 <= t < out.len() && 0 <= i < 3 implies #[trigger] out[t][i] < point_count by {
        if t < triangles.len() {
            if exists|l: int| 0 <= l < indices.len() && indices[l] == t {
                let l = choose|l: int| 0 <= l < indices.len() && indices[l] == t;
                assert(triangle_in_bounds(replacement[l], point_count));
            } else {
                assert(triangles[t][i] < point_count);
            }
        } else {
            let l = indices.len() + t - triangles.len();
            assert(triangle_in_bounds(replacement[l], point_count));
        }
    }
}

/// What an insertion keeps: in-range triangles, and retained adjacency with
/// one row per triangle.
pub open spec fn insertion_state(points: Seq<Point2>, triangles: Seq<Triangle>, topology: Option<Box<TriangleTopology>>) -> bool {
    &&& triangles_in_bounds(triangles, points.len() as int)
    &&& topology matches Some(t) ==> t.neighbors@.len() == triangles.len()
}

/// The point at `v` is a vertex of some triangle of the mesh.
pub open spec fn mesh_has_vertex(triangles: Seq<Triangle>, v: int) -> bool {
    exists|t: int| 0 <= t < triangles.len() && #[trigger] has_vertex(triangles[t], v)
}

/// The vertex of `triangle` off the edge `{e0, e1}`, when there is one.
pub open spec fn opposite_vertex(triangle: Triangle, e0: usize, e1: usize) -> Option<usize> {
    if triangle[0] != e0 && triangle[0] != e1 {
        Some(triangle[0])
    } else if triangle[1] != e0 && triangle[1] != e1 {
        Some(triangle[1])
    } else if triangle[2] != e0 && triangle[2] != e1 {
        Some(triangle[2])
    } else {
        None
    }
}

/// Whether triangle `slots[j]` splits through `p` into the positively
/// oriented `(e0, p, o)` at `pieces[j]` and `(p, e1, o)` at
/// `pieces[slots.len() + j]`, with `o` its vertex off the edge.
pub open spec fn split_piece(points: Seq<Point2>, before: Seq<Triangle>, slots: Seq<usize>, pieces: Seq<Triangle>, e0: usize, e1: usize, p: usize, policy: PredicatePolicy, j: int) -> bool {
    match opposite_vertex(before[slots[j] as int], e0, e1) {
        Some(o) => make_oriented_result(points, [e0, p, o], policy) == Ok::<Triangle, Error>(pieces[j])
            && make_oriented_result(points, [p, e1, o], policy) == Ok::<Triangle, Error>(pieces[slots.len() + j]),
        None => false,
    }
}

/// The mesh after splitting edge `(e0, e1)` of triangle `t` at `p`: the
/// edge is one of the triangle's edges and carries `p`; the triangles on it
/// (`t`, and its neighbor across the edge when there is one) each split in
/// two, the first halves taking their slots and the second halves appended.
pub open spec fn edge_split(points: Seq<Point2>, before: Seq<Triangle>, after: Seq<Triangle>, t: int, p: usize, policy: PredicatePolicy, slots: Seq<usize>, pieces: Seq<Triangle>, e0: usize, e1: usize) -> bool {
    &&& 0 <= t < before.len()
    &&& (e0 == before[t][0] && e1 == before[t][1]) || (e0 == before[t][1] && e1 == before[t][2]) || (e0 == before[t][2] && e1 == before[t][0])
    &&& on_segment_result(points, e0 as int, e1 as int, p as int, policy) == Ok::<bool, Error>(true)
    &&& 1 <= slots.len() <= 2
    &&& slots.contains(t as usize)
    &&& strictly_increasing(slots)
    &&& forall|j: int| 0 <= j < slots.len() ==> #[trigger] slots[j] < before.len()
    &&& pieces.len() == 2 * slots.len()
    &&& forall|j: int| 0 <= j < slots.len() ==> #[trigger] split_piece(points, before, slots, pieces, e0, e1, p, policy, j)
    &&& after == replaced_triangles(before, slots, pieces)
}

/// Replacing one or two slots and appending as many triangles.
proof fn lemma_replaced_pair(before: Seq<Triangle>, slots: Seq<usize>, pieces: Seq<Triangle>)
    requires
        1 <= slots.len() <= 2,
        strictly_increasing(slots),
        forall|j: int| 0 <= j < slots.len() ==> #[trigger] slots[j] < before.len(),
        pieces.len() == 2 * slots.len(),
    ensures
        replaced_triangles(before, slots, pieces) == if slots.len() == 1 {
            before.update(slots[0] as int, pieces[0]).push(pieces[1])
        } else {
            before.update(slots[0] as int, pieces[0]).update(slots[1] as int, pieces[1]).push(pieces[2]).push(pieces[3])
        },
{
    let r = replaced_triangles(before, slots, pieces);
    let e = if slots.len() == 1 {
        before.update(slots[0] as int, pieces[0]).push(pieces[1])
    } else {
        before.update(slots[0] as int, pieces[0]).update(slots[1] as int, pieces[1]).push(pieces[2]).push(pieces[3])
    };
    assert forall|i: int| 0 <= i < r.len() implies #[trigger] r[i] == e[i] by {
        if i < before.len() {
            if exists|l: int| 0 <= l < slots.len() && slots[l] == i {
                let l = choose|l: int| 0 <= l < slots.len() && slots[l] == i;
                if slots.len() == 2 {
                    assert(slots[0] < slots[1]);
                }
            } else {
                assert(slots[0] != i);
                if slots.len() == 2 {
                    assert(slots[1] != i);
                }
            }
        }
    }
    assert(r =~= e);
}

/// Split the triangulation edge through the point at `point`: the edge of
/// the triangle at `triangle_index` that holds the point, and its neighbor
/// across that edge if there is one, each become two triangles.
#[verifier::loop_isolation(false)]
#[verifier::rlimit(40)]
fn split_edge(
    points: &[Point2],
    triangles: &mut Vec<Triangle>,
    triangle_index: usize,
    point: usize,
    topology: &mut Option<Box<TriangleTopology>>,
    policy: PredicatePolicy,
) -> (r: Result<(), Error>)
    requires
        insertion_state(points@, old(triangles)@, *old(topology)),
        triangle_index < old(triangles)@.len(),
        point < points@.len(),
        old(triangles)@.len() + 2 <= usize::MAX / 8,
    ensures
        insertion_state(points@, final(triangles)@, *final(topology)),
        r is Ok ==> final(triangles)@.len() <= old(triangles)@.len() + 2,
        r is Err ==> final(triangles)@ == old(triangles)@,
        r is Ok ==> mesh_has_vertex(final(triangles)@, point as int),
        r is Ok ==> exists|slots: Seq<usize>, pieces: Seq<Triangle>, e0: usize, e1: usize|
            #[trigger] edge_split(points@, old(triangles)@, final(triangles)@, triangle_index as int, point, policy, slots, pieces, e0, e1),
{
    let ghost t0 = triangles@;
    let triangle = triangles[triangle_index];
    assert(triangle_in_bounds(triangle, points@.len() as int)) by {
        assert(triangles@[triangle_index as int][0] < points@.len());
        assert(triangles@[triangle_index as int][1] < points@.len());
        assert(triangles@[triangle_index as int][2] < points@.len());
    }
    let edge = if point_on_segment(points, triangle[0], triangle[1], point, policy)? {
        (triangle[0], triangle[1])
    } else if point_on_segment(points, triangle[1], triangle[2], point, policy)? {
        (triangle[1], triangle[2])
    } else if point_on_segment(points, triangle[2], triangle[0], point, policy)? {
        (triangle[2], triangle[0])
    } else {
        return Err(Error::InvalidInput { reason: "edge point was not on a triangulation edge" });
    };
    assert(on_segment_result(points@, edge.0 as int, edge.1 as int, point as int, policy) == Ok::<bool, Error>(true));
    assert((edge.0 == t0[triangle_index as int][0] && edge.1 == t0[triangle_index as int][1])
        || (edge.0 == t0[triangle_index as int][1] && edge.1 == t0[triangle_index as int][2])
        || (edge.0 == t0[triangle_index as int][2] && edge.1 == t0[triangle_index as int][0]));

    let mut incident: [usize; 2] = [triangle_index, usize::MAX];
    let mut incident_len: usize = 1;
    match topology {
        Some(retained) => {
            match retained.neighbor_across_vertices(triangles.as_slice(), triangle_index, edge.0, edge.1)? {
                Some(neighbor) => {
                    if neighbor < triangle_index {
                        incident = [neighbor, triangle_index];
                    } else {
                        incident = [triangle_index, neighbor];
                    }
                    incident_len = 2;
                },
                None => {},
            }
        },
        None => {
            incident_len = 0;
            let mut index: usize = 0;
            while index < triangles.len()
                invariant
                    0 <= index <= triangles@.len(),
                    incident_len <= 2,
                    forall|j: int| 0 <= j < incident_len ==> #[trigger] incident[j] < triangles@.len(),
                    forall|j: int| 0 <= j < incident_len ==> #[trigger] incident[j] < index,
                    incident_len == 2 ==> incident[0] < incident[1],
                decreases triangles@.len() - index,
            {
                let candidate = triangles[index];
                let has_first = candidate[0] == edge.0 || candidate[1] == edge.0 || candidate[2] == edge.0;
                let has_second = candidate[0] == edge.1 || candidate[1] == edge.1 || candidate[2] == edge.1;
                if has_first && has_second {
                    if incident_len == 2 {
                        return Err(Error::InvalidInput { reason: "triangulation edge has invalid incidence" });
                    }
                    incident.set(incident_len, index);
                    incident_len = incident_len + 1;
                }
                index = index + 1;
            }
        },
    }
    assert(*topology is None ==> (incident_len == 2 ==> incident[0] < incident[1]));
    let contains_start = (incident_len >= 1 && incident[0] == triangle_index) || (incident_len == 2 && incident[1] == triangle_index);
    if incident_len == 0 || !contains_start {
        return Err(Error::InvalidInput { reason: "triangulation edge has invalid incidence" });
    }
    assert(forall|j: int| 0 <= j < incident_len ==> #[trigger] incident[j] < triangles@.len()) by {
        if incident_len == 2 && incident[0] == triangle_index {
            assert(incident[1] != usize::MAX || true);
        }
    }

    let mut first: [Triangle; 2] = [[0, 0, 0], [0, 0, 0]];
    let mut second: [Triangle; 2] = [[0, 0, 0], [0, 0, 0]];
    let mut position: usize = 0;
    while position < incident_len
        invariant
            0 <= position <= incident_len,
            1 <= incident_len <= 2,
            forall|j: int| 0 <= j < incident_len ==> #[trigger] incident[j] < triangles@.len(),
            forall|j: int| 0 <= j < position ==> triangle_in_bounds(#[trigger] first[j], points@.len() as int),
            forall|j: int| 0 <= j < position ==> triangle_in_bounds(#[trigger] second[j], points@.len() as int),
            forall|j: int| 0 <= j < position ==> has_vertex(#[trigger] second[j], point as int),
            triangles@ == t0,
            forall|j: int| 0 <= j < position ==> (#[trigger] opposite_vertex(t0[incident[j] as int], edge.0, edge.1) matches Some(o)
                && make_oriented_result(points@, [edge.0, point, o], policy) == Ok::<Triangle, Error>(first[j])
                && make_oriented_result(points@, [point, edge.1, o], policy) == Ok::<Triangle, Error>(second[j])),
        decreases incident_len - position,
    {
        let source = triangles[incident[position]];
        assert(triangle_in_bounds(source, points@.len() as int)) by {
            assert(triangles@[incident[position as int] as int][0] < points@.len());
            assert(triangles@[incident[position as int] as int][1] < points@.len());
            assert(triangles@[incident[position as int] as int][2] < points@.len());
        }
        let opposite = if source[0] != edge.0 && source[0] != edge.1 {
            source[0]
        } else if source[1] != edge.0 && source[1] != edge.1 {
            source[1]
        } else if source[2] != edge.0 && source[2] != edge.1 {
            source[2]
        } else {
            return Err(Error::InvalidInput { reason: "triangulation edge has no opposite vertex" });
        };
        assert(opposite_vertex(source, edge.0, edge.1) == Some(opposite));
        let low = make_oriented(points, [edge.0, point, opposite], policy)?;
        let high = make_oriented(points, [point, edge.1, opposite], policy)?;
        first.set(position, low);
        second.set(position, high);
        assert(opposite_vertex(t0[incident[position as int] as int], edge.0, edge.1) == Some(opposite));
        position = position + 1;
    }

    match topology {
        Some(retained) => {
            let mut replacement: Vec<Triangle> = Vec::new();
            let mut slots: Vec<usize> = Vec::new();
            let mut j: usize = 0;
            while j < incident_len
                invariant
                    0 <= j <= incident_len,
                    replacement@.len() == j,
                    slots@.len() == j,
                    forall|l: int| 0 <= l < j ==> #[trigger] replacement@[l] == first[l],
                    forall|l: int| 0 <= l < j ==> #[trigger] slots@[l] == incident[l],
                decreases incident_len - j,
            {
                replacement.push(first[j]);
                slots.push(incident[j]);
                j = j + 1;
            }
            let mut j: usize = 0;
            while j < incident_len
                invariant
                    0 <= j <= incident_len,
                    replacement@.len() == incident_len + j,
                    forall|l: int| 0 <= l < incident_len ==> #[trigger] replacement@[l] == first[l],
                    forall|l: int| 0 <= l < j ==> #[trigger] replacement@[incident_len + l] == second[l],
                decreases incident_len - j,
            {
                replacement.push(second[j]);
                j = j + 1;
            }
            let ghost before = triangles@;
            retained.replace_point_region(triangles, slots.as_slice(), replacement.as_slice(), Some((edge.0, edge.1, point)))?;
            proof {
                let zero: int = 0;
                assert(replacement@[incident_len + zero] == second[zero]);
                assert(triangles@[before.len() as int] == second[0]);
                assert(has_vertex(triangles@[before.len() as int], point as int));
                assert forall|l: int| 0 <= l < replacement@.len() implies triangle_in_bounds(#[trigger] replacement@[l], points@.len() as int) by {
                    if l < incident_len {
                        assert(replacement@[l] == first[l]);
                    } else {
                        let m = l - incident_len;
                        assert(replacement@[incident_len + m] == second[m]);
                    }
                }
                lemma_replaced_in_bounds(before, slots@, replacement@, points@.len() as int);
            }
            assert(edge_split(points@, t0, triangles@, triangle_index as int, point, policy, slots@, replacement@, edge.0, edge.1)) by {
                assert(before == t0);
                assert(strictly_increasing(slots@));
                if incident[0] == triangle_index {
                    assert(slots@[0] == triangle_index);
                } else {
                    assert(slots@[1] == triangle_index);
                }
                assert(slots@.contains(triangle_index));
                assert forall|j: int| 0 <= j < slots@.len() implies #[trigger] split_piece(points@, t0, slots@, replacement@, edge.0, edge.1, point, policy, j) by {
                    assert(slots@[j] == incident[j]);
                    assert(replacement@[j] == first[j]);
                    assert(replacement@[incident_len + j] == second[j]);
                    assert(opposite_vertex(t0[incident[j] as int], edge.0, edge.1) is Some);
                }
            }
        },
        None => {
            let ghost before = triangles@;
            let mut j: usize = 0;
            while j < incident_len
                invariant
                    0 <= j <= incident_len,
                    triangles@.len() == before.len(),
                    triangles_in_bounds(triangles@, points@.len() as int),
                    forall|l: int| 0 <= l < incident_len ==> #[trigger] incident[l] < before.len(),
                    triangles@ == (if j == 0 { before } else if j == 1 { before.update(incident[0] as int, first[0]) } else {
                        before.update(incident[0] as int, first[0]).update(incident[1] as int, first[1]) }),
                decreases incident_len - j,
            {
                triangles.set(incident[j], first[j]);
                j = j + 1;
            }
            let ghost mid = triangles@;
            let mut j: usize = 0;
            while j < incident_len
                invariant
                    0 <= j <= incident_len,
                    triangles@.len() == before.len() + j,
                    triangles_in_bounds(triangles@, points@.len() as int),
                    j > 0 ==> has_vertex(triangles@[triangles@.len() - 1], point as int),
                    triangles@ == (if j == 0 { mid } else if j == 1 { mid.push(second[0]) } else { mid.push(second[0]).push(second[1]) }),
                decreases incident_len - j,
            {
                triangles.push(second[j]);
                j = j + 1;
            }
            let ghost sl: Seq<usize> = if incident_len == 1 { seq![incident[0]] } else { seq![incident[0], incident[1]] };
            let ghost pc: Seq<Triangle> = if incident_len == 1 { seq![first[0], second[0]] } else { seq![first[0], first[1], second[0], second[1]] };
            assert(edge_split(points@, t0, triangles@, triangle_index as int, point, policy, sl, pc, edge.0, edge.1)) by {
                assert(before == t0);
                assert(strictly_increasing(sl));
                lemma_replaced_pair(t0, sl, pc);
                if incident[0] == triangle_index {
                    assert(sl[0] == triangle_index);
                } else {
                    assert(sl[1] == triangle_index);
                }
                assert(sl.contains(triangle_index));
                assert forall|j: int| 0 <= j < sl.len() implies #[trigger] split_piece(points@, t0, sl, pc, edge.0, edge.1, point, policy, j) by {
                    assert(sl[j] == incident[j]);
                    assert(pc[j] == first[j]);
                    assert(pc[sl.len() + j] == second[j]);
                    assert(opposite_vertex(t0[incident[j] as int], edge.0, edge.1) is Some);
                }
            }
        },
    }
    Ok(())
}

/// The scan of the triangles from `index` on for the first whose location
/// for the point is neither outside nor degenerate, or the first error.
pub open spec fn scan_from(points: Seq<Point2>, triangles: Seq<Triangle>, point: int, index: int, policy: PredicatePolicy) -> Result<Option<(usize, TriangleLocation)>, Error>
    decreases triangles.len() - index,
{
    if index < 0 || index >= triangles.len() {
        Ok(None)
    } else {
        let t = triangles[index];
        match classify_result(points, t[0] as int, t[1] as int, t[2] as int, point, policy) {
            Err(e) => Err(e),
            Ok(location) => if location == TriangleLocation::Outside || location == TriangleLocation::Degenerate {
                scan_from(points, triangles, point, index + 1, policy)
            } else {
                Ok(Some((index as usize, location)))
            },
        }
    }
}

proof fn lemma_scan_decided(points: Seq<Point2>, triangles: Seq<Triangle>, point: int, index: int, policy: PredicatePolicy)
    requires
        triangles_in_bounds(triangles, points.len() as int),
        0 <= point < points.len(),
        policy_decides(policy) && fractions_valid(points),
    ensures
        scan_from(points, triangles, point, index, policy) is Ok,
    decreases triangles.len() - index,
{
    if 0 <= index < triangles.len() {
        lemma_scan_decided(points, triangles, point, index + 1, policy);
    }
}

/// Where triangle `t` of the mesh places point `p`.
pub open spec fn located_in(points: Seq<Point2>, triangles: Seq<Triangle>, t: int, p: int, policy: PredicatePolicy) -> Result<TriangleLocation, Error> {
    classify_result(points, triangles[t][0] as int, triangles[t][1] as int, triangles[t][2] as int, p, policy)
}

/// The mesh after inserting `p` strictly inside triangle `t`: the slot of
/// `t` takes the positively oriented fan triangle on its first edge, and the
/// fan triangles on its second and third edges are appended.
pub open spec fn fan_inserted(points: Seq<Point2>, before: Seq<Triangle>, after: Seq<Triangle>, t: int, p: usize, policy: PredicatePolicy) -> bool {
    &&& 0 <= t < before.len()
    &&& located_in(points, before, t, p as int, policy) == Ok::<TriangleLocation, Error>(TriangleLocation::Inside)
    &&& match (
        make_oriented_result(points, [before[t][0], before[t][1], p], policy),
        make_oriented_result(points, [before[t][1], before[t][2], p], policy),
        make_oriented_result(points, [before[t][2], before[t][0], p], policy),
    ) {
        (Ok(first), Ok(second), Ok(third)) => after == before.update(t, first).push(second).push(third),
        _ => false,
    }
}

proof fn lemma_scan_located(points: Seq<Point2>, triangles: Seq<Triangle>, point: int, index: int, policy: PredicatePolicy)
    requires
        scan_from(points, triangles, point, index, policy) matches Ok(Some(_)),
        triangles.len() <= usize::MAX,
    ensures
        scan_from(points, triangles, point, index, policy) matches Ok(Some((t, location)))
            && 0 <= t < triangles.len() && located_in(points, triangles, t as int, point, policy) == Ok::<TriangleLocation, Error>(location),
    decreases triangles.len() - index,
{
    if 0 <= index < triangles.len() {
        let t = triangles[index];
        match classify_result(points, t[0] as int, t[1] as int, t[2] as int, point, policy) {
            Ok(location) => if location == TriangleLocation::Outside || location == TriangleLocation::Degenerate {
                lemma_scan_located(points, triangles, point, index + 1, policy);
            },
            Err(_) => {},
        }
    }
}

/// The first triangle below `k` whose location for the point is neither
/// outside nor degenerate, scanning in order.
fn scan_for_triangle(points: &[Point2], triangles: &[Triangle], point: usize, policy: PredicatePolicy) -> (r: Result<Option<(usize, TriangleLocation)>, Error>)
    requires
        triangles_in_bounds(triangles@, points@.len() as int),
        point < points@.len(),
    ensures
        r matches Ok(Some((t, location))) ==> t < triangles@.len() && location != TriangleLocation::Outside && location != TriangleLocation::Degenerate,
        r == scan_from(points@, triangles@, point as int, 0, policy),
        policy_decides(policy) && fractions_valid(points@) ==> r is Ok,
{
    proof {
        if policy_decides(policy) && fractions_valid(points@) {
            lemma_scan_decided(points@, triangles@, point as int, 0, policy);
        }
    }
    let mut index: usize = 0;
    while index < triangles.len()
        invariant
            0 <= index <= triangles@.len(),
            triangles_in_bounds(triangles@, points@.len() as int),
            point < points@.len(),
            scan_from(points@, triangles@, point as int, 0, policy) == scan_from(points@, triangles@, point as int, index as int, policy),
        decreases triangles@.len() - index,
    {
        let t = triangles[index];
        assert(triangles@[index as int][0] < points@.len() && triangles@[index as int][1] < points@.len() && triangles@[index as int][2] < points@.len());
        let location = classify_point_triangle(points, t[0], t[1], t[2], point, policy)?;
        match location {
            TriangleLocation::Outside => {},
            TriangleLocation::Degenerate => {},
            _ => return Ok(Some((index, location))),
        }
        index = index + 1;
    }
    Ok(None)
}

/// Insert the point at `point` into the triangulation: locate a triangle
/// holding it (walking the adjacency once the mesh has enough triangles,
/// otherwise or failing that by scanning), then split that triangle in three
/// or the edge through the point in two. The adjacency is built and retained
/// once the mesh reaches the retention size.
#[verifier::loop_isolation(false)]
pub fn insert_point(
    points: &[Point2],
    triangles: &mut Vec<Triangle>,
    point: usize,
    topology: &mut Option<Box<TriangleTopology>>,
    policy: PredicatePolicy,
) -> (r: Result<(), Error>)
    requires
        insertion_state(points@, old(triangles)@, *old(topology)),
        point < points@.len(),
        old(triangles)@.len() + 2 <= usize::MAX / 8,
    ensures
        insertion_state(points@, final(triangles)@, *final(topology)),
        r is Ok ==> final(triangles)@.len() <= old(triangles)@.len() + 2,
        r is Err ==> final(triangles)@ == old(triangles)@,
        r is Ok ==> mesh_has_vertex(final(triangles)@, point as int),
        r is Ok ==> exists|t: int| 0 <= t < old(triangles)@.len() && (fan_inserted(points@, old(triangles)@, final(triangles)@, t, point, policy)
            || (located_in(points@, old(triangles)@, t, point as int, policy) == Ok::<TriangleLocation, Error>(TriangleLocation::OnEdge)
                && exists|slots: Seq<usize>, pieces: Seq<Triangle>, e0: usize, e1: usize|
                    #[trigger] edge_split(points@, old(triangles)@, final(triangles)@, t, point, policy, slots, pieces, e0, e1))),
{
    let ghost t0 = triangles@;
    let mut located: Option<(usize, TriangleLocation)> = None;
    if triangles.len() >= LOCATED_CAVITY_THRESHOLD {
        let mut temporary: Option<Vec<[Option<usize>; 3]>> = None;
        if topology.is_none() && triangles.len() >= RETAINED_ADJACENCY_THRESHOLD {
            let built = TriangleTopology::new(triangles.as_slice(), points.len())?;
            *topology = Some(Box::new(built));
        } else if topology.is_none() {
            temporary = Some(triangle_neighbors(triangles.as_slice())?);
        }
        let found = match topology {
            Some(retained) => locate_triangle(points, triangles.as_slice(), retained.neighbors(), point, triangles.len() - 1, policy)?,
            None => match &temporary {
                Some(neighbors) => locate_triangle(points, triangles.as_slice(), neighbors.as_slice(), point, triangles.len() - 1, policy)?,
                None => return Err(Error::InvalidInput { reason: "located point insertion did not construct adjacency" }),
            },
        };
        match found {
            Some(t) => {
                let tri = triangles[t];
                assert(triangles@[t as int][0] < points@.len() && triangles@[t as int][1] < points@.len() && triangles@[t as int][2] < points@.len());
                let location = classify_point_triangle(points, tri[0], tri[1], tri[2], point, policy)?;
                if location != TriangleLocation::Outside {
                    located = Some((t, location));
                }
                assert(triangles@ == t0);
                assert(located matches Some((lt, ll)) ==> lt < t0.len() && located_in(points@, t0, lt as int, point as int, policy) == Ok::<TriangleLocation, Error>(ll));
            },
            None => {},
        }
    }
    if located.is_none() {
        located = scan_for_triangle(points, triangles.as_slice(), point, policy)?;
        proof {
            if located is Some {
                lemma_scan_located(points@, triangles@, point as int, 0, policy);
            }
        }
    }
    assert(triangles@ == t0);
    assert(located matches Some((lt, ll)) ==> lt < t0.len() && located_in(points@, t0, lt as int, point as int, policy) == Ok::<TriangleLocation, Error>(ll));
    let (triangle_index, location) = match located {
        Some(found) => found,
        None => return Err(Error::InvalidInput { reason: "point lies outside its convex-hull triangulation" }),
    };
    match location {
        TriangleLocation::Inside => {
            let abc = triangles[triangle_index];
            assert(triangles@[triangle_index as int][0] < points@.len() && triangles@[triangle_index as int][1] < points@.len() && triangles@[triangle_index as int][2] < points@.len());
            let a = abc[0];
            let b = abc[1];
            let c = abc[2];
            let first = make_oriented(points, [a, b, point], policy)?;
            let second = make_oriented(points, [b, c, point], policy)?;
            let third = make_oriented(points, [c, a, point], policy)?;
            match topology {
                Some(retained) => {
                    let replacement = [first, second, third];
                    let slots = [triangle_index];
                    let ghost before = triangles@;
                    retained.replace_point_region(triangles, slots.as_slice(), replacement.as_slice(), None)?;
                    proof {
                        assert(slots@ =~= seq![triangle_index]);
                        assert(replacement@ =~= seq![first, second, third]);
                        let ghost expected = before.update(triangle_index as int, first).push(second).push(third);
                        assert forall|i: int| 0 <= i < triangles@.len() implies #[trigger] triangles@[i] == expected[i] by {
                            if i < before.len() && i != triangle_index {
                                if exists|l: int| 0 <= l < slots@.len() && slots@[l] == i {
                                    let l = choose|l: int| 0 <= l < slots@.len() && slots@[l] == i;
                                    assert(slots@[l] == triangle_index);
                                }
                            } else if i == triangle_index {
                                assert(slots@[0] == i);
                            }
                        }
                        assert(triangles@ =~= expected);
                        assert(fan_inserted(points@, t0, triangles@, triangle_index as int, point, policy));
                        assert(replacement@[1] == second);
                        assert(triangles@[before.len() as int] == second);
                        assert(has_vertex(triangles@[before.len() as int], point as int));
                        assert forall|l: int| 0 <= l < replacement@.len() implies triangle_in_bounds(#[trigger] replacement@[l], points@.len() as int) by {
                            if l == 0 { assert(replacement@[l] == first); } else if l == 1 { assert(replacement@[l] == second); } else { assert(replacement@[l] == third); }
                        }
                        lemma_replaced_in_bounds(before, slots@, replacement@, points@.len() as int);
                    }
                },
                None => {
                    triangles.set(triangle_index, first);
                    triangles.push(second);
                    triangles.push(third);
                    assert(has_vertex(triangles@[triangles@.len() - 1], point as int));
                    assert(triangles@ =~= t0.update(triangle_index as int, first).push(second).push(third));
                    assert(fan_inserted(points@, t0, triangles@, triangle_index as int, point, policy));
                },
            }
            Ok(())
        },
        TriangleLocation::OnEdge => split_edge(points, triangles, triangle_index, point, topology, policy),
        TriangleLocation::OnVertex => Err(Error::InvalidInput { reason: "unique point coincides with a triangulation vertex" }),
        TriangleLocation::Degenerate => Err(Error::InvalidInput { reason: "topological point insertion reached a degenerate triangle" }),
        TriangleLocation::Outside => Err(Error::InvalidInput { reason: "point lies outside its convex-hull triangulation" }),
    }
}

/// The conservative policy under which an enclosing prefix triangle is
/// proved.
pub open spec fn strict_policy() -> PredicatePolicy {
    PredicatePolicy { allow_exact: true, allow_refinement: true, max_refinement_precision: Some(-512i32) }
}

/// The first three points as a positively ordered triangle, when they are
/// decided not collinear under the strict policy.
pub open spec fn prefix_seed(points: Seq<Point2>) -> Option<Triangle> {
    match orient2_result(points, 0, 1, 2, strict_policy()) {
        Ok(sign) => if sign == Sign::Zero { None } else { Some(swap_if_negative(sign, [0usize, 1, 2])) },
        Err(_) => None,
    }
}

/// Under the strict policy, the point at `k` is decided on the inner side of
/// or on every edge of the seed triangle, and on at most one of them.
pub open spec fn seed_admits(points: Seq<Point2>, seed: Triangle, k: int) -> bool {
    let a = orient2_result(points, seed[0] as int, seed[1] as int, k, strict_policy());
    let b = orient2_result(points, seed[1] as int, seed[2] as int, k, strict_policy());
    let c = orient2_result(points, seed[2] as int, seed[0] as int, k, strict_policy());
    &&& a is Ok && b is Ok && c is Ok
    &&& a != Ok::<Sign, Error>(Sign::Negative) && b != Ok::<Sign, Error>(Sign::Negative) && c != Ok::<Sign, Error>(Sign::Negative)
    &&& !(a == Ok::<Sign, Error>(Sign::Zero) && b == Ok::<Sign, Error>(Sign::Zero))
    &&& !(b == Ok::<Sign, Error>(Sign::Zero) && c == Ok::<Sign, Error>(Sign::Zero))
    &&& !(a == Ok::<Sign, Error>(Sign::Zero) && c == Ok::<Sign, Error>(Sign::Zero))
}

/// The first three points form a triangle that encloses (or carries on one
/// edge) every later point, all decided under the strict policy.
pub open spec fn prefix_encloses(points: Seq<Point2>) -> bool {
    &&& points.len() >= 3
    &&& prefix_seed(points) is Some
    &&& forall|k: int| 3 <= k < points.len() ==> #[trigger] seed_admits(points, prefix_seed(points)->0, k)
}

/// A point the seed does not admit defeats the enclosing prefix.
proof fn lemma_not_admitted(points: Seq<Point2>, seed: Triangle, index: int)
    requires
        prefix_seed(points) == Some(seed),
        3 <= index < points.len(),
        !seed_admits(points, seed, index),
    ensures
        !prefix_encloses(points),
{
    assert(prefix_seed(points)->0 == seed);
}

/// Prove that the first three points enclose the rest: the positively
/// ordered seed triangle and, when the fourth point lies on a seed edge, that
/// edge with its opposite seed vertex; `None` when some point is outside,
/// on two edges, or the seed is degenerate.
pub fn prove_enclosing_prefix_triangle(points: &[Point2]) -> (r: Result<Option<(Triangle, Option<[usize; 3]>)>, Error>)
    requires
        points@.len() >= 3,
    ensures
        (r matches Ok(Some(_))) == prefix_encloses(points@),
        r matches Err(e) ==> e is PredicateUndecided,
        r matches Ok(Some((seed, first_edge))) ==> seed == prefix_seed(points@)->0
            && (first_edge matches Some(e) ==> e[0] < 3 && e[1] < 3 && e[2] < 3),
{
    let strict = PredicatePolicy::strict();
    let seed = match triangle_if_not_degenerate(points, [0, 1, 2], strict)? {
        Some(t) => t,
        None => return Ok(None),
    };
    assert(seed == prefix_seed(points@)->0);
    let mut first_edge: Option<[usize; 3]> = None;
    let mut index: usize = 3;
    while index < points.len()
        invariant
            3 <= index <= points@.len(),
            strict == strict_policy(),
            prefix_seed(points@) == Some(seed),
            seed[0] < 3 && seed[1] < 3 && seed[2] < 3,
            forall|k: int| 3 <= k < index ==> #[trigger] seed_admits(points@, seed, k),
            first_edge matches Some(e) ==> e[0] < 3 && e[1] < 3 && e[2] < 3,
        decreases points@.len() - index,
    {
        let a = match orient2(points, seed[0], seed[1], index, strict) {
            Ok(s) => s,
            Err(e) => {
                proof { lemma_not_admitted(points@, seed, index as int); }
                return Err(e);
            },
        };
        let b = match orient2(points, seed[1], seed[2], index, strict) {
            Ok(s) => s,
            Err(e) => {
                proof { lemma_not_admitted(points@, seed, index as int); }
                return Err(e);
            },
        };
        let c = match orient2(points, seed[2], seed[0], index, strict) {
            Ok(s) => s,
            Err(e) => {
                proof { lemma_not_admitted(points@, seed, index as int); }
                return Err(e);
            },
        };
        if a == Sign::Negative || b == Sign::Negative || c == Sign::Negative {
            proof { lemma_not_admitted(points@, seed, index as int); }
            return Ok(None);
        }
        if (a == Sign::Zero && b == Sign::Zero) || (b == Sign::Zero && c == Sign::Zero) || (a == Sign::Zero && c == Sign::Zero) {
            proof { lemma_not_admitted(points@, seed, index as int); }
            return Ok(None);
        }
        if index == 3 {
            if a == Sign::Zero {
                first_edge = Some([seed[0], seed[1], seed[2]]);
            } else if b == Sign::Zero {
                first_edge = Some([seed[1], seed[2], seed[0]]);
            } else if c == Sign::Zero {
                first_edge = Some([seed[2], seed[0], seed[1]]);
            }
        }
        proof { assert(seed_admits(points@, seed, index as int)); }
        index = index + 1;
    }
    Ok(Some((seed, first_edge)))
}

/// Triangles of a point set with the retained adjacency, once built.
#[derive(Debug)]
pub struct PointTriangulation {
    /// The triangles, as point indices.
    pub triangles: Vec<Triangle>,
    /// The retained adjacency of the triangles, when insertion built it.
    pub topology: Option<Box<TriangleTopology>>,
}

impl PointTriangulation {
    /// A triangulation without retained adjacency.
    pub fn without_topology(triangles: Vec<Triangle>) -> (r: PointTriangulation)
        ensures
            r.triangles@ == triangles@,
            r.topology is None,
    {
        PointTriangulation { triangles, topology: None }
    }
}

/// Insert the points from `first` on, in order.
fn insert_points_from(
    points: &[Point2],
    triangles: &mut Vec<Triangle>,
    first: usize,
    skip: &[bool],
    topology: &mut Option<Box<TriangleTopology>>,
    policy: PredicatePolicy,
) -> (r: Result<(), Error>)
    requires
        insertion_state(points@, old(triangles)@, *old(topology)),
        skip@.len() == points@.len(),
        old(triangles)@.len() + 2 * points@.len() + 2 <= usize::MAX / 8,
    ensures
        insertion_state(points@, final(triangles)@, *final(topology)),
        r is Ok ==> final(triangles)@.len() <= old(triangles)@.len() + 2 * points@.len(),
{
    let ghost start = triangles@.len();
    let mut point = first;
    while point < points.len()
        invariant
            insertion_state(points@, triangles@, *topology),
            skip@.len() == points@.len(),
            start + 2 * points@.len() + 2 <= usize::MAX / 8,
            point >= first,
            first <= points@.len() ==> point <= points@.len(),
            first > points@.len() ==> point == first,
            triangles@.len() <= start + 2 * (point - first),
        decreases points@.len() - point,
    {
        if !skip[point] {
            insert_point(points, triangles, point, topology, policy)?;
        }
        point = point + 1;
    }
    Ok(())
}

/// Triangulate by an enclosing prefix triangle when the first three points
/// provably enclose the rest: the seed triangle (split at the fourth point
/// when it lies on a seed edge), then every later point inserted in order;
/// `None` when the proof declines.
pub fn triangulate_from_enclosing_prefix_triangle(points: &[Point2], policy: PredicatePolicy) -> (r: Result<Option<PointTriangulation>, Error>)
    requires
        points@.len() >= 4,
        points@.len() <= usize::MAX / 64,
    ensures
        !prefix_encloses(points@) ==> r matches Ok(None),
        prefix_encloses(points@) ==> !(r matches Ok(None)),
        r matches Ok(Some(t)) ==> insertion_state(points@, t.triangles@, t.topology),
        r matches Ok(Some(t)) ==> t.triangles@.len() <= 3 + 2 * points@.len(),
{
    let (seed, first_edge) = match prove_enclosing_prefix_triangle(points) {
        Ok(Some(proof)) => proof,
        Ok(None) => return Ok(None),
        Err(Error::PredicateUndecided { .. }) => return Ok(None),
        Err(error) => return Err(error),
    };
    let mut triangles: Vec<Triangle> = Vec::new();
    match first_edge {
        Some(e) => {
            triangles.push([e[0], 3, e[2]]);
            triangles.push([3, e[1], e[2]]);
        },
        None => {
            triangles.push([seed[0], seed[1], 3]);
            triangles.push([seed[1], seed[2], 3]);
            triangles.push([seed[2], seed[0], 3]);
        },
    }
    let mut topology: Option<Box<TriangleTopology>> = None;
    let skip: Vec<bool> = vec![false; points.len()];
    proof {
        assert(triangles_in_bounds(triangles@, points@.len() as int));
    }
    insert_points_from(points, &mut triangles, 4, skip.as_slice(), &mut topology, policy)?;
    Ok(Some(PointTriangulation { triangles, topology }))
}

/// Whether the point at `a` precedes the point at `b` by `x`, then `y`, then
/// index.
pub open spec fn point_precedes(points: Seq<Point2>, a: usize, b: usize) -> bool {
    points[a as int].x.less_value(points[b as int].x)
        || (points[a as int].x.same_value(points[b as int].x) && (points[a as int].y.less_value(points[b as int].y)
            || (points[a as int].y.same_value(points[b as int].y) && a < b)))
}

/// Decide whether the point at `a` precedes the point at `b` by `x`, then
/// `y`, then index.
fn spatial_precedes(points: &[Point2], a: usize, b: usize) -> (r: bool)
    requires
        a < points@.len(),
        b < points@.len(),
    ensures
        r == point_precedes(points@, a, b),
{
    let pa = &points[a];
    let pb = &points[b];
    pa.x.exact_lt(&pb.x) || (pa.x.exact_eq(&pb.x) && (pa.y.exact_lt(&pb.y) || (pa.y.exact_eq(&pb.y) && a < b)))
}

/// The point indices sorted by `x`, then `y`, then index, by bottom-up
/// merging.
fn lexicographic_point_order(points: &[Point2]) -> (r: Vec<usize>)
    ensures
        r@.len() == points@.len(),
        forall|i: int| 0 <= i < r@.len() ==> #[trigger] r@[i] < points@.len(),
{
    let n = points.len();
    let mut order: Vec<usize> = Vec::new();
    let mut i: usize = 0;
    while i < n
        invariant
            0 <= i <= n,
            n == points@.len(),
            order@.len() == i,
            forall|j: int| 0 <= j < i ==> #[trigger] order@[j] == j,
        decreases n - i,
    {
        order.push(i);
        i = i + 1;
    }
    let mut merged: Vec<usize> = vec![0; n];
    let mut width: usize = 1;
    while width < n
        invariant
            n == points@.len(),
            order@.len() == n,
            merged@.len() == n,
            1 <= width,
            forall|j: int| 0 <= j < n ==> #[trigger] order@[j] < n,
            forall|j: int| 0 <= j < n ==> #[trigger] merged@[j] < n || n == 0,
        decreases n - width,
    {
        let mut start: usize = 0;
        while start < n
            invariant
                n == points@.len(),
                order@.len() == n,
                merged@.len() == n,
                1 <= width < n,
                start <= n,
                forall|j: int| 0 <= j < n ==> #[trigger] order@[j] < n,
                forall|j: int| 0 <= j < n ==> #[trigger] merged@[j] < n,
            decreases n - start,
        {
            let middle = if width < n - start { start + width } else { n };
            let end = if width < n - middle { middle + width } else { n };
            let mut left = start;
            let mut right = middle;
            let mut output = start;
            while output < end
                invariant
                    n == points@.len(),
                    order@.len() == n,
                    merged@.len() == n,
                    start <= left <= middle <= right <= end <= n,
                    output == start + (left - start) + (right - middle),
                    forall|j: int| 0 <= j < n ==> #[trigger] order@[j] < n,
                    forall|j: int| 0 <= j < n ==> #[trigger] merged@[j] < n,
                decreases end - output,
            {
                let take_left = right == end || (left < middle && !spatial_precedes(points, order[right], order[left]));
                if take_left {
                    merged.set(output, order[left]);
                    left = left + 1;
                } else {
                    merged.set(output, order[right]);
                    right = right + 1;
                }
                output = output + 1;
            }
            start = end;
        }
        let mut j: usize = 0;
        while j < n
            invariant
                n == points@.len(),
                order@.len() == n,
                merged@.len() == n,
                0 <= j <= n,
                forall|k: int| 0 <= k < n ==> #[trigger] order@[k] < n,
                forall|k: int| 0 <= k < n ==> #[trigger] merged@[k] < n,
            decreases n - j,
        {
            order.set(j, merged[j]);
            j = j + 1;
        }
        width = if width <= n / 2 { width * 2 } else { n };
    }
    order
}

/// The chain after dropping its last point while it does not turn left
/// towards `point`, or the first error.
pub open spec fn hull_kept(points: Seq<Point2>, half: Seq<usize>, point: int, policy: PredicatePolicy) -> Result<Seq<usize>, Error>
    decreases half.len(),
{
    if half.len() < 2 {
        Ok(half)
    } else {
        match orient2_result(points, half[half.len() - 2] as int, half[half.len() - 1] as int, point, policy) {
            Err(e) => Err(e),
            Ok(s) => if s == Sign::Positive { Ok(half) } else { hull_kept(points, half.drop_last(), point, policy) },
        }
    }
}

proof fn lemma_hull_kept_decided(points: Seq<Point2>, half: Seq<usize>, point: int, policy: PredicatePolicy)
    requires
        forall|i: int| 0 <= i < half.len() ==> #[trigger] half[i] < points.len(),
        0 <= point < points.len(),
        policy_decides(policy) && fractions_valid(points),
    ensures
        hull_kept(points, half, point, policy) is Ok,
    decreases half.len(),
{
    if half.len() >= 2 {
        assert(forall|i: int| 0 <= i < half.drop_last().len() ==> #[trigger] half.drop_last()[i] == half[i]);
        lemma_hull_kept_decided(points, half.drop_last(), point, policy);
    }
}

/// Add a point to a monotone hull chain, first dropping the chain's last
/// point while it does not turn left.
fn append_hull_point(points: &[Point2], half: &mut Vec<usize>, point: usize, policy: PredicatePolicy) -> (r: Result<(), Error>)
    requires
        point < points@.len(),
        forall|i: int| 0 <= i < old(half)@.len() ==> #[trigger] old(half)@[i] < points@.len(),
    ensures
        forall|i: int| 0 <= i < final(half)@.len() ==> #[trigger] final(half)@[i] < points@.len(),
        r is Ok ==> 1 <= final(half)@.len() <= old(half)@.len() + 1,
        match hull_kept(points@, old(half)@, point as int, policy) {
            Ok(kept) => r is Ok && final(half)@ == kept.push(point),
            Err(e) => r == Err::<(), Error>(e),
        },
        policy_decides(policy) && fractions_valid(points@) ==> r is Ok,
{
    proof {
        if policy_decides(policy) && fractions_valid(points@) {
            lemma_hull_kept_decided(points@, old(half)@, point as int, policy);
        }
    }
    let mut done = false;
    while !done && half.len() >= 2
        invariant
            point < points@.len(),
            forall|i: int| 0 <= i < half@.len() ==> #[trigger] half@[i] < points@.len(),
            half@.len() <= old(half)@.len(),
            hull_kept(points@, old(half)@, point as int, policy) == hull_kept(points@, half@, point as int, policy),
            done ==> hull_kept(points@, half@, point as int, policy) == Ok::<Seq<usize>, Error>(half@),
        decreases half@.len() + if done { 0int } else { 1int },
    {
        let end = half.len();
        if orient2(points, half[end - 2], half[end - 1], point, policy)? == Sign::Positive {
            done = true;
        } else {
            let ghost before = half@;
            half.pop();
            proof { assert(half@ =~= before.drop_last()); }
        }
    }
    half.push(point);
    Ok(())
}

/// The convex hull of the points visited in `order` (sorted by `x`, then
/// `y`), by the monotone chain: the lower chain then the upper chain, each
/// without its last point.
fn convex_hull_from_order(points: &[Point2], order: &[usize], policy: PredicatePolicy) -> (r: Result<Vec<usize>, Error>)
    requires
        forall|i: int| 0 <= i < order@.len() ==> #[trigger] order@[i] < points@.len(),
        order@.len() <= usize::MAX / 4,
    ensures
        r matches Ok(hull) ==> hull@.len() <= 2 * order@.len()
            && forall|i: int| 0 <= i < hull@.len() ==> #[trigger] hull@[i] < points@.len(),
        policy_decides(policy) && fractions_valid(points@) ==> r is Ok,
{
    let mut lower: Vec<usize> = Vec::new();
    let mut i: usize = 0;
    while i < order.len()
        invariant
            0 <= i <= order@.len(),
            lower@.len() <= i,
            forall|k: int| 0 <= k < order@.len() ==> #[trigger] order@[k] < points@.len(),
            forall|k: int| 0 <= k < lower@.len() ==> #[trigger] lower@[k] < points@.len(),
        decreases order@.len() - i,
    {
        append_hull_point(points, &mut lower, order[i], policy)?;
        i = i + 1;
    }
    let mut upper: Vec<usize> = Vec::new();
    let mut i: usize = order.len();
    while i > 0
        invariant
            0 <= i <= order@.len(),
            upper@.len() <= order@.len() - i,
            forall|k: int| 0 <= k < order@.len() ==> #[trigger] order@[k] < points@.len(),
            forall|k: int| 0 <= k < upper@.len() ==> #[trigger] upper@[k] < points@.len(),
        decreases i,
    {
        append_hull_point(points, &mut upper, order[i - 1], policy)?;
        i = i - 1;
    }
    lower.pop();
    upper.pop();
    let mut k: usize = 0;
    let ghost lower_len = lower@.len();
    while k < upper.len()
        invariant
            0 <= k <= upper@.len(),
            lower@.len() == lower_len + k,
            lower_len <= order@.len(),
            upper@.len() <= order@.len(),
            forall|j: int| 0 <= j < upper@.len() ==> #[trigger] upper@[j] < points@.len(),
            forall|j: int| 0 <= j < lower@.len() ==> #[trigger] lower@[j] < points@.len(),
        decreases upper@.len() - k,
    {
        lower.push(upper[k]);
        k = k + 1;
    }
    Ok(lower)
}

/// Triangulate a point set by orientation only. Up to two points give no
/// triangles; three give their triangle unless collinear. Otherwise an
/// enclosing prefix triangle is used when the first three points provably
/// enclose the rest; else the convex hull is fanned from its first vertex,
/// every other point is inserted, and the result must cover the hull.
#[verifier::loop_isolation(false)]
pub fn triangulate_point_set(points: &[Point2], policy: PredicatePolicy) -> (r: Result<PointTriangulation, Error>)
    requires
        points@.len() <= usize::MAX / 64,
    ensures
        points@.len() <= 2 ==> (r matches Ok(t) && t.triangles@.len() == 0 && t.topology is None),
        points@.len() == 3 ==> match orient2_result(points@, 0, 1, 2, policy) {
            Err(e) => r matches Err(x) && x == e,
            Ok(sign) => if sign == Sign::Zero {
                r matches Err(x) && x == Error::InvalidInput { reason: "point set is collinear" }
            } else {
                r matches Ok(t) && t.triangles@ == seq![swap_if_negative(sign, [0usize, 1, 2])] && t.topology is None
            },
        },
        r matches Ok(t) ==> insertion_state(points@, t.triangles@, t.topology),
        r matches Ok(t) ==> t.triangles@.len() <= 4 * points@.len(),
        points@.len() >= 4 && !prefix_encloses(points@) ==> (r matches Ok(t) ==> hull_result(points@, t.triangles@, policy) == Ok::<bool, Error>(true)),
{
    let n = points.len();
    if n <= 2 {
        return Ok(PointTriangulation::without_topology(Vec::new()));
    }
    if n == 3 {
        return match triangle_if_not_degenerate(points, [0, 1, 2], policy)? {
            Some(triangle) => {
                let mut triangles: Vec<Triangle> = Vec::new();
                triangles.push(triangle);
                proof { assert(triangles@ =~= seq![triangle]); }
                Ok(PointTriangulation::without_topology(triangles))
            },
            None => Err(Error::InvalidInput { reason: "point set is collinear" }),
        };
    }
    match triangulate_from_enclosing_prefix_triangle(points, policy)? {
        Some(triangulation) => return Ok(triangulation),
        None => {},
    }
    let order = lexicographic_point_order(points);
    let hull = convex_hull_from_order(points, order.as_slice(), policy)?;
    if hull.len() < 3 {
        return Err(Error::InvalidInput { reason: "point set is collinear" });
    }
    let mut triangles: Vec<Triangle> = Vec::new();
    let mut index: usize = 1;
    while index < hull.len() - 1
        invariant
            1 <= index <= hull@.len() - 1,
            hull@.len() >= 3,
            hull@.len() <= 2 * n,
            forall|i: int| 0 <= i < hull@.len() ==> #[trigger] hull@[i] < n,
            triangles@.len() == index - 1,
            triangles_in_bounds(triangles@, n as int),
        decreases hull@.len() - 1 - index,
    {
        let triangle = make_oriented(points, [hull[0], hull[index], hull[index + 1]], policy)?;
        triangles.push(triangle);
        index = index + 1;
    }
    let mut on_hull: Vec<bool> = vec![false; n];
    let mut k: usize = 0;
    while k < hull.len()
        invariant
            0 <= k <= hull@.len(),
            on_hull@.len() == n,
            forall|i: int| 0 <= i < hull@.len() ==> #[trigger] hull@[i] < n,
        decreases hull@.len() - k,
    {
        on_hull.set(hull[k], true);
        k = k + 1;
    }
    let mut topology: Option<Box<TriangleTopology>> = None;
    insert_points_from(points, &mut triangles, 0, on_hull.as_slice(), &mut topology, policy)?;
    if !triangulates_convex_hull(points, triangles.as_slice(), policy)? {
        return Err(Error::InvalidInput { reason: "topological point insertion did not cover the convex hull" });
    }
    Ok(PointTriangulation { triangles, topology })
}

} // verus!
