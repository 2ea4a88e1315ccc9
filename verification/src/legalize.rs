//! Empty-circle legalization of the unconstrained edges that constraint
//! recovery leaves, and constraint insertion with Delaunay quality.
use vstd::prelude::*;
use crate::cdt_validate::{edge_illegal_result, triangles_in_bounds};
use crate::constraint_recovery::{
    adjacent_edge_replacement, all_constraints_present, has_edge, constraints_in_bounds, contains_edge, edge_is_flippable, enqueue_triangle_edges, flippable_result,
    lemma_group_owner_triangles, mesh_state, pair_in_bounds, pending_ordered, pop_min_pending, recover_constraints,
    replace_adjacent_edge_in_topology, RecoveredConstraints,
};
use crate::context::PredicatePolicy;
use crate::error::Error;
use crate::point_set::triangle_in_bounds;
use crate::predicates::{incircle2, orient2};
use crate::topology::{
    adjacent_triangles, all_uses, edge_groups, edge_key, has_vertex, nondegenerate, triangle_contains_edge, triangle_edges, tri_edge,
    use_leq, AdjacentTriangle, EdgeKey, TopologyEdges, TriangleTopology,
};
use crate::types::{Constraint, Point2, Sign, Triangle};

verus! {

/// Whether the edge between two triangles with opposite vertices `first`
/// and `second` breaks the empty-circle rule and can flip: the
/// quadrilateral is strictly convex and `second` lies strictly inside the
/// circle through the edge and `first`.
pub open spec fn delaunay_flip_result(points: Seq<Point2>, edge: EdgeKey, first: usize, second: usize, policy: PredicatePolicy) -> Result<bool, Error> {
    match flippable_result(points, edge, first, second, policy) {
        Err(e) => Err(e),
        Ok(flippable) => if !flippable {
            Ok(false)
        } else {
            edge_illegal_result(points, edge, first as int, second as int, policy)
        },
    }
}

/// Decide whether the edge must flip to restore the empty-circle rule.
pub fn edge_is_illegal(points: &[Point2], edge: EdgeKey, first: usize, second: usize, policy: PredicatePolicy) -> (r: Result<bool, Error>)
    requires
        pair_in_bounds(edge.from, edge.to, points@.len() as int),
        pair_in_bounds(first, second, points@.len() as int),
    ensures
        r == delaunay_flip_result(points@, edge, first, second, policy),
{
    if !edge_is_flippable(points, edge, first, second, policy)? {
        return Ok(false);
    }
    let orientation = orient2(points, edge.from, edge.to, first, policy)?;
    if orientation == Sign::Zero {
        return Ok(false);
    }
    let sign = incircle2(points, edge.from, edge.to, first, second, policy)?;
    Ok((orientation == Sign::Positive && sign == Sign::Positive) || (orientation == Sign::Negative && sign == Sign::Negative))
}

/// How many empty-circle flips a mesh on `n` points can need: each flip
/// removes an edge that no later flip restores, so at most one flip per
/// pair of points.
pub open spec fn flip_bound(n: int) -> int {
    n * (n - 1) / 2
}

fn flip_budget(n: usize) -> (r: usize)
    ensures
        flip_bound(n as int) <= usize::MAX ==> r == flip_bound(n as int),
{
    if n == 0 {
        return 0;
    }
    let (a, b) = if n % 2 == 0 { (n / 2, n - 1) } else { (n, (n - 1) / 2) };
    proof {
        let ni = n as int;
        if ni % 2 == 0 {
            assert((ni / 2) * (ni - 1) == ni * (ni - 1) / 2) by (nonlinear_arith) requires ni % 2 == 0, ni > 0;
        } else {
            assert(ni * ((ni - 1) / 2) == ni * (ni - 1) / 2) by (nonlinear_arith) requires ni % 2 == 1, ni > 0;
        }
    }
    match a.checked_mul(b) {
        Some(product) => product,
        None => usize::MAX,
    }
}

/// With retained adjacency: process the least pending unconstrained edge,
/// flip it when it breaks the empty-circle rule, and queue the edges of the
/// two new triangles, until nothing is pending.
#[verifier::loop_isolation(false)]
#[verifier::rlimit(50)]
fn legalize_with_topology(
    points: &[Point2],
    triangles: &mut Vec<Triangle>,
    constrained_edges: &[EdgeKey],
    topology: TriangleTopology,
    policy: PredicatePolicy,
) -> (r: Result<(), Error>)
    requires
        mesh_state(points@.len() as int, old(triangles)@, topology),
    ensures
        triangles_in_bounds(final(triangles)@, points@.len() as int),
        final(triangles)@.len() == old(triangles)@.len(),
{
    let n = points.len();
    let ghost len = triangles@.len();
    let mut topology = topology;
    let mut pending: Vec<(EdgeKey, usize)> = Vec::new();
    let mut triangle: usize = 0;
    while triangle < triangles.len()
        invariant
            mesh_state(n as int, triangles@, topology),
            pending_ordered(pending@),
        decreases triangles@.len() - triangle,
    {
        let edges = triangle_edges(triangles[triangle]);
        let mut slot: usize = 0;
        while slot < 3
            invariant
                0 <= slot <= 3,
                triangle < triangles@.len(),
                mesh_state(n as int, triangles@, topology),
                pending_ordered(pending@),
                forall|k: int| 0 <= k < 3 ==> #[trigger] edges[k] == tri_edge(triangles@[triangle as int], k),
            decreases 3 - slot,
        {
            let edge = edges[slot];
            proof { assert(edge == tri_edge(triangles@[triangle as int], slot as int)); }
            match topology.neighbors[triangle][slot] {
                Some(neighbor) => {
                    if triangle < neighbor && !contains_edge(constrained_edges, edge) {
                        let ghost before = pending@;
                        pending.push((edge, triangle));
                        proof {
                            assert forall|k: int| 0 <= k < pending@.len() implies (#[trigger] pending@[k]).0.from <= pending@[k].0.to by {
                                if k < before.len() { assert(pending@[k] == before[k]); }
                            }
                        }
                    }
                },
                None => {},
            }
            slot = slot + 1;
        }
        triangle = triangle + 1;
    }
    let mut budget = flip_budget(n);
    while pending.len() > 0
        invariant
            mesh_state(n as int, triangles@, topology),
            triangles@.len() == len,
            pending_ordered(pending@),
        decreases budget, pending@.len(),
    {
        let (edge, owner) = pop_min_pending(&mut pending);
        if contains_edge(constrained_edges, edge) {
            continue;
        }
        if owner >= triangles.len() || !triangle_contains_edge(triangles[owner], edge) {
            continue;
        }
        let neighbor = match topology.neighbor_across(triangles.as_slice(), owner, edge)? {
            Some(t) => t,
            None => continue,
        };
        let adjacent = adjacent_triangles(triangles.as_slice(), edge, [owner, neighbor])?;
        let p = adjacent[0].opposite;
        let q = adjacent[1].opposite;
        proof {
            let to = triangles@[owner as int];
            let tn = triangles@[neighbor as int];
            assert(triangle_in_bounds(to, n as int)) by { assert(to[0] < n && to[1] < n && to[2] < n); }
            assert(triangle_in_bounds(tn, n as int)) by { assert(tn[0] < n && tn[1] < n && tn[2] < n); }
            assert(has_vertex(to, p as int));
            assert(has_vertex(tn, q as int));
            assert(has_vertex(tn, edge.from as int) && has_vertex(tn, edge.to as int));
            assert(edge.from < n && edge.to < n);
        }
        if !edge_is_illegal(points, edge, p, q, policy)? {
            continue;
        }
        if budget == 0 {
            return Err(Error::InvalidInput { reason: "edge legalization exceeded its flip bound" });
        }
        budget = budget - 1;
        replace_adjacent_edge_in_topology(points, triangles, &mut topology, edge, adjacent, policy)?;
        enqueue_triangle_edges(triangles, &topology, constrained_edges, adjacent[0].triangle, &mut pending);
        enqueue_triangle_edges(triangles, &topology, constrained_edges, adjacent[1].triangle, &mut pending);
    }
    Ok(())
}

/// The first unconstrained interior edge, in sorted edge order, that breaks
/// the empty-circle rule and can flip, with its two triangles.
#[verifier::loop_isolation(false)]
fn first_illegal_edge(
    points: &[Point2],
    triangles: &Vec<Triangle>,
    groups: &Vec<(EdgeKey, Option<[usize; 2]>)>,
    constrained_edges: &[EdgeKey],
    policy: PredicatePolicy,
) -> (r: Result<Option<(EdgeKey, [AdjacentTriangle; 2])>, Error>)
    requires
        triangles_in_bounds(triangles@, points@.len() as int),
        3 * triangles@.len() <= usize::MAX,
        edge_groups(all_uses(triangles@).sort_by(use_leq()), 0) == Ok::<Seq<(EdgeKey, Option<[usize; 2]>)>, Error>(groups@),
    ensures
        r matches Ok(Some(found)) ==> {
            &&& found.1[0].triangle != found.1[1].triangle
            &&& found.1[0].triangle < triangles@.len() && found.1[1].triangle < triangles@.len()
            &&& pair_in_bounds(found.0.from, found.0.to, points@.len() as int)
            &&& pair_in_bounds(found.1[0].opposite, found.1[1].opposite, points@.len() as int)
        },
{
    let n = points.len();
    let mut k: usize = 0;
    while k < groups.len()
        invariant
            triangles_in_bounds(triangles@, n as int),
            3 * triangles@.len() <= usize::MAX,
            edge_groups(all_uses(triangles@).sort_by(use_leq()), 0) == Ok::<Seq<(EdgeKey, Option<[usize; 2]>)>, Error>(groups@),
        decreases groups@.len() - k,
    {
        let (edge, owners) = groups[k];
        if !contains_edge(constrained_edges, edge) {
            match owners {
                None => {},
                Some(o) => {
                    proof {
                        assert(groups@[k as int] == (edge, owners));
                        lemma_group_owner_triangles(triangles@, groups@, k as int);
                    }
                    let adjacent = adjacent_triangles(triangles.as_slice(), edge, o)?;
                    let p = adjacent[0].opposite;
                    let q = adjacent[1].opposite;
                    proof {
                        let t0 = triangles@[o[0] as int];
                        let t1 = triangles@[o[1] as int];
                        assert(triangle_in_bounds(t0, n as int)) by { assert(t0[0] < n && t0[1] < n && t0[2] < n); }
                        assert(triangle_in_bounds(t1, n as int)) by { assert(t1[0] < n && t1[1] < n && t1[2] < n); }
                        assert(has_vertex(t0, p as int));
                        assert(has_vertex(t1, q as int));
                        assert(has_vertex(t0, edge.from as int) && has_vertex(t0, edge.to as int));
                    }
                    if edge_is_illegal(points, edge, p, q, policy)? {
                        return Ok(Some((edge, adjacent)));
                    }
                },
            }
        }
        k = k + 1;
    }
    Ok(None)
}

/// Without retained adjacency: repeatedly rebuild the sorted edge uses and
/// flip the first unconstrained edge that breaks the empty-circle rule,
/// until none does.
#[verifier::loop_isolation(false)]
fn legalize_by_scan(
    points: &[Point2],
    triangles: &mut Vec<Triangle>,
    constrained_edges: &[EdgeKey],
    policy: PredicatePolicy,
) -> (r: Result<(), Error>)
    requires
        triangles_in_bounds(old(triangles)@, points@.len() as int),
    ensures
        triangles_in_bounds(final(triangles)@, points@.len() as int),
        final(triangles)@.len() == old(triangles)@.len(),
{
    let n = points.len();
    let ghost len = triangles@.len();
    let mut budget = flip_budget(n);
    loop
        invariant
            triangles_in_bounds(triangles@, n as int),
            triangles@.len() == len,
        decreases budget,
    {
        let edges = TopologyEdges::new(triangles.as_slice())?;
        let groups = edges.collect_edges()?;
        proof {
            assert(forall|t: int| 0 <= t < triangles@.len() ==> nondegenerate(#[trigger] triangles@[t]));
        }
        match first_illegal_edge(points, triangles, &groups, constrained_edges, policy)? {
            None => {
                return Ok(());
            },
            Some((edge, adjacent)) => {
                if budget == 0 {
                    return Err(Error::InvalidInput { reason: "edge legalization exceeded its flip bound" });
                }
                budget = budget - 1;
                let replacement = adjacent_edge_replacement(points, edge, adjacent, policy)?;
                let ghost before = triangles@;
                triangles.set(adjacent[0].triangle, replacement[0]);
                triangles.set(adjacent[1].triangle, replacement[1]);
                proof {
                    assert forall|t: int, i: int| 0 <= t < triangles@.len() && 0 <= i < 3 implies #[trigger] triangles@[t][i] < n by {
                        if t == adjacent[1].triangle {
                            assert(triangle_in_bounds(replacement[1], n as int));
                        } else if t == adjacent[0].triangle {
                            assert(triangle_in_bounds(replacement[0], n as int));
                        } else {
                            assert(triangles@[t] == before[t]);
                        }
                    }
                }
            },
        }
    }
}

/// Restore the empty-circle rule on every unconstrained edge, using the
/// retained adjacency when there is one.
fn legalize_unconstrained_edges(
    points: &[Point2],
    triangles: &mut Vec<Triangle>,
    constrained_edges: &[EdgeKey],
    topology: Option<TriangleTopology>,
    policy: PredicatePolicy,
) -> (r: Result<(), Error>)
    requires
        triangles_in_bounds(old(triangles)@, points@.len() as int),
        topology matches Some(t) ==> t.neighbors@.len() == old(triangles)@.len(),
    ensures
        triangles_in_bounds(final(triangles)@, points@.len() as int),
        final(triangles)@.len() == old(triangles)@.len(),
{
    match topology {
        Some(retained) => legalize_with_topology(points, triangles, constrained_edges, retained, policy),
        None => legalize_by_scan(points, triangles, constrained_edges, policy),
    }
}

/// Insert every constraint as an edge of a triangulation of the points'
/// convex hull, then restore the empty-circle rule on the unconstrained
/// edges by flips.
pub fn insert_constraints(
    points: &[Point2],
    triangles: Vec<Triangle>,
    constraints: &[Constraint],
    policy: PredicatePolicy,
) -> (r: Result<Vec<Triangle>, Error>)
    requires
        triangles_in_bounds(triangles@, points@.len() as int),
        triangles@.len() <= usize::MAX / 64,
        constraints_in_bounds(constraints@, points@.len() as int),
    ensures
        r matches Ok(t) ==> triangles_in_bounds(t@, points@.len() as int) && t@.len() == triangles@.len(),
        r matches Ok(t) ==> forall|k: int| 0 <= k < constraints@.len() ==>
            has_edge(t@, #[trigger] edge_key(constraints@[k].from, constraints@[k].to)),
{
    let recovered = recover_constraints(points, triangles, constraints, None, policy)?;
    let RecoveredConstraints { triangles: mut triangles, constrained_edges, topology } = recovered;
    legalize_unconstrained_edges(points, &mut triangles, constrained_edges.as_slice(), topology, policy)?;
    if !all_constraints_present(triangles.as_slice(), constraints) {
        return Err(Error::InvalidInput { reason: "constraint edge missing from triangulation" });
    }
    Ok(triangles)
}

} // verus!
