//! Exact recovery of constraint segments as triangulation edges: each
//! segment is recovered by one edge flip or by retriangulating the exact
//! corridor of triangles it crosses, and unconstrained diagonals are then
//! driven to a canonical lexicographic choice by flips.
use vstd::prelude::*;
use crate::cdt_validate::triangles_in_bounds;
use crate::context::PredicatePolicy;
use crate::error::Error;
use crate::point_set::{lemma_replaced_in_bounds, lemma_unvisited_bounds, lemma_unvisited_count, unvisited_count, insert_point, insertion_state, make_oriented, make_oriented_result, triangle_in_bounds};
use crate::predicates::{orient2, orient2_result, fractions_valid, policy_decides};
use crate::topology::{neighbor_across_result, adjacent_of, edges_sorted, push_unique_edge, all_uses, edge_groups, lemma_run_end_bounds, lemma_use_leq_total, nondegenerate, run_end, use_leq, EdgeUse, TopologyEdges, edge_less, edge_lt, triangle_contains_edge, replaced_triangles, strictly_increasing, edge_key, adjacent_triangles, has_vertex, triangle_edges, triangulation_has_edge, triangle_has_edge, oriented_triangle, TriangleTopology, signs_strictly_differ, tri_edge, AdjacentTriangle, EdgeKey};
use crate::types::{reversed_sign, Constraint, Point2, Sign, Triangle};

verus! {

/// Whether two signs are strictly opposite.
pub open spec fn opposite_signs(first: Sign, second: Sign) -> bool {
    (first == Sign::Negative && second == Sign::Positive) || (first == Sign::Positive && second == Sign::Negative)
}

/// Whether `edge` is one of `edges`.
pub fn contains_edge(edges: &[EdgeKey], edge: EdgeKey) -> (r: bool)
    ensures
        r == edges@.contains(edge),
{
    let mut i: usize = 0;
    while i < edges.len()
        invariant
            0 <= i <= edges@.len(),
            forall|j: int| 0 <= j < i ==> edges@[j] != edge,
        decreases edges.len() - i,
    {
        if edges[i] == edge {
            proof { assert(edges@[i as int] == edge); }
            return true;
        }
        i = i + 1;
    }
    false
}

/// The sides of the edge's endpoints relative to the constraint's line when
/// the edge and the constraint cross at one point interior to both: `None`
/// when they share an endpoint or do not properly cross.
pub open spec fn crossing_sides_result(points: Seq<Point2>, edge: EdgeKey, constraint: Constraint, policy: PredicatePolicy) -> Result<Option<[Sign; 2]>, Error> {
    if edge.from == constraint.from || edge.to == constraint.from || edge.from == constraint.to || edge.to == constraint.to {
        Ok(None)
    } else {
        match orient2_result(points, constraint.from as int, constraint.to as int, edge.from as int, policy) {
            Err(e) => Err(e),
            Ok(s0) => match orient2_result(points, constraint.from as int, constraint.to as int, edge.to as int, policy) {
                Err(e) => Err(e),
                Ok(s1) => if !opposite_signs(s0, s1) {
                    Ok(None)
                } else {
                    match orient2_result(points, edge.from as int, edge.to as int, constraint.from as int, policy) {
                        Err(e) => Err(e),
                        Ok(c0) => match orient2_result(points, edge.from as int, edge.to as int, constraint.to as int, policy) {
                            Err(e) => Err(e),
                            Ok(c1) => Ok(if opposite_signs(c0, c1) { Some([s0, s1]) } else { None }),
                        },
                    }
                },
            },
        }
    }
}

/// Whether two indices name points of the list.
pub open spec fn pair_in_bounds(a: usize, b: usize, point_count: int) -> bool {
    a < point_count && b < point_count
}

/// The sides of `edge`'s endpoints relative to the constraint's line when
/// the two segments properly cross.
pub fn edge_proper_crossing_sides(points: &[Point2], edge: EdgeKey, constraint: Constraint, policy: PredicatePolicy) -> (r: Result<Option<[Sign; 2]>, Error>)
    requires
        pair_in_bounds(edge.from, edge.to, points@.len() as int),
        pair_in_bounds(constraint.from, constraint.to, points@.len() as int),
    ensures
        r == crossing_sides_result(points@, edge, constraint, policy),
        r matches Ok(Some(sides)) ==> opposite_signs(sides[0], sides[1]),
{
    if edge.contains(constraint.from) || edge.contains(constraint.to) {
        return Ok(None);
    }
    let s0 = orient2(points, constraint.from, constraint.to, edge.from, policy)?;
    let s1 = orient2(points, constraint.from, constraint.to, edge.to, policy)?;
    if !signs_strictly_differ(s0, s1) {
        return Ok(None);
    }
    let c0 = orient2(points, edge.from, edge.to, constraint.from, policy)?;
    let c1 = orient2(points, edge.from, edge.to, constraint.to, policy)?;
    if signs_strictly_differ(c0, c1) {
        Ok(Some([s0, s1]))
    } else {
        Ok(None)
    }
}

/// Whether the two triangles on `edge`, with opposite vertices `first` and
/// `second`, form a strictly convex quadrilateral whose other diagonal can
/// replace the edge. A collapsed edge or a shared or repeated opposite
/// vertex never can.
pub open spec fn flippable_result(points: Seq<Point2>, edge: EdgeKey, first: usize, second: usize, policy: PredicatePolicy) -> Result<bool, Error> {
    if edge.from == edge.to || first == second || first == edge.from || first == edge.to || second == edge.from || second == edge.to {
        Ok(false)
    } else {
        match orient2_result(points, edge.from as int, edge.to as int, first as int, policy) {
            Err(e) => Err(e),
            Ok(a) => match orient2_result(points, edge.from as int, edge.to as int, second as int, policy) {
                Err(e) => Err(e),
                Ok(b) => match orient2_result(points, first as int, second as int, edge.from as int, policy) {
                    Err(e) => Err(e),
                    Ok(c) => match orient2_result(points, first as int, second as int, edge.to as int, policy) {
                        Err(e) => Err(e),
                        Ok(d) => Ok(opposite_signs(a, b) && opposite_signs(c, d)),
                    },
                },
            },
        }
    }
}

/// Decide whether `edge` can be flipped to the diagonal between the two
/// opposite vertices.
pub fn edge_is_flippable(points: &[Point2], edge: EdgeKey, first: usize, second: usize, policy: PredicatePolicy) -> (r: Result<bool, Error>)
    requires
        pair_in_bounds(edge.from, edge.to, points@.len() as int),
        pair_in_bounds(first, second, points@.len() as int),
    ensures
        r == flippable_result(points@, edge, first, second, policy),
{
    if edge.from == edge.to || first == second || edge.contains(first) || edge.contains(second) {
        return Ok(false);
    }
    let a = orient2(points, edge.from, edge.to, first, policy)?;
    let b = orient2(points, edge.from, edge.to, second, policy)?;
    let c = orient2(points, first, second, edge.from, policy)?;
    let d = orient2(points, first, second, edge.to, policy)?;
    Ok(signs_strictly_differ(a, b) && signs_strictly_differ(c, d))
}

/// The two triangles that replace `edge` by the diagonal between the
/// opposite vertices: one on each endpoint of the old edge, both positively
/// oriented.
pub open spec fn flip_replacement_result(points: Seq<Point2>, edge: EdgeKey, first: usize, second: usize, policy: PredicatePolicy) -> Result<[Triangle; 2], Error> {
    match make_oriented_result(points, [first, second, edge.from], policy) {
        Err(e) => Err(e),
        Ok(a) => match make_oriented_result(points, [second, first, edge.to], policy) {
            Err(e) => Err(e),
            Ok(b) => Ok([a, b]),
        },
    }
}

/// The two triangles that replace `edge` after a flip.
pub fn adjacent_edge_replacement(points: &[Point2], edge: EdgeKey, adjacent: [AdjacentTriangle; 2], policy: PredicatePolicy) -> (r: Result<[Triangle; 2], Error>)
    requires
        pair_in_bounds(edge.from, edge.to, points@.len() as int),
        pair_in_bounds(adjacent[0].opposite, adjacent[1].opposite, points@.len() as int),
    ensures
        r == flip_replacement_result(points@, edge, adjacent[0].opposite, adjacent[1].opposite, policy),
        r matches Ok(t) ==> triangle_in_bounds(t[0], points@.len() as int) && triangle_in_bounds(t[1], points@.len() as int),
{
    let first = adjacent[0].opposite;
    let second = adjacent[1].opposite;
    let a = make_oriented(points, [first, second, edge.from], policy)?;
    let b = make_oriented(points, [second, first, edge.to], policy)?;
    Ok([a, b])
}

/// Whether the point at `p` is inside or on the triangle `a`, `b`, `c`
/// whose orientation is the nonzero `turn`: no edge orientation of the point
/// is the reverse of the turn.
pub open spec fn in_or_on_result(points: Seq<Point2>, a: int, b: int, c: int, p: int, turn: Sign, policy: PredicatePolicy) -> Result<bool, Error> {
    match orient2_result(points, a, b, p, policy) {
        Err(e) => Err(e),
        Ok(ab) => match orient2_result(points, b, c, p, policy) {
            Err(e) => Err(e),
            Ok(bc) => match orient2_result(points, c, a, p, policy) {
                Err(e) => Err(e),
                Ok(ca) => {
                    let outside = reversed_sign(turn);
                    Ok(ab != outside && bc != outside && ca != outside)
                },
            },
        },
    }
}

/// Decide whether the point at `p` is inside or on the triangle `a`, `b`,
/// `c` of known nonzero orientation `turn`.
pub fn point_in_or_on_oriented_triangle(points: &[Point2], a: usize, b: usize, c: usize, p: usize, turn: Sign, policy: PredicatePolicy) -> (r: Result<bool, Error>)
    requires
        a < points@.len(),
        b < points@.len(),
        c < points@.len(),
        p < points@.len(),
    ensures
        r == in_or_on_result(points@, a as int, b as int, c as int, p as int, turn, policy),
{
    let ab = orient2(points, a, b, p, policy)?;
    let bc = orient2(points, b, c, p, policy)?;
    let ca = orient2(points, c, a, p, policy)?;
    let outside = turn.reversed();
    Ok(ab != outside && bc != outside && ca != outside)
}

/// Every index of the list names a point.
pub open spec fn indices_in_bounds(indices: Seq<usize>, point_count: int) -> bool {
    forall|i: int| 0 <= i < indices.len() ==> #[trigger] indices[i] < point_count
}

/// The first position from `p` on, strictly inside the chain, whose turn
/// with its two chain neighbours is zero; the first error otherwise.
pub open spec fn straight_from(points: Seq<Point2>, ring: Seq<usize>, p: int, policy: PredicatePolicy) -> Result<Option<usize>, Error>
    decreases ring.len() - p,
{
    if p < 1 || p + 1 >= ring.len() {
        Ok(None)
    } else {
        match orient2_result(points, ring[p - 1] as int, ring[p] as int, ring[p + 1] as int, policy) {
            Err(e) => Err(e),
            Ok(s) => if s == Sign::Zero { Ok(Some(p as usize)) } else { straight_from(points, ring, p + 1, policy) },
        }
    }
}

proof fn lemma_straight_decided(points: Seq<Point2>, ring: Seq<usize>, p: int, policy: PredicatePolicy)
    requires
        indices_in_bounds(ring, points.len() as int),
        policy_decides(policy) && fractions_valid(points),
    ensures
        straight_from(points, ring, p, policy) is Ok,
    decreases ring.len() - p,
{
    if 1 <= p && p + 1 < ring.len() {
        lemma_straight_decided(points, ring, p + 1, policy);
    }
}

/// Position of the first vertex strictly inside the chain whose turn with
/// its two chain neighbours is zero, if any.
fn first_straight_vertex(points: &[Point2], ring: &Vec<usize>, policy: PredicatePolicy) -> (r: Result<Option<usize>, Error>)
    requires
        indices_in_bounds(ring@, points@.len() as int),
    ensures
        r matches Ok(Some(position)) ==> 0 < position && position + 1 < ring@.len(),
        r == straight_from(points@, ring@, 1, policy),
        policy_decides(policy) && fractions_valid(points@) ==> r is Ok,
{
    proof {
        if policy_decides(policy) && fractions_valid(points@) {
            lemma_straight_decided(points@, ring@, 1, policy);
        }
    }
    let end = ring.len().saturating_sub(1);
    let mut position: usize = 1;
    while position < end
        invariant
            1 <= position,
            end == (if ring@.len() > 0 { ring@.len() - 1 } else { 0 }),
            indices_in_bounds(ring@, points@.len() as int),
            position <= end || ring@.len() < 3,
            straight_from(points@, ring@, 1, policy) == straight_from(points@, ring@, position as int, policy),
        decreases end - position,
    {
        if orient2(points, ring[position - 1], ring[position], ring[position + 1], policy)? == Sign::Zero {
            return Ok(Some(position));
        }
        position = position + 1;
    }
    Ok(None)
}

/// Whether some ring vertex from position `k` on, other than the ear's own,
/// is inside or on the ear; the first error otherwise.
pub open spec fn ear_holds_vertex_from(points: Seq<Point2>, ring: Seq<usize>, previous: usize, current: usize, next: usize, turn: Sign, k: int, policy: PredicatePolicy) -> Result<bool, Error>
    decreases ring.len() - k,
{
    if k < 0 || k >= ring.len() {
        Ok(false)
    } else {
        let c = ring[k];
        if c == previous || c == current || c == next {
            ear_holds_vertex_from(points, ring, previous, current, next, turn, k + 1, policy)
        } else {
            match in_or_on_result(points, previous as int, current as int, next as int, c as int, turn, policy) {
                Err(e) => Err(e),
                Ok(inside) => if inside { Ok(true) } else { ear_holds_vertex_from(points, ring, previous, current, next, turn, k + 1, policy) },
            }
        }
    }
}

/// The first ear of the ring from position `position` on that turns with
/// `winding`, or the first error.
pub open spec fn ear_from(points: Seq<Point2>, ring: Seq<usize>, winding: Sign, position: int, policy: PredicatePolicy) -> Result<Option<(usize, Triangle, Sign)>, Error>
    decreases ring.len() - position,
{
    if position < 0 || position >= ring.len() {
        Ok(None)
    } else {
        let len = ring.len() as int;
        let previous = ring[if position == 0 { len - 1 } else { position - 1 }];
        let current = ring[position];
        let next = ring[if position + 1 == len { 0 } else { position + 1 }];
        match orient2_result(points, previous as int, current as int, next as int, policy) {
            Err(e) => Err(e),
            Ok(turn) => if turn != Sign::Zero && turn == winding {
                match ear_holds_vertex_from(points, ring, previous, current, next, turn, 0, policy) {
                    Err(e) => Err(e),
                    Ok(held) => if held { ear_from(points, ring, winding, position + 1, policy) } else { Ok(Some((position as usize, [previous, current, next], turn))) },
                }
            } else {
                ear_from(points, ring, winding, position + 1, policy)
            },
        }
    }
}

proof fn lemma_ear_decided(points: Seq<Point2>, ring: Seq<usize>, winding: Sign, position: int, policy: PredicatePolicy)
    requires
        indices_in_bounds(ring, points.len() as int),
        policy_decides(policy) && fractions_valid(points),
    ensures
        ear_from(points, ring, winding, position, policy) is Ok,
    decreases ring.len() - position,
{
    if 0 <= position < ring.len() {
        let len = ring.len() as int;
        let previous = ring[if position == 0 { len - 1 } else { position - 1 }];
        let current = ring[position];
        let next = ring[if position + 1 == len { 0 } else { position + 1 }];
        lemma_ear_holds_decided(points, ring, previous, current, next, reversed_sign(reversed_sign(winding)), 0, policy);
        lemma_ear_holds_decided(points, ring, previous, current, next, winding, 0, policy);
        lemma_ear_decided(points, ring, winding, position + 1, policy);
    }
}

/// An ear found from `position` on is made of three ring vertices.
proof fn lemma_ear_from_in_ring(points: Seq<Point2>, ring: Seq<usize>, winding: Sign, position: int, policy: PredicatePolicy)
    ensures
        ear_from(points, ring, winding, position, policy) matches Ok(Some(ear)) ==>
            ring.contains(ear.1[0]) && ring.contains(ear.1[1]) && ring.contains(ear.1[2]),
    decreases ring.len() - position,
{
    if 0 <= position < ring.len() {
        let len = ring.len() as int;
        let p = if position == 0 { len - 1 } else { position - 1 };
        let q = if position + 1 == len { 0 } else { position + 1 };
        assert(ring.contains(ring[p]) && ring.contains(ring[position]) && ring.contains(ring[q]));
        lemma_ear_from_in_ring(points, ring, winding, position + 1, policy);
    }
}

proof fn lemma_ear_holds_decided(points: Seq<Point2>, ring: Seq<usize>, previous: usize, current: usize, next: usize, turn: Sign, k: int, policy: PredicatePolicy)
    requires
        indices_in_bounds(ring, points.len() as int),
        previous < points.len(),
        current < points.len(),
        next < points.len(),
        policy_decides(policy) && fractions_valid(points),
    ensures
        ear_holds_vertex_from(points, ring, previous, current, next, turn, k, policy) is Ok,
    decreases ring.len() - k,
{
    if 0 <= k < ring.len() {
        lemma_ear_holds_decided(points, ring, previous, current, next, turn, k + 1, policy);
    }
}

/// An ear of the ring turning with `winding`: its position and triangle
/// with the turn, the first whose triangle holds no other ring vertex.
fn find_ear(points: &[Point2], ring: &Vec<usize>, winding: Sign, policy: PredicatePolicy) -> (r: Result<Option<(usize, Triangle, Sign)>, Error>)
    requires
        indices_in_bounds(ring@, points@.len() as int),
        ring@.len() > 3,
    ensures
        r matches Ok(Some(ear)) ==> ear.0 < ring@.len() && triangle_in_bounds(ear.1, points@.len() as int) && ear.2 != Sign::Zero,
        r == ear_from(points@, ring@, winding, 0, policy),
        policy_decides(policy) && fractions_valid(points@) ==> r is Ok,
{
    proof {
        if policy_decides(policy) && fractions_valid(points@) {
            lemma_ear_decided(points@, ring@, winding, 0, policy);
        }
    }
    let len = ring.len();
    let mut position: usize = 0;
    while position < len
        invariant
            len == ring@.len(),
            len > 3,
            0 <= position <= len,
            indices_in_bounds(ring@, points@.len() as int),
            ear_from(points@, ring@, winding, 0, policy) == ear_from(points@, ring@, winding, position as int, policy),
        decreases len - position,
    {
        let previous = ring[if position == 0 { len - 1 } else { position - 1 }];
        let current = ring[position];
        let next = ring[if position + 1 == len { 0 } else { position + 1 }];
        let turn = orient2(points, previous, current, next, policy)?;
        if turn != Sign::Zero && turn == winding {
            let mut contains_vertex = false;
            let mut k: usize = 0;
            while k < len && !contains_vertex
                invariant
                    len == ring@.len(),
                    indices_in_bounds(ring@, points@.len() as int),
                    previous < points@.len(),
                    current < points@.len(),
                    next < points@.len(),
                    0 <= k <= len,
                    position < len,
                    turn != Sign::Zero && turn == winding,
                    previous == ring@[if position == 0 { len - 1 } else { position - 1 }],
                    current == ring@[position as int],
                    next == ring@[if position + 1 == len { 0 } else { position + 1 }],
                    orient2_result(points@, previous as int, current as int, next as int, policy) == Ok::<Sign, Error>(turn),
                    ear_from(points@, ring@, winding, 0, policy) == ear_from(points@, ring@, winding, position as int, policy),
                    contains_vertex ==> ear_holds_vertex_from(points@, ring@, previous, current, next, turn, 0, policy) == Ok::<bool, Error>(true),
                    !contains_vertex ==> ear_holds_vertex_from(points@, ring@, previous, current, next, turn, 0, policy)
                        == ear_holds_vertex_from(points@, ring@, previous, current, next, turn, k as int, policy),
                decreases len - k,
            {
                let candidate = ring[k];
                if candidate != previous && candidate != current && candidate != next {
                    if point_in_or_on_oriented_triangle(points, previous, current, next, candidate, turn, policy)? {
                        contains_vertex = true;
                    }
                }
                k = k + 1;
            }
            if !contains_vertex {
                return Ok(Some((position, [previous, current, next], turn)));
            }
        }
        position = position + 1;
    }
    Ok(None)
}

/// The chain after removing, one at a time, the first vertex strictly
/// inside it whose turn with its two chain neighbours is zero, until none
/// is left; the first error otherwise.
pub open spec fn straight_pruned(points: Seq<Point2>, ring: Seq<usize>, policy: PredicatePolicy) -> Result<Seq<usize>, Error>
    decreases ring.len(),
{
    match straight_from(points, ring, 1, policy) {
        Err(e) => Err(e),
        Ok(None) => Ok(ring),
        Ok(Some(p)) => if p < ring.len() { straight_pruned(points, ring.remove(p as int), policy) } else { Ok(ring) },
    }
}

/// The cavity side's ring when straight vertices pruned from it leave a
/// lone triangle.
pub open spec fn lone_cavity_triangle(points: Seq<Point2>, ring: Seq<usize>, policy: PredicatePolicy) -> Option<Triangle> {
    match straight_pruned(points, ring, policy) {
        Ok(pruned) => if pruned.len() == 3 { Some([pruned[0], pruned[1], pruned[2]]) } else { None },
        Err(_) => None,
    }
}

/// Triangulate one half of a constraint cavity, a chain closed along the
/// constraint, by clipping ears that turn with `winding`. Straight chain
/// vertices are pruned first; the caller reinserts every cavity vertex the
/// triangles miss.
#[verifier::loop_isolation(false)]
pub fn triangulate_cavity_side(points: &[Point2], ring: Vec<usize>, winding: Sign, policy: PredicatePolicy) -> (r: Result<Vec<Triangle>, Error>)
    requires
        indices_in_bounds(ring@, points@.len() as int),
    ensures
        r matches Ok(t) ==> triangles_in_bounds(t@, points@.len() as int) && t@.len() <= ring@.len(),
        r matches Ok(t) ==> straight_pruned(points@, ring@, policy) matches Ok(pruned) && pruned.len() >= 3 && t@.len() == pruned.len() - 2,
        r matches Ok(t) ==> forall|j: int, i: int| 0 <= j < t@.len() && 0 <= i < 3 ==> ring@.contains(#[trigger] t@[j][i]),
        r is Err && policy_decides(policy) && fractions_valid(points@) ==> r == Err::<Vec<Triangle>, Error>(Error::NoEarFound)
            || r == Err::<Vec<Triangle>, Error>(Error::InvalidInput { reason: "degenerate triangle" }),
        policy_decides(policy) && fractions_valid(points@) && winding == Sign::Zero ==> r == Err::<Vec<Triangle>, Error>(Error::NoEarFound),
        policy_decides(policy) && fractions_valid(points@) && winding != Sign::Zero && lone_cavity_triangle(points@, ring@, policy) is Some
            ==> match make_oriented_result(points@, lone_cavity_triangle(points@, ring@, policy)->0, policy) {
                Ok(t) => r matches Ok(v) && v@ == seq![t],
                Err(e) => r == Err::<Vec<Triangle>, Error>(e),
            },
{
    let ghost original = ring@.len();
    let ghost input = ring@;
    let mut ring = ring;
    let mut pruning = true;
    while pruning
        invariant
            indices_in_bounds(ring@, points@.len() as int),
            forall|i: int| 0 <= i < ring@.len() ==> input.contains(#[trigger] ring@[i]),
            ring@.len() <= original,
            pruning ==> straight_pruned(points@, input, policy) == straight_pruned(points@, ring@, policy),
            !pruning ==> straight_pruned(points@, input, policy) == Ok::<Seq<usize>, Error>(ring@),
        decreases ring@.len() + if pruning { 1int } else { 0int },
    {
        match first_straight_vertex(points, &ring, policy)? {
            None => {
                pruning = false;
            },
            Some(position) => {
                let ghost before = ring@;
                ring.remove(position);
                proof {
                    assert forall|i: int| 0 <= i < ring@.len() implies #[trigger] ring@[i] < points@.len() && input.contains(ring@[i]) by {
                        if i < position { assert(ring@[i] == before[i]); } else { assert(ring@[i] == before[i + 1]); }
                    }
                }
            },
        }
    }
    if ring.len() < 3 || winding == Sign::Zero {
        return Err(Error::NoEarFound);
    }
    let mut triangles: Vec<Triangle> = Vec::new();
    let ghost pruned_len = ring@.len();
    while ring.len() > 3
        invariant
            indices_in_bounds(ring@, points@.len() as int),
            ring@.len() >= 3,
            triangles@.len() + ring@.len() <= original,
            triangles@.len() + ring@.len() == pruned_len,
            straight_pruned(points@, input, policy) matches Ok(pr) && pr.len() == pruned_len,
            triangles@.len() == 0 ==> straight_pruned(points@, input, policy) == Ok::<Seq<usize>, Error>(ring@),
            triangles_in_bounds(triangles@, points@.len() as int),
            forall|i: int| 0 <= i < ring@.len() ==> input.contains(#[trigger] ring@[i]),
            forall|j: int, i: int| 0 <= j < triangles@.len() && 0 <= i < 3 ==> input.contains(#[trigger] triangles@[j][i]),
        decreases ring@.len(),
    {
        let (position, triangle, turn) = match find_ear(points, &ring, winding, policy)? {
            Some(ear) => ear,
            None => {
                assert(lone_cavity_triangle(points@, input, policy) is None);
                return Err(Error::NoEarFound);
            },
        };
        proof {
            lemma_ear_from_in_ring(points@, ring@, winding, 0, policy);
            let r0 = choose|i: int| 0 <= i < ring@.len() && ring@[i] == triangle[0];
            let r1 = choose|i: int| 0 <= i < ring@.len() && ring@[i] == triangle[1];
            let r2 = choose|i: int| 0 <= i < ring@.len() && ring@[i] == triangle[2];
            assert(input.contains(ring@[r0]) && input.contains(ring@[r1]) && input.contains(ring@[r2]));
        }
        let oriented = oriented_triangle(turn, triangle)?;
        let ghost tris_before = triangles@;
        triangles.push(oriented);
        proof {
            assert forall|j: int, i: int| 0 <= j < triangles@.len() && 0 <= i < 3 implies input.contains(#[trigger] triangles@[j][i]) by {
                if j < tris_before.len() { assert(triangles@[j] == tris_before[j]); }
            }
        }
        let ghost before = ring@;
        ring.remove(position);
        proof {
            assert forall|i: int| 0 <= i < ring@.len() implies #[trigger] ring@[i] < points@.len() && input.contains(ring@[i]) by {
                if i < position { assert(ring@[i] == before[i]); } else { assert(ring@[i] == before[i + 1]); }
            }
        }
    }
    if ring.len() == 3 {
        let last = make_oriented(points, [ring[0], ring[1], ring[2]], policy)?;
        assert(triangles@.len() == 0 ==> lone_cavity_triangle(points@, input, policy) == Some([ring@[0], ring@[1], ring@[2]]));
        let ghost tris_before = triangles@;
        proof {
            assert(input.contains(ring@[0]) && input.contains(ring@[1]) && input.contains(ring@[2]));
        }
        triangles.push(last);
        proof {
            assert forall|j: int, i: int| 0 <= j < triangles@.len() && 0 <= i < 3 implies input.contains(#[trigger] triangles@[j][i]) by {
                if j < tris_before.len() { assert(triangles@[j] == tris_before[j]); }
            }
        }
    }
    Ok(triangles)
}

/// Insert `value` into a strictly increasing list unless it is present.
fn insert_sorted_unique(values: &mut Vec<usize>, value: usize)
    requires
        strictly_increasing(old(values)@),
    ensures
        strictly_increasing(final(values)@),
        final(values)@.to_set() == old(values)@.to_set().insert(value),
        final(values)@.len() <= old(values)@.len() + 1,
{
    let mut position: usize = 0;
    while position < values.len() && values[position] < value
        invariant
            0 <= position <= values@.len(),
            forall|j: int| 0 <= j < position ==> #[trigger] values@[j] < value,
        decreases values@.len() - position,
    {
        position = position + 1;
    }
    if position < values.len() && values[position] == value {
        proof {
            assert(values@.contains(value));
            assert(values@.to_set().insert(value) =~= values@.to_set());
        }
        return;
    }
    let ghost before = values@;
    values.insert(position, value);
    proof {
        assert(values@ =~= before.insert(position as int, value));
        assert forall|i: int, j: int| 0 <= i < j < values@.len() implies #[trigger] values@[i] < #[trigger] values@[j] by {
            if j < position {
            } else if j == position {
                assert(before[i] < value);
            } else if i == position {
                assert(before[position as int] >= value);
                if j > position + 1 {
                    assert(before[position as int] < before[j - 1]);
                }
            } else if i < position {
                assert(before[i] < value);
                assert(before[position as int] >= value);
                if j > position + 1 {
                    assert(before[position as int] < before[j - 1]);
                }
            }
        }
        broadcast use vstd::seq_lib::group_seq_properties;
        assert forall|x: usize| values@.to_set().contains(x) <==> before.to_set().insert(value).contains(x) by {
            if values@.contains(x) {
                let k = choose|k: int| 0 <= k < values@.len() && values@[k] == x;
                if k < position {
                    assert(before[k] == x);
                } else if k > position {
                    assert(before[k - 1] == x);
                }
            }
            if before.contains(x) {
                let k = choose|k: int| 0 <= k < before.len() && before[k] == x;
                if k < position {
                    assert(values@[k] == x);
                } else {
                    assert(values@[k + 1] == x);
                }
            }
        }
        assert(values@.to_set() =~= before.to_set().insert(value));
    }
}

/// Whether some triangle of the list has `vertex`.
fn triangles_have_vertex(triangles: &Vec<Triangle>, vertex: usize) -> (r: bool)
    ensures
        r == exists|t: int| 0 <= t < triangles@.len() && has_vertex(#[trigger] triangles@[t], vertex as int),
{
    let mut t: usize = 0;
    while t < triangles.len()
        invariant
            0 <= t <= triangles@.len(),
            forall|u: int| 0 <= u < t ==> !has_vertex(#[trigger] triangles@[u], vertex as int),
        decreases triangles@.len() - t,
    {
        let triangle = triangles[t];
        if triangle[0] == vertex || triangle[1] == vertex || triangle[2] == vertex {
            proof { assert(has_vertex(triangles@[t as int], vertex as int)); }
            return true;
        }
        t = t + 1;
    }
    false
}

/// Append a list of triangles.
fn append_triangles(out: &mut Vec<Triangle>, more: Vec<Triangle>)
    ensures
        final(out)@ == old(out)@ + more@,
{
    let mut k: usize = 0;
    let ghost start = out@;
    while k < more.len()
        invariant
            0 <= k <= more@.len(),
            out@ == start + more@.subrange(0, k as int),
        decreases more@.len() - k,
    {
        out.push(more[k]);
        proof { assert(out@ =~= start + more@.subrange(0, k + 1)); }
        k = k + 1;
    }
    proof { assert(more@.subrange(0, more@.len() as int) =~= more@); }
}

/// The distinct vertices of the listed triangles, in increasing order.
fn cavity_vertices(triangles: &[Triangle], cavity_indices: &[usize]) -> (r: Vec<usize>)
    requires
        forall|k: int| 0 <= k < cavity_indices@.len() ==> #[trigger] cavity_indices@[k] < triangles@.len(),
    ensures
        strictly_increasing(r@),
        r@.len() <= 3 * cavity_indices@.len(),
        forall|v: usize| r@.contains(v) <==> exists|k: int| 0 <= k < cavity_indices@.len() && has_vertex(#[trigger] triangles@[cavity_indices@[k] as int], v as int),
{
    let mut vertices: Vec<usize> = Vec::new();
    let mut k: usize = 0;
    while k < cavity_indices.len()
        invariant
            0 <= k <= cavity_indices@.len(),
            forall|j: int| 0 <= j < cavity_indices@.len() ==> #[trigger] cavity_indices@[j] < triangles@.len(),
            strictly_increasing(vertices@),
            vertices@.len() <= 3 * k,
            forall|v: usize| vertices@.contains(v) <==> exists|j: int| 0 <= j < k && has_vertex(#[trigger] triangles@[cavity_indices@[j] as int], v as int),
        decreases cavity_indices@.len() - k,
    {
        let triangle = triangles[cavity_indices[k]];
        let ghost before = vertices@;
        insert_sorted_unique(&mut vertices, triangle[0]);
        insert_sorted_unique(&mut vertices, triangle[1]);
        insert_sorted_unique(&mut vertices, triangle[2]);
        proof {
            assert forall|v: usize| vertices@.contains(v) <==> exists|j: int| 0 <= j < k + 1 && has_vertex(#[trigger] triangles@[cavity_indices@[j] as int], v as int) by {
                assert(vertices@.contains(v) == vertices@.to_set().contains(v));
                assert(before.contains(v) == before.to_set().contains(v));
                if exists|j: int| 0 <= j < k + 1 && has_vertex(#[trigger] triangles@[cavity_indices@[j] as int], v as int) {
                    let j = choose|j: int| 0 <= j < k + 1 && has_vertex(#[trigger] triangles@[cavity_indices@[j] as int], v as int);
                    if j < k {
                        assert(before.contains(v));
                    }
                }
            }
        }
        k = k + 1;
    }
    vertices
}

/// Retriangulate a constraint cavity: clip ears on each half chain (the
/// left chain winds negatively against the constraint, the right one
/// positively), then insert every cavity vertex the ears missed.
pub fn triangulate_cavity_region(
    points: &[Point2],
    triangles: &[Triangle],
    cavity_indices: &[usize],
    left: &[usize],
    right: &[usize],
    policy: PredicatePolicy,
) -> (r: Result<Vec<Triangle>, Error>)
    requires
        triangles_in_bounds(triangles@, points@.len() as int),
        forall|k: int| 0 <= k < cavity_indices@.len() ==> #[trigger] cavity_indices@[k] < triangles@.len(),
        indices_in_bounds(left@, points@.len() as int),
        indices_in_bounds(right@, points@.len() as int),
        left@.len() + right@.len() + 6 * cavity_indices@.len() + 2 <= usize::MAX / 8,
    ensures
        r matches Ok(t) ==> triangles_in_bounds(t@, points@.len() as int),
{
    let vertices = cavity_vertices(triangles, cavity_indices);
    let mut replacement: Vec<Triangle> = Vec::new();
    if left.len() >= 3 {
        let side = triangulate_cavity_side(points, vstd::slice::slice_to_vec(left), Sign::Negative, policy)?;
        append_triangles(&mut replacement, side);
    }
    if right.len() >= 3 {
        let side = triangulate_cavity_side(points, vstd::slice::slice_to_vec(right), Sign::Positive, policy)?;
        append_triangles(&mut replacement, side);
    }
    let mut topology: Option<Box<TriangleTopology>> = None;
    let mut k: usize = 0;
    while k < vertices.len()
        invariant
            0 <= k <= vertices@.len(),
            vertices@.len() <= 3 * cavity_indices@.len(),
            insertion_state(points@, replacement@, topology),
            replacement@.len() <= left@.len() + right@.len() + 2 * k,
            left@.len() + right@.len() + 6 * cavity_indices@.len() + 2 <= usize::MAX / 8,
            forall|v: usize| vertices@.contains(v) ==> v < points@.len(),
        decreases vertices@.len() - k,
    {
        let vertex = vertices[k];
        proof { assert(vertices@.contains(vertex)); }
        if !triangles_have_vertex(&replacement, vertex) {
            insert_point(points, &mut replacement, vertex, &mut topology, policy)?;
        }
        k = k + 1;
    }
    Ok(replacement)
}

/// Whether some triangle of the list has both endpoints of `edge`.
pub open spec fn has_edge(triangles: Seq<Triangle>, edge: EdgeKey) -> bool {
    exists|t: int| 0 <= t < triangles.len() && #[trigger] triangle_has_edge(triangles[t], edge)
}

/// The first edge a constraint crosses when it leaves its start vertex: the
/// edge, the sides of its endpoints relative to the constraint, and the
/// triangles before and after it.
#[derive(Clone, Copy)]
struct ConstraintCrossing {
    edge: EdgeKey,
    edge_sides: [Sign; 2],
    before: usize,
    after: usize,
}

/// Where a constraint starts: already an edge, or crossing a first edge.
enum ConstraintLocation {
    ExistingEdge,
    FirstCrossing(ConstraintCrossing),
}

/// What a located first crossing guarantees about the mesh.
spec fn crossing_valid(crossing: ConstraintCrossing, triangles: Seq<Triangle>, point_count: int) -> bool {
    &&& crossing.before < triangles.len()
    &&& crossing.after < triangles.len()
    &&& triangle_has_edge(triangles[crossing.before as int], crossing.edge)
    &&& pair_in_bounds(crossing.edge.from, crossing.edge.to, point_count)
    &&& opposite_signs(crossing.edge_sides[0], crossing.edge_sides[1])
}

/// Walk the triangles around the constraint's start vertex: report an
/// existing edge when one of them has the end vertex, otherwise the single
/// edge opposite the start vertex that the constraint properly crosses.
#[verifier::loop_isolation(false)]
fn locate_constraint_from_endpoint(
    points: &[Point2],
    triangles: &[Triangle],
    topology: &TriangleTopology,
    constraint: Constraint,
    policy: PredicatePolicy,
) -> (r: Result<ConstraintLocation, Error>)
    requires
        triangles_in_bounds(triangles@, points@.len() as int),
        topology.neighbors@.len() == triangles@.len(),
        pair_in_bounds(constraint.from, constraint.to, points@.len() as int),
    ensures
        r matches Ok(ConstraintLocation::ExistingEdge) ==> has_edge(triangles@, edge_key(constraint.from, constraint.to)),
        r matches Ok(ConstraintLocation::FirstCrossing(c)) ==> crossing_valid(c, triangles@, points@.len() as int),
{
    let len = triangles.len();
    let start = match topology.vertex_triangle(constraint.from) {
        Some(t) => t,
        None => return Err(Error::InvalidInput { reason: "constraint endpoint is absent from triangulation topology" }),
    };
    if start >= len {
        return Err(Error::InvalidInput { reason: "vertex topology references an absent triangle" });
    }
    let mut visited: Vec<bool> = vec![false; len];
    proof {
        lemma_unvisited_bounds(visited@);
        lemma_unvisited_all_false(visited@);
        lemma_unvisited_count(visited@, start as int);
    }
    visited.set(start, true);
    let mut incident: Vec<usize> = Vec::new();
    incident.push(start);
    let mut crossing: Option<ConstraintCrossing> = None;
    let mut cursor: usize = 0;
    while cursor < incident.len()
        invariant
            len == triangles@.len(),
            visited@.len() == len,
            incident@.len() + unvisited_count(visited@) == len,
            cursor <= incident@.len(),
            forall|k: int| 0 <= k < incident@.len() ==> #[trigger] incident@[k] < len,
            crossing matches Some(c) ==> crossing_valid(c, triangles@, points@.len() as int),
        decreases len - cursor,
    {
        proof { lemma_unvisited_bounds(visited@); }
        let t = incident[cursor];
        cursor = cursor + 1;
        let triangle = triangles[t];
        proof {
            assert(triangle[0] < points@.len() && triangle[1] < points@.len() && triangle[2] < points@.len()) by {
                assert(triangles@[t as int][0] < points@.len());
                assert(triangles@[t as int][1] < points@.len());
                assert(triangles@[t as int][2] < points@.len());
            }
        }
        if triangle[0] != constraint.from && triangle[1] != constraint.from && triangle[2] != constraint.from {
            return Err(Error::InvalidInput { reason: "vertex topology references a nonincident triangle" });
        }
        if triangle[0] == constraint.to || triangle[1] == constraint.to || triangle[2] == constraint.to {
            proof {
                assert(triangle_has_edge(triangles@[t as int], edge_key(constraint.from, constraint.to)));
            }
            return Ok(ConstraintLocation::ExistingEdge);
        }
        let edges = triangle_edges(triangle);
        let mut slot: usize = 0;
        while slot < 3
            invariant
                0 <= slot <= 3,
                len == triangles@.len(),
                visited@.len() == len,
                incident@.len() + unvisited_count(visited@) == len,
                cursor <= incident@.len(),
                forall|k: int| 0 <= k < incident@.len() ==> #[trigger] incident@[k] < len,
                crossing matches Some(c) ==> crossing_valid(c, triangles@, points@.len() as int),
                t < len,
                triangle == triangles@[t as int],
            decreases 3 - slot,
        {
            let edge = edges[slot];
            proof {
                assert(edge == tri_edge(triangle, slot as int));
                assert(pair_in_bounds(edge.from, edge.to, points@.len() as int));
                assert(triangle_has_edge(triangle, edge));
            }
            if edge.contains(constraint.from) {
                match topology.neighbor_across(triangles, t, edge)? {
                    Some(neighbor) => {
                        if !visited[neighbor] {
                            proof { lemma_unvisited_count(visited@, neighbor as int); }
                            visited.set(neighbor, true);
                            incident.push(neighbor);
                        }
                    },
                    None => {},
                }
            } else {
                match edge_proper_crossing_sides(points, edge, constraint, policy)? {
                    None => {},
                    Some(edge_sides) => {
                        if crossing.is_some() {
                            return Err(Error::InvalidInput { reason: "constraint leaves its endpoint through multiple triangle edges" });
                        }
                        let after = match topology.neighbor_across(triangles, t, edge)? {
                            Some(n) => n,
                            None => return Err(Error::UnsupportedFeature { feature: "constraint cavity crosses a boundary edge" }),
                        };
                        crossing = Some(ConstraintCrossing { edge, edge_sides, before: t, after });
                    },
                }
            }
            slot = slot + 1;
        }
    }
    match crossing {
        Some(c) => Ok(ConstraintLocation::FirstCrossing(c)),
        None => Err(Error::UnsupportedFeature { feature: "constraint cavity contains no crossed triangles" }),
    }
}

/// Every entry of an all-false list is unvisited.
proof fn lemma_unvisited_all_false(visited: Seq<bool>)
    requires
        forall|i: int| 0 <= i < visited.len() ==> !#[trigger] visited[i],
    ensures
        unvisited_count(visited) == visited.len(),
    decreases visited.len(),
{
    if visited.len() > 0 {
        lemma_unvisited_all_false(visited.drop_last());
    }
}

/// Remove the entries in `[lo, hi)`.
fn remove_range(values: &mut Vec<usize>, lo: usize, hi: usize)
    requires
        lo <= hi <= old(values)@.len(),
    ensures
        final(values)@ == old(values)@.subrange(0, lo as int) + old(values)@.subrange(hi as int, old(values)@.len() as int),
{
    let ghost start = values@;
    let mut removed: usize = 0;
    while removed < hi - lo
        invariant
            lo <= hi <= start.len(),
            0 <= removed <= hi - lo,
            values@ == start.subrange(0, lo as int) + start.subrange(lo + removed, start.len() as int),
        decreases hi - lo - removed,
    {
        values.remove(lo);
        proof {
            assert(values@ =~= start.subrange(0, lo as int) + start.subrange(lo + removed + 1, start.len() as int));
        }
        removed = removed + 1;
    }
}

/// Whether every consecutive pair of `chain[first..=second]` is an edge that
/// is neither protected nor on the cavity boundary.
fn detour_is_absorbed(chain: &Vec<usize>, first: usize, second: usize, constrained_edges: &[EdgeKey], boundary_edges: &[EdgeKey]) -> (r: bool)
    requires
        first < second < chain@.len(),
    ensures
        r == forall|k: int| first <= k < second ==> !constrained_edges@.contains(#[trigger] edge_key(chain@[k], chain@[k + 1]))
            && !boundary_edges@.contains(edge_key(chain@[k], chain@[k + 1])),
{
    let mut k: usize = first;
    while k < second
        invariant
            first <= k <= second,
            second < chain@.len(),
            forall|j: int| first <= j < k ==> !constrained_edges@.contains(#[trigger] edge_key(chain@[j], chain@[j + 1]))
                && !boundary_edges@.contains(edge_key(chain@[j], chain@[j + 1])),
        decreases second - k,
    {
        let edge = EdgeKey::new(chain[k], chain[k + 1]);
        if contains_edge(constrained_edges, edge) || contains_edge(boundary_edges, edge) {
            return false;
        }
        k = k + 1;
    }
    true
}

/// Erase from a half-hole chain every closed detour (a return to an earlier
/// vertex) all of whose edges became interior to the enlarged cavity and
/// none of which is protected.
fn prune_absorbed_chain_detours(chain: &mut Vec<usize>, constrained_edges: &[EdgeKey], boundary_edges: &[EdgeKey])
    ensures
        final(chain)@.len() <= old(chain)@.len(),
        forall|i: int| 0 <= i < final(chain)@.len() ==> old(chain)@.contains(#[trigger] final(chain)@[i]),
{
    let ghost start = chain@;
    let mut first: usize = 0;
    while first < chain.len() && first + 1 < chain.len()
        invariant
            chain@.len() <= start.len(),
            forall|i: int| 0 <= i < chain@.len() ==> start.contains(#[trigger] chain@[i]),
        decreases chain@.len(), chain@.len() - first,
    {
        let mut second = first + 1;
        while second < chain.len() && chain[second] != chain[first]
            invariant
                first < second <= chain@.len(),
            decreases chain@.len() - second,
        {
            second = second + 1;
        }
        if second == chain.len() {
            first = first + 1;
        } else if detour_is_absorbed(chain, first, second, constrained_edges, boundary_edges) {
            let ghost before = chain@;
            remove_range(chain, first + 1, second + 1);
            proof {
                assert forall|i: int| 0 <= i < chain@.len() implies start.contains(#[trigger] chain@[i]) by {
                    if i <= first {
                        assert(chain@[i] == before[i]);
                        assert(start.contains(before[i]));
                    } else {
                        assert(chain@[i] == before[i + second - first]);
                        assert(start.contains(before[i + second - first]));
                    }
                }
            }
            first = first.saturating_sub(1);
        } else {
            first = first + 1;
        }
    }
}

/// The boundary edges among the first `upto` edge slots of cavity triangle
/// `t`, after `acc`: each edge with no neighbor or a neighbor outside the
/// cavity; the first lookup error otherwise.
pub open spec fn slot_boundary(neighbors: Seq<[Option<usize>; 3]>, triangles: Seq<Triangle>, cavity: Seq<bool>, t: int, upto: int) -> Result<Seq<EdgeKey>, Error>
    decreases upto,
{
    if upto <= 0 {
        Ok(Seq::empty())
    } else {
        match slot_boundary(neighbors, triangles, cavity, t, upto - 1) {
            Err(e) => Err(e),
            Ok(acc) => {
                let edge = tri_edge(triangles[t], upto - 1);
                match neighbor_across_result(neighbors, triangles, t, edge) {
                    Err(e) => Err(e),
                    Ok(across) => match across {
                        None => Ok(acc.push(edge)),
                        Some(n) => if !cavity[n as int] { Ok(acc.push(edge)) } else { Ok(acc) },
                    },
                }
            },
        }
    }
}

/// The boundary edges of the first `k` listed cavity triangles, in order.
pub open spec fn cavity_boundary_upto(neighbors: Seq<[Option<usize>; 3]>, triangles: Seq<Triangle>, cavity: Seq<bool>, indices: Seq<usize>, k: int) -> Result<Seq<EdgeKey>, Error>
    decreases k,
{
    if k <= 0 {
        Ok(Seq::empty())
    } else {
        match cavity_boundary_upto(neighbors, triangles, cavity, indices, k - 1) {
            Err(e) => Err(e),
            Ok(acc) => match slot_boundary(neighbors, triangles, cavity, indices[k - 1] as int, 3) {
                Err(e) => Err(e),
                Ok(more) => Ok(acc + more),
            },
        }
    }
}

proof fn lemma_slot_boundary_error(neighbors: Seq<[Option<usize>; 3]>, triangles: Seq<Triangle>, cavity: Seq<bool>, t: int, k: int, m: int, e: Error)
    requires
        0 <= k <= m,
        slot_boundary(neighbors, triangles, cavity, t, k) == Err::<Seq<EdgeKey>, Error>(e),
    ensures
        slot_boundary(neighbors, triangles, cavity, t, m) == Err::<Seq<EdgeKey>, Error>(e),
    decreases m - k,
{
    if k < m {
        lemma_slot_boundary_error(neighbors, triangles, cavity, t, k, m - 1, e);
    }
}

proof fn lemma_cavity_boundary_error(neighbors: Seq<[Option<usize>; 3]>, triangles: Seq<Triangle>, cavity: Seq<bool>, indices: Seq<usize>, k: int, m: int, e: Error)
    requires
        0 <= k <= m,
        cavity_boundary_upto(neighbors, triangles, cavity, indices, k) == Err::<Seq<EdgeKey>, Error>(e),
    ensures
        cavity_boundary_upto(neighbors, triangles, cavity, indices, m) == Err::<Seq<EdgeKey>, Error>(e),
    decreases m - k,
{
    if k < m {
        lemma_cavity_boundary_error(neighbors, triangles, cavity, indices, k, m - 1, e);
    }
}

/// The edges of the cavity triangles that lie on the cavity boundary: on
/// the mesh boundary or shared with a triangle outside the cavity.
fn collect_cavity_boundary(
    topology: &TriangleTopology,
    triangles: &[Triangle],
    cavity: &Vec<bool>,
    cavity_indices: &Vec<usize>,
) -> (r: Result<Vec<EdgeKey>, Error>)
    requires
        topology.neighbors@.len() == triangles@.len(),
        cavity@.len() == triangles@.len(),
        forall|k: int| 0 <= k < cavity_indices@.len() ==> #[trigger] cavity_indices@[k] < triangles@.len(),
    ensures
        match cavity_boundary_upto(topology.neighbors@, triangles@, cavity@, cavity_indices@, cavity_indices@.len() as int) {
            Ok(edges) => r matches Ok(b) && b@ == edges,
            Err(e) => r == Err::<Vec<EdgeKey>, Error>(e),
        },
{
    let mut boundary: Vec<EdgeKey> = Vec::new();
    let mut k: usize = 0;
    while k < cavity_indices.len()
        invariant
            topology.neighbors@.len() == triangles@.len(),
            cavity@.len() == triangles@.len(),
            forall|j: int| 0 <= j < cavity_indices@.len() ==> #[trigger] cavity_indices@[j] < triangles@.len(),
            0 <= k <= cavity_indices@.len(),
            cavity_boundary_upto(topology.neighbors@, triangles@, cavity@, cavity_indices@, k as int) == Ok::<Seq<EdgeKey>, Error>(boundary@),
        decreases cavity_indices@.len() - k,
    {
        let t = cavity_indices[k];
        let edges = triangle_edges(triangles[t]);
        let ghost acc = boundary@;
        let mut slot: usize = 0;
        while slot < 3
            invariant
                0 <= slot <= 3,
                topology.neighbors@.len() == triangles@.len(),
                cavity@.len() == triangles@.len(),
                t < triangles@.len(),
                k < cavity_indices@.len(),
                t == cavity_indices@[k as int],
                cavity_boundary_upto(topology.neighbors@, triangles@, cavity@, cavity_indices@, k as int) == Ok::<Seq<EdgeKey>, Error>(acc),
                forall|j: int| 0 <= j < 3 ==> #[trigger] edges[j] == tri_edge(triangles@[t as int], j),
                slot_boundary(topology.neighbors@, triangles@, cavity@, t as int, slot as int) matches Ok(more) && boundary@ == acc + more,
            decreases 3 - slot,
        {
            proof { assert(edges[slot as int] == tri_edge(triangles@[t as int], slot as int)); }
            let ghost prior = boundary@;
            let across = topology.neighbor_across(triangles, t, edges[slot]);
            if let Err(e) = across {
                proof {
                    lemma_slot_boundary_error(topology.neighbors@, triangles@, cavity@, t as int, slot + 1, 3, e);
                    lemma_cavity_boundary_error(topology.neighbors@, triangles@, cavity@, cavity_indices@, k + 1, cavity_indices@.len() as int, e);
                }
                return Err(e);
            }
            match across? {
                None => boundary.push(edges[slot]),
                Some(neighbor) => {
                    if !cavity[neighbor] {
                        boundary.push(edges[slot]);
                    }
                },
            }
            proof {
                let more = slot_boundary(topology.neighbors@, triangles@, cavity@, t as int, slot as int)->Ok_0;
                assert(prior == acc + more);
                if boundary@.len() > prior.len() {
                    assert(boundary@ =~= acc + more.push(edges[slot as int]));
                } else {
                    assert(boundary@ =~= acc + more);
                }
            }
            slot = slot + 1;
        }
        k = k + 1;
    }
    Ok(boundary)
}

/// Add to the cavity exactly the face components outside it that it
/// encloses: those reached across unprotected edges only, never touching
/// the mesh boundary or a protected edge.
#[verifier::loop_isolation(false)]
fn close_constraint_cavity_holes(
    topology: &TriangleTopology,
    triangles: &[Triangle],
    constrained_edges: &[EdgeKey],
    cavity: &mut Vec<bool>,
) -> (r: Result<(), Error>)
    requires
        topology.neighbors@.len() == triangles@.len(),
        old(cavity)@.len() == triangles@.len(),
    ensures
        final(cavity)@.len() == old(cavity)@.len(),
{
    let len = cavity.len();
    let mut visited: Vec<bool> = vec![false; len];
    let mut seed: usize = 0;
    while seed < len
        invariant
            len == triangles@.len(),
            cavity@.len() == len,
            visited@.len() == len,
        decreases len - seed,
    {
        if !cavity[seed] && !visited[seed] {
            proof { lemma_unvisited_count(visited@, seed as int); }
            visited.set(seed, true);
            let mut stack: Vec<usize> = Vec::new();
            stack.push(seed);
            let mut component: Vec<usize> = Vec::new();
            let mut enclosed = true;
            while stack.len() > 0
                invariant
                    len == triangles@.len(),
                    cavity@.len() == len,
                    visited@.len() == len,
                    forall|k: int| 0 <= k < stack@.len() ==> #[trigger] stack@[k] < len,
                    forall|k: int| 0 <= k < component@.len() ==> #[trigger] component@[k] < len,
                decreases 2 * unvisited_count(visited@) + stack@.len(),
            {
                proof { lemma_unvisited_bounds(visited@); }
                let ghost measure = 2 * unvisited_count(visited@) + stack@.len();
                let t = stack.pop().unwrap();
                assert(2 * unvisited_count(visited@) + stack@.len() < measure);
                component.push(t);
                let edges = triangle_edges(triangles[t]);
                let mut slot: usize = 0;
                while slot < 3
                    invariant
                        0 <= slot <= 3,
                        t < len,
                        len == triangles@.len(),
                        cavity@.len() == len,
                        visited@.len() == len,
                        forall|k: int| 0 <= k < stack@.len() ==> #[trigger] stack@[k] < len,
                        2 * unvisited_count(visited@) + stack@.len() < measure,
                        unvisited_count(visited@) >= 0,
                    decreases 3 - slot,
                {
                    let edge = edges[slot];
                    proof { lemma_unvisited_bounds(visited@); }
                    if contains_edge(constrained_edges, edge) {
                        enclosed = false;
                    } else {
                        match topology.neighbor_across(triangles, t, edge)? {
                            None => {
                                enclosed = false;
                            },
                            Some(neighbor) => {
                                if !cavity[neighbor] && !visited[neighbor] {
                                    proof { lemma_unvisited_count(visited@, neighbor as int); }
                                    visited.set(neighbor, true);
                                    stack.push(neighbor);
                                    proof { lemma_unvisited_bounds(visited@); }
                                }
                            },
                        }
                    }
                    slot = slot + 1;
                }
            }
            if enclosed {
                let mut k: usize = 0;
                while k < component.len()
                    invariant
                        cavity@.len() == len,
                        forall|j: int| 0 <= j < component@.len() ==> #[trigger] component@[j] < len,
                    decreases component@.len() - k,
                {
                    cavity.set(component[k], true);
                    k = k + 1;
                }
            }
        }
        seed = seed + 1;
    }
    Ok(())
}

/// Every protected edge between consecutive chain vertices is an edge of
/// the replacement triangles.
pub open spec fn chain_retained(chain: Seq<usize>, constrained_edges: Seq<EdgeKey>, replacement: Seq<Triangle>) -> bool {
    forall|j: int| 0 <= j && j + 1 < chain.len() ==> #[trigger] constrained_edges.contains(edge_key(chain[j], chain[j + 1]))
        ==> has_edge(replacement, edge_key(chain[j], chain[j + 1]))
}

/// Whether every protected edge along either half chain is an edge of the
/// replacement triangles.
fn replacement_retains_chain_constraints(left: &Vec<usize>, right: &Vec<usize>, constrained_edges: &[EdgeKey], replacement: &Vec<Triangle>) -> (r: bool)
    ensures
        r == (chain_retained(left@, constrained_edges@, replacement@) && chain_retained(right@, constrained_edges@, replacement@)),
{
    let mut side: usize = 0;
    while side < 2
        invariant
            side <= 2,
            side >= 1 ==> chain_retained(left@, constrained_edges@, replacement@),
            side >= 2 ==> chain_retained(right@, constrained_edges@, replacement@),
        decreases 2 - side,
    {
        let chain = if side == 0 { left } else { right };
        let n = chain.len();
        let mut k: usize = 0;
        while k + 1 < n
            invariant
                n == chain@.len(),
                k == 0 || k < n,
                side < 2,
                chain@ == (if side == 0 { left@ } else { right@ }),
                side >= 1 ==> chain_retained(left@, constrained_edges@, replacement@),
                forall|j: int| 0 <= j < k && j + 1 < n ==> #[trigger] constrained_edges@.contains(edge_key(chain@[j], chain@[j + 1]))
                    ==> has_edge(replacement@, edge_key(chain@[j], chain@[j + 1])),
            decreases chain@.len() - k,
        {
            let edge = EdgeKey::new(chain[k], chain[k + 1]);
            if contains_edge(constrained_edges, edge) && !triangulation_has_edge(replacement.as_slice(), edge) {
                return false;
            }
            k = k + 1;
        }
        side = side + 1;
    }
    true
}

/// A mesh whose triangles name points of the list, with one adjacency row
/// per triangle.
pub open spec fn mesh_state(point_count: int, triangles: Seq<Triangle>, topology: TriangleTopology) -> bool {
    &&& triangles_in_bounds(triangles, point_count)
    &&& topology.neighbors@.len() == triangles.len()
}

/// A replaced slot holds its replacement triangle.
proof fn lemma_replaced_slot(triangles: Seq<Triangle>, indices: Seq<usize>, replacement: Seq<Triangle>, l: int)
    requires
        strictly_increasing(indices),
        0 <= l < indices.len(),
        indices.len() <= replacement.len(),
        indices[l] < triangles.len(),
    ensures
        replaced_triangles(triangles, indices, replacement)[indices[l] as int] == replacement[l],
{
    let i = indices[l] as int;
    assert(exists|k: int| 0 <= k < indices.len() && indices[k] == i);
    let k = choose|k: int| 0 <= k < indices.len() && indices[k] == i;
    if k < l {
        assert(indices[k] < indices[l]);
    } else if k > l {
        assert(indices[l] < indices[k]);
    }
}

/// Replacing slots by as many triangles that have `edge` somewhere keeps
/// the edge in the mesh, the mesh's size and its bounds.
proof fn lemma_replacement_keeps_edge(triangles: Seq<Triangle>, indices: Seq<usize>, replacement: Seq<Triangle>, edge: EdgeKey, point_count: int)
    requires
        strictly_increasing(indices),
        indices.len() == replacement.len(),
        forall|k: int| 0 <= k < indices.len() ==> #[trigger] indices[k] < triangles.len(),
        has_edge(replacement, edge),
    ensures
        has_edge(replaced_triangles(triangles, indices, replacement), edge),
        replaced_triangles(triangles, indices, replacement).len() == triangles.len(),
{
    let l = choose|l: int| 0 <= l < replacement.len() && #[trigger] triangle_has_edge(replacement[l], edge);
    lemma_replaced_slot(triangles, indices, replacement, l);
    let out = replaced_triangles(triangles, indices, replacement);
    assert(triangle_has_edge(out[indices[l] as int], edge));
}

/// In-range triangles as individual facts.
proof fn lemma_each_in_bounds(triangles: Seq<Triangle>, point_count: int)
    requires
        triangles_in_bounds(triangles, point_count),
    ensures
        forall|l: int| 0 <= l < triangles.len() ==> triangle_in_bounds(#[trigger] triangles[l], point_count),
{
    assert forall|l: int| 0 <= l < triangles.len() implies triangle_in_bounds(#[trigger] triangles[l], point_count) by {
        assert(triangles[l][0] < point_count);
        assert(triangles[l][1] < point_count);
        assert(triangles[l][2] < point_count);
    }
}

/// Flip the shared edge of two adjacent triangles, whose strict convex
/// quadrilateral the caller has certified, to the diagonal between their
/// opposite vertices.
pub fn replace_adjacent_edge_in_topology(
    points: &[Point2],
    triangles: &mut Vec<Triangle>,
    topology: &mut TriangleTopology,
    edge: EdgeKey,
    adjacent: [AdjacentTriangle; 2],
    policy: PredicatePolicy,
) -> (r: Result<(), Error>)
    requires
        mesh_state(points@.len() as int, old(triangles)@, *old(topology)),
        pair_in_bounds(edge.from, edge.to, points@.len() as int),
        pair_in_bounds(adjacent[0].opposite, adjacent[1].opposite, points@.len() as int),
    ensures
        mesh_state(points@.len() as int, final(triangles)@, *final(topology)),
        final(triangles)@.len() == old(triangles)@.len(),
        r is Err ==> *final(triangles) == *old(triangles) && *final(topology) == *old(topology),
        r is Ok ==> has_edge(final(triangles)@, edge_key(adjacent[0].opposite, adjacent[1].opposite)),
        r is Ok ==> flipped_in_place(old(triangles)@, final(triangles)@, points@, edge, adjacent, policy),
{
    let ordered = if adjacent[1].triangle < adjacent[0].triangle { [adjacent[1], adjacent[0]] } else { adjacent };
    let replacement = adjacent_edge_replacement(points, edge, ordered, policy)?;
    let indices = [ordered[0].triangle, ordered[1].triangle];
    let ghost before = triangles@;
    topology.replace_region(triangles, indices.as_slice(), replacement.as_slice(), None)?;
    proof {
        let p = ordered[0].opposite;
        let q = ordered[1].opposite;
        assert(replacement@[0] == replacement[0]);
        assert(triangle_has_edge(replacement[0], edge_key(adjacent[0].opposite, adjacent[1].opposite)));
        assert(has_edge(replacement@, edge_key(adjacent[0].opposite, adjacent[1].opposite)));
        assert(triangle_in_bounds(replacement@[0], points@.len() as int));
        assert(triangle_in_bounds(replacement@[1], points@.len() as int));
        assert forall|l: int| 0 <= l < replacement@.len() implies triangle_in_bounds(#[trigger] replacement@[l], points@.len() as int) by {
            if l == 0 {} else {}
        }
        lemma_replaced_in_bounds(before, indices@, replacement@, points@.len() as int);
        lemma_replacement_keeps_edge(before, indices@, replacement@, edge_key(adjacent[0].opposite, adjacent[1].opposite), points@.len() as int);
        lemma_replaced_slot(before, indices@, replacement@, 0);
        lemma_replaced_slot(before, indices@, replacement@, 1);
        let out = replaced_triangles(before, indices@, replacement@);
        assert forall|k: int| 0 <= k < out.len() && k != ordered[0].triangle && k != ordered[1].triangle implies out[k] == before[k] by {
            assert(!(exists|l: int| 0 <= l < indices@.len() && indices@[l] == k)) by {
                if exists|l: int| 0 <= l < indices@.len() && indices@[l] == k {
                    let l = choose|l: int| 0 <= l < indices@.len() && indices@[l] == k;
                    if l == 0 {} else {}
                }
            }
        }
        assert(triangles@ =~= before.update(ordered[0].triangle as int, replacement[0]).update(ordered[1].triangle as int, replacement[1]));
    }
    Ok(())
}

/// The mesh after flipping `edge` between the two adjacent triangles: the
/// lower slot holds the positively oriented triangle on the old edge's first
/// endpoint and the higher slot the one on its second endpoint, both across
/// the diagonal between the opposite vertices (taken in slot order).
pub open spec fn flipped_in_place(before: Seq<Triangle>, after: Seq<Triangle>, points: Seq<Point2>, edge: EdgeKey, adjacent: [AdjacentTriangle; 2], policy: PredicatePolicy) -> bool {
    let lo = if adjacent[1].triangle < adjacent[0].triangle { adjacent[1] } else { adjacent[0] };
    let hi = if adjacent[1].triangle < adjacent[0].triangle { adjacent[0] } else { adjacent[1] };
    &&& lo.triangle < hi.triangle < before.len()
    &&& flip_replacement_result(points, edge, lo.opposite, hi.opposite, policy) matches Ok(rep)
        && after == before.update(lo.triangle as int, rep[0]).update(hi.triangle as int, rep[1])
}

/// The indices of the marked entries, in increasing order.
fn marked_indices(marks: &Vec<bool>) -> (r: Vec<usize>)
    ensures
        strictly_increasing(r@),
        r@.len() <= marks@.len(),
        forall|k: int| 0 <= k < r@.len() ==> #[trigger] r@[k] < marks@.len(),
        forall|k: int| 0 <= k < r@.len() ==> marks@[#[trigger] r@[k] as int],
        forall|i: int| 0 <= i < marks@.len() && #[trigger] marks@[i] ==> r@.contains(i as usize),
{
    let mut out: Vec<usize> = Vec::new();
    let mut i: usize = 0;
    while i < marks.len()
        invariant
            0 <= i <= marks@.len(),
            strictly_increasing(out@),
            out@.len() <= i,
            forall|k: int| 0 <= k < out@.len() ==> #[trigger] out@[k] < i,
            forall|k: int| 0 <= k < out@.len() ==> marks@[#[trigger] out@[k] as int],
            forall|j: int| 0 <= j < i && #[trigger] marks@[j] ==> out@.contains(j as usize),
        decreases marks@.len() - i,
    {
        if marks[i] {
            let ghost before = out@;
            out.push(i);
            proof {
                assert(out@[out@.len() - 1] == i);
                assert forall|j: int| 0 <= j < i + 1 && #[trigger] marks@[j] implies out@.contains(j as usize) by {
                    if j < i {
                        let w = choose|w: int| 0 <= w < before.len() && before[w] == j as usize;
                        assert(out@[w] == before[w]);
                    }
                }
            }
        }
        i = i + 1;
    }
    out
}

/// Mark both triangles of an adjacency pair as cavity triangles.
fn mark_cavity_triangles(cavity: &mut Vec<bool>, adjacent: [AdjacentTriangle; 2])
    requires
        adjacent[0].triangle < old(cavity)@.len(),
        adjacent[1].triangle < old(cavity)@.len(),
    ensures
        final(cavity)@.len() == old(cavity)@.len(),
        final(cavity)@ == old(cavity)@.update(adjacent[0].triangle as int, true).update(adjacent[1].triangle as int, true),
{
    cavity.set(adjacent[0].triangle, true);
    cavity.set(adjacent[1].triangle, true);
}

/// Append `vertex` to the chain on its side of the constraint.
fn push_on_side(left: &mut Vec<usize>, right: &mut Vec<usize>, vertex: usize, side: Sign) -> (r: Result<(), Error>)
    ensures
        r is Ok ==> final(left)@.len() + final(right)@.len() == old(left)@.len() + old(right)@.len() + 1,
        r is Ok ==> (final(left)@ == old(left)@ || final(left)@ == old(left)@.push(vertex)),
        r is Ok ==> (final(right)@ == old(right)@ || final(right)@ == old(right)@.push(vertex)),
        side == Sign::Positive ==> r is Ok && final(left)@ == old(left)@.push(vertex) && final(right)@ == old(right)@,
        side == Sign::Negative ==> r is Ok && final(right)@ == old(right)@.push(vertex) && final(left)@ == old(left)@,
        side == Sign::Zero ==> r == Err::<(), Error>(Error::InvalidInput { reason: "constraint corridor contains an unsplit collinear vertex" })
            && final(left)@ == old(left)@ && final(right)@ == old(right)@,
{
    match side {
        Sign::Positive => left.push(vertex),
        Sign::Negative => right.push(vertex),
        Sign::Zero => return Err(Error::InvalidInput { reason: "constraint corridor contains an unsplit collinear vertex" }),
    }
    Ok(())
}

/// The scan of the triangle's edge slots from `slot` on for the edge other
/// than `incoming` that the constraint properly crosses, with the one found
/// so far: an error for a second such edge or for none at all.
pub open spec fn outgoing_from(points: Seq<Point2>, triangle: Triangle, incoming: EdgeKey, constraint: Constraint, slot: int, found: Option<(EdgeKey, [Sign; 2])>, policy: PredicatePolicy) -> Result<(EdgeKey, [Sign; 2]), Error>
    decreases 3 - slot,
{
    if slot < 0 || slot >= 3 {
        match found {
            Some(f) => Ok(f),
            None => Err(Error::UnsupportedFeature { feature: "constraint corridor ends before its target endpoint" }),
        }
    } else {
        let edge = tri_edge(triangle, slot);
        if edge == incoming {
            outgoing_from(points, triangle, incoming, constraint, slot + 1, found, policy)
        } else {
            match crossing_sides_result(points, edge, constraint, policy) {
                Err(e) => Err(e),
                Ok(crossing) => match crossing {
                    None => outgoing_from(points, triangle, incoming, constraint, slot + 1, found, policy),
                    Some(sides) => if found is Some {
                        Err(Error::InvalidInput { reason: "constraint crosses multiple outgoing edges of one triangle" })
                    } else {
                        outgoing_from(points, triangle, incoming, constraint, slot + 1, Some((edge, sides)), policy)
                    },
                },
            }
        }
    }
}

/// The next crossed edge of the corridor triangle: the single edge other
/// than the incoming one that the constraint properly crosses.
fn outgoing_crossing(points: &[Point2], triangle: Triangle, incoming: EdgeKey, constraint: Constraint, policy: PredicatePolicy) -> (r: Result<(EdgeKey, [Sign; 2]), Error>)
    requires
        triangle_in_bounds(triangle, points@.len() as int),
        pair_in_bounds(constraint.from, constraint.to, points@.len() as int),
    ensures
        r matches Ok(found) ==> triangle_has_edge(triangle, found.0) && pair_in_bounds(found.0.from, found.0.to, points@.len() as int)
            && opposite_signs(found.1[0], found.1[1]),
        r == outgoing_from(points@, triangle, incoming, constraint, 0, None, policy),
{
    let edges = triangle_edges(triangle);
    let mut outgoing: Option<(EdgeKey, [Sign; 2])> = None;
    let mut slot: usize = 0;
    while slot < 3
        invariant
            0 <= slot <= 3,
            triangle_in_bounds(triangle, points@.len() as int),
            pair_in_bounds(constraint.from, constraint.to, points@.len() as int),
            forall|k: int| 0 <= k < 3 ==> #[trigger] edges[k] == tri_edge(triangle, k),
            outgoing matches Some(found) ==> triangle_has_edge(triangle, found.0) && pair_in_bounds(found.0.from, found.0.to, points@.len() as int)
                && opposite_signs(found.1[0], found.1[1]),
            outgoing_from(points@, triangle, incoming, constraint, 0, None, policy) == outgoing_from(points@, triangle, incoming, constraint, slot as int, outgoing, policy),
        decreases 3 - slot,
    {
        let edge = edges[slot];
        proof { assert(edge == tri_edge(triangle, slot as int)); }
        if edge != incoming {
            match edge_proper_crossing_sides(points, edge, constraint, policy)? {
                None => {},
                Some(sides) => {
                    if outgoing.is_some() {
                        return Err(Error::InvalidInput { reason: "constraint crosses multiple outgoing edges of one triangle" });
                    }
                    outgoing = Some((edge, sides));
                },
            }
        }
        slot = slot + 1;
    }
    match outgoing {
        Some(found) => Ok(found),
        None => Err(Error::UnsupportedFeature { feature: "constraint corridor ends before its target endpoint" }),
    }
}

/// The vertex of the corridor triangle off the incoming edge and its side,
/// read from the outgoing edge's endpoint sides, or why there is none.
pub open spec fn advancing_result(triangle: Triangle, incoming: EdgeKey, edge: EdgeKey, edge_sides: [Sign; 2]) -> Result<(usize, Sign), Error> {
    let off = |v: usize| !(incoming.from == v || incoming.to == v);
    if !off(triangle[0]) && !off(triangle[1]) && !off(triangle[2]) {
        Err(Error::InvalidInput { reason: "constraint corridor triangle has no advancing vertex" })
    } else {
        let v = if off(triangle[0]) { triangle[0] } else if off(triangle[1]) { triangle[1] } else { triangle[2] };
        if v == edge.from {
            Ok((v, edge_sides[0]))
        } else if v == edge.to {
            Ok((v, edge_sides[1]))
        } else {
            Err(Error::InvalidInput { reason: "constraint corridor advancing vertex is absent from its outgoing edge" })
        }
    }
}

/// The side of the vertex of the corridor triangle that is not on the
/// incoming edge, read from the outgoing edge's endpoint sides.
fn advancing_vertex(triangle: Triangle, incoming: EdgeKey, edge: EdgeKey, edge_sides: [Sign; 2]) -> (r: Result<(usize, Sign), Error>)
    ensures
        r matches Ok(found) ==> has_vertex(triangle, found.0 as int),
        r == advancing_result(triangle, incoming, edge, edge_sides),
{
    let next_vertex = if !incoming.contains(triangle[0]) {
        triangle[0]
    } else if !incoming.contains(triangle[1]) {
        triangle[1]
    } else if !incoming.contains(triangle[2]) {
        triangle[2]
    } else {
        return Err(Error::InvalidInput { reason: "constraint corridor triangle has no advancing vertex" });
    };
    if next_vertex == edge.from {
        Ok((next_vertex, edge_sides[0]))
    } else if next_vertex == edge.to {
        Ok((next_vertex, edge_sides[1]))
    } else {
        Err(Error::InvalidInput { reason: "constraint corridor advancing vertex is absent from its outgoing edge" })
    }
}

/// Recover a constraint whose first crossing is known: walk the line
/// corridor of crossed triangles building the two half-hole chains, flip
/// when a single edge is crossed, otherwise retriangulate the cavity (after
/// absorbing enclosed unprotected faces when the direct half holes are
/// weak), and commit the replacement atomically.
#[verifier::loop_isolation(false)]
#[verifier::rlimit(50)]
fn recover_constraint_cavity(
    points: &[Point2],
    triangles: &mut Vec<Triangle>,
    topology: &mut TriangleTopology,
    constrained_edges: &[EdgeKey],
    constraint: Constraint,
    first: ConstraintCrossing,
    policy: PredicatePolicy,
) -> (r: Result<(), Error>)
    requires
        mesh_state(points@.len() as int, old(triangles)@, *old(topology)),
        pair_in_bounds(constraint.from, constraint.to, points@.len() as int),
        old(triangles)@.len() <= usize::MAX / 64,
        crossing_valid(first, old(triangles)@, points@.len() as int),
    ensures
        mesh_state(points@.len() as int, final(triangles)@, *final(topology)),
        final(triangles)@.len() == old(triangles)@.len(),
        r is Err ==> *final(triangles) == *old(triangles) && *final(topology) == *old(topology),
        r is Ok ==> has_edge(final(triangles)@, edge_key(constraint.from, constraint.to)),
        constrained_edges@.contains(first.edge) ==> r == Err::<(), Error>(Error::InvalidInput { reason: "constraint crosses an existing constrained edge" }),
{
    let n = points.len();
    let len = triangles.len();
    let first_edge = first.edge;
    if contains_edge(constrained_edges, first_edge) {
        return Err(Error::InvalidInput { reason: "constraint crosses an existing constrained edge" });
    }
    let first_adjacent = adjacent_triangles(triangles.as_slice(), first_edge, [first.before, first.after])?;
    proof {
        lemma_each_in_bounds(triangles@, n as int);
    }
    let mut left: Vec<usize> = Vec::new();
    let mut right: Vec<usize> = Vec::new();
    left.push(constraint.from);
    right.push(constraint.from);
    push_on_side(&mut left, &mut right, first_edge.from, first.edge_sides[0])?;
    push_on_side(&mut left, &mut right, first_edge.to, first.edge_sides[1])?;
    if left.len() != 2 || right.len() != 2 {
        return Err(Error::InvalidInput { reason: "constraint corridor first edge does not straddle the target" });
    }
    let mut crossing_count: usize = 1;
    let mut incoming = first_edge;
    let mut current = first.after;
    let mut cavity: Vec<bool> = Vec::new();
    while !(triangles[current][0] == constraint.to || triangles[current][1] == constraint.to || triangles[current][2] == constraint.to)
        invariant
            len == triangles@.len(),
            mesh_state(n as int, triangles@, *topology),
            current < len,
            1 <= crossing_count <= len + 1,
            crossing_count >= 2 ==> cavity@.len() == len,
            left@.len() + right@.len() == crossing_count + 3,
            indices_in_bounds(left@, n as int),
            indices_in_bounds(right@, n as int),
            first_adjacent[0].triangle < len,
            first_adjacent[1].triangle < len,
        decreases len + 1 - crossing_count,
    {
        let triangle = triangles[current];
        proof { assert(triangle_in_bounds(triangles@[current as int], n as int)); }
        let (edge, edge_sides) = outgoing_crossing(points, triangle, incoming, constraint, policy)?;
        if contains_edge(constrained_edges, edge) {
            return Err(Error::InvalidInput { reason: "constraint crosses an existing constrained edge" });
        }
        let next = match topology.neighbor_across(triangles.as_slice(), current, edge)? {
            Some(t) => t,
            None => return Err(Error::UnsupportedFeature { feature: "constraint cavity crosses a boundary edge" }),
        };
        let (next_vertex, next_side) = advancing_vertex(triangle, incoming, edge, edge_sides)?;
        let ghost left_before = left@;
        let ghost right_before = right@;
        push_on_side(&mut left, &mut right, next_vertex, next_side)?;
        proof {
            assert(next_vertex < n);
            assert forall|i: int| 0 <= i < left@.len() implies #[trigger] left@[i] < n by {
                if left@ != left_before { if i < left_before.len() { assert(left@[i] == left_before[i]); } }
            }
            assert forall|i: int| 0 <= i < right@.len() implies #[trigger] right@[i] < n by {
                if right@ != right_before { if i < right_before.len() { assert(right@[i] == right_before[i]); } }
            }
        }
        crossing_count = crossing_count + 1;
        if crossing_count > len {
            return Err(Error::InvalidInput { reason: "constraint corridor does not terminate" });
        }
        if crossing_count == 2 {
            cavity = vec![false; len];
            mark_cavity_triangles(&mut cavity, first_adjacent);
        }
        let pair = adjacent_triangles(triangles.as_slice(), edge, [current, next])?;
        mark_cavity_triangles(&mut cavity, pair);
        incoming = edge;
        current = next;
    }
    left.push(constraint.to);
    right.push(constraint.to);
    let target = EdgeKey::new(constraint.from, constraint.to);
    if crossing_count == 1 {
        let replacement_edge = EdgeKey::new(first_adjacent[0].opposite, first_adjacent[1].opposite);
        proof {
            assert(first_adjacent[0].opposite < n && first_adjacent[1].opposite < n) by {
                let t0 = triangles@[first_adjacent[0].triangle as int];
                let t1 = triangles@[first_adjacent[1].triangle as int];
                assert(triangle_in_bounds(t0, n as int));
                assert(triangle_in_bounds(t1, n as int));
            }
        }
        if replacement_edge == target {
            return replace_adjacent_edge_in_topology(points, triangles, topology, first_edge, first_adjacent, policy);
        }
        cavity = vec![false; len];
        mark_cavity_triangles(&mut cavity, first_adjacent);
    }
    let mut cavity_indices = marked_indices(&cavity);
    let mut replacement: Option<Vec<Triangle>> = match triangulate_cavity_region(points, triangles.as_slice(), cavity_indices.as_slice(), left.as_slice(), right.as_slice(), policy) {
        Ok(found) => Some(found),
        Err(Error::NoEarFound) => None,
        Err(error) => return Err(error),
    };
    let direct_is_complete = match &replacement {
        Some(found) => found.len() == cavity_indices.len()
            && triangulation_has_edge(found.as_slice(), target)
            && replacement_retains_chain_constraints(&left, &right, constrained_edges, found),
        None => false,
    };
    if !direct_is_complete {
        close_constraint_cavity_holes(topology, triangles.as_slice(), constrained_edges, &mut cavity)?;
        cavity_indices = marked_indices(&cavity);
        let boundary = collect_cavity_boundary(topology, triangles.as_slice(), &cavity, &cavity_indices)?;
        let ghost left_before = left@;
        let ghost right_before = right@;
        prune_absorbed_chain_detours(&mut left, constrained_edges, boundary.as_slice());
        prune_absorbed_chain_detours(&mut right, constrained_edges, boundary.as_slice());
        proof {
            assert forall|i: int| 0 <= i < left@.len() implies #[trigger] left@[i] < n by {
                let k = choose|k: int| 0 <= k < left_before.len() && left_before[k] == left@[i];
                assert(left_before[k] < n);
            }
            assert forall|i: int| 0 <= i < right@.len() implies #[trigger] right@[i] < n by {
                let k = choose|k: int| 0 <= k < right_before.len() && right_before[k] == right@[i];
                assert(right_before[k] < n);
            }
        }
        replacement = Some(triangulate_cavity_region(points, triangles.as_slice(), cavity_indices.as_slice(), left.as_slice(), right.as_slice(), policy)?);
    }
    let replacement = match replacement {
        Some(found) => found,
        None => return Err(Error::NoEarFound),
    };
    if replacement.len() != cavity_indices.len() {
        return Err(Error::UnsupportedFeature { feature: "constraint cavity retriangulation changed triangle count" });
    }
    if !triangulation_has_edge(replacement.as_slice(), target) {
        return Err(Error::UnsupportedFeature { feature: "constraint cavity retriangulation omitted the target edge" });
    }
    let ghost before = triangles@;
    topology.replace_region(triangles, cavity_indices.as_slice(), replacement.as_slice(), None)?;
    proof {
        lemma_each_in_bounds(replacement@, n as int);
        lemma_replaced_in_bounds(before, cavity_indices@, replacement@, n as int);
        lemma_replacement_keeps_edge(before, cavity_indices@, replacement@, target, n as int);
    }
    Ok(())
}

/// Recover `constraint` as an edge of the mesh: nothing to do when it
/// already is one, else one flip or one exact cavity retriangulation. The
/// mesh keeps its triangle count and is unchanged when recovery fails.
pub fn recover_constraint(
    points: &[Point2],
    triangles: &mut Vec<Triangle>,
    topology: &mut TriangleTopology,
    constrained_edges: &[EdgeKey],
    constraint: Constraint,
    policy: PredicatePolicy,
) -> (r: Result<(), Error>)
    requires
        mesh_state(points@.len() as int, old(triangles)@, *old(topology)),
        pair_in_bounds(constraint.from, constraint.to, points@.len() as int),
        old(triangles)@.len() <= usize::MAX / 64,
    ensures
        mesh_state(points@.len() as int, final(triangles)@, *final(topology)),
        final(triangles)@.len() == old(triangles)@.len(),
        r is Err ==> *final(triangles) == *old(triangles) && *final(topology) == *old(topology),
        r is Ok ==> has_edge(final(triangles)@, edge_key(constraint.from, constraint.to)),
{
    match locate_constraint_from_endpoint(points, triangles.as_slice(), topology, constraint, policy)? {
        ConstraintLocation::ExistingEdge => Ok(()),
        ConstraintLocation::FirstCrossing(first) => recover_constraint_cavity(points, triangles, topology, constrained_edges, constraint, first, policy),
    }
}

/// Rank of an edge among the edges over `count` points: by its first
/// endpoint, then its second.
pub open spec fn edge_rank(edge: EdgeKey, count: int) -> int {
    edge.from * count + edge.to
}

/// Sum of the ranks of a triangle's three edges.
pub open spec fn triangle_rank(triangle: Triangle, count: int) -> int {
    edge_rank(tri_edge(triangle, 0), count) + edge_rank(tri_edge(triangle, 1), count) + edge_rank(tri_edge(triangle, 2), count)
}

/// Sum of the triangle ranks of a mesh: every flip to a lexicographically
/// smaller diagonal lowers it.
pub open spec fn mesh_rank(triangles: Seq<Triangle>, count: int) -> int
    decreases triangles.len(),
{
    if triangles.len() == 0 {
        0
    } else {
        mesh_rank(triangles.drop_last(), count) + triangle_rank(triangles.last(), count)
    }
}

proof fn lemma_edge_rank_nonneg(edge: EdgeKey, count: int)
    requires
        count >= 0,
    ensures
        edge_rank(edge, count) >= 0,
{
    assert(edge.from * count >= 0) by (nonlinear_arith)
        requires
            edge.from >= 0,
            count >= 0;
}

proof fn lemma_mesh_rank_nonneg(triangles: Seq<Triangle>, count: int)
    requires
        count >= 0,
    ensures
        mesh_rank(triangles, count) >= 0,
    decreases triangles.len(),
{
    if triangles.len() > 0 {
        lemma_mesh_rank_nonneg(triangles.drop_last(), count);
        let t = triangles.last();
        lemma_edge_rank_nonneg(tri_edge(t, 0), count);
        lemma_edge_rank_nonneg(tri_edge(t, 1), count);
        lemma_edge_rank_nonneg(tri_edge(t, 2), count);
    }
}

proof fn lemma_mesh_rank_update(triangles: Seq<Triangle>, i: int, triangle: Triangle, count: int)
    requires
        0 <= i < triangles.len(),
    ensures
        mesh_rank(triangles.update(i, triangle), count) == mesh_rank(triangles, count) - triangle_rank(triangles[i], count) + triangle_rank(triangle, count),
    decreases triangles.len(),
{
    let updated = triangles.update(i, triangle);
    if i == triangles.len() - 1 {
        assert(updated.drop_last() =~= triangles.drop_last());
    } else {
        assert(updated.drop_last() =~= triangles.drop_last().update(i, triangle));
        lemma_mesh_rank_update(triangles.drop_last(), i, triangle, count);
    }
}

/// A lexicographically smaller edge over the points has a smaller rank.
proof fn lemma_edge_rank_order(a: EdgeKey, b: EdgeKey, count: int)
    requires
        edge_lt(a, b),
        a.to < count,
        b.to < count,
    ensures
        edge_rank(a, count) < edge_rank(b, count),
{
    if a.from < b.from {
        assert(a.from * count + count <= b.from * count) by (nonlinear_arith)
            requires
                a.from + 1 <= b.from,
                count >= 0;
    }
}

/// The rank of a triangle whose vertices are three distinct given ones.
proof fn lemma_triangle_rank_of_vertices(triangle: Triangle, a: usize, b: usize, c: usize, count: int)
    requires
        a != b,
        b != c,
        a != c,
        has_vertex(triangle, a as int),
        has_vertex(triangle, b as int),
        has_vertex(triangle, c as int),
    ensures
        triangle_rank(triangle, count) == edge_rank(edge_key(a, b), count) + edge_rank(edge_key(b, c), count) + edge_rank(edge_key(a, c), count),
{
}

/// Flipping an edge shared by two triangles to a lexicographically smaller
/// diagonal lowers the mesh rank.
proof fn lemma_flip_lowers_rank(
    before: Seq<Triangle>,
    after: Seq<Triangle>,
    points: Seq<Point2>,
    edge: EdgeKey,
    adjacent: [AdjacentTriangle; 2],
    policy: PredicatePolicy,
    count: int,
)
    requires
        flipped_in_place(before, after, points, edge, adjacent, policy),
        edge.from < edge.to < count,
        adjacent[0].opposite != adjacent[1].opposite,
        adjacent[0].opposite != edge.from && adjacent[0].opposite != edge.to,
        adjacent[1].opposite != edge.from && adjacent[1].opposite != edge.to,
        adjacent[0].opposite < count && adjacent[1].opposite < count,
        has_vertex(before[adjacent[0].triangle as int], edge.from as int) && has_vertex(before[adjacent[0].triangle as int], edge.to as int)
            && has_vertex(before[adjacent[0].triangle as int], adjacent[0].opposite as int),
        has_vertex(before[adjacent[1].triangle as int], edge.from as int) && has_vertex(before[adjacent[1].triangle as int], edge.to as int)
            && has_vertex(before[adjacent[1].triangle as int], adjacent[1].opposite as int),
        edge_lt(edge_key(adjacent[0].opposite, adjacent[1].opposite), edge),
    ensures
        mesh_rank(after, count) < mesh_rank(before, count),
{
    let lo = if adjacent[1].triangle < adjacent[0].triangle { adjacent[1] } else { adjacent[0] };
    let hi = if adjacent[1].triangle < adjacent[0].triangle { adjacent[0] } else { adjacent[1] };
    let rep = flip_replacement_result(points, edge, lo.opposite, hi.opposite, policy)->Ok_0;
    let mid = before.update(lo.triangle as int, rep[0]);
    lemma_mesh_rank_update(before, lo.triangle as int, rep[0], count);
    lemma_mesh_rank_update(mid, hi.triangle as int, rep[1], count);
    assert(mid[hi.triangle as int] == before[hi.triangle as int]);
    let p = lo.opposite;
    let q = hi.opposite;
    let f = edge.from;
    let t = edge.to;
    lemma_triangle_rank_of_vertices(before[lo.triangle as int], f, t, p, count);
    lemma_triangle_rank_of_vertices(before[hi.triangle as int], f, t, q, count);
    lemma_triangle_rank_of_vertices(rep[0], p, q, f, count);
    lemma_triangle_rank_of_vertices(rep[1], q, p, t, count);
    assert(edge_key(f, t) == edge);
    lemma_edge_rank_order(edge_key(adjacent[0].opposite, adjacent[1].opposite), edge, count);
    assert(edge_key(p, q) == edge_key(adjacent[0].opposite, adjacent[1].opposite));
    assert(edge_key(q, p) == edge_key(p, q));
    assert(edge_key(p, f) == edge_key(f, p));
    assert(edge_key(q, f) == edge_key(f, q));
    assert(edge_key(p, t) == edge_key(t, p));
    assert(edge_key(q, t) == edge_key(t, q));
}

/// Whether pending entry `a` orders strictly before `b`: by edge, then by
/// the queuing triangle.
pub open spec fn pending_lt(a: (EdgeKey, usize), b: (EdgeKey, usize)) -> bool {
    edge_lt(a.0, b.0) || (a.0 == b.0 && a.1 < b.1)
}

/// Every pending edge is an ordered key.
pub open spec fn pending_ordered(pending: Seq<(EdgeKey, usize)>) -> bool {
    forall|k: int| 0 <= k < pending.len() ==> (#[trigger] pending[k]).0.from <= pending[k].0.to
}

/// Remove and return the least pending entry.
pub(crate) fn pop_min_pending(pending: &mut Vec<(EdgeKey, usize)>) -> (r: (EdgeKey, usize))
    requires
        old(pending)@.len() > 0,
        pending_ordered(old(pending)@),
    ensures
        final(pending)@.len() == old(pending)@.len() - 1,
        pending_ordered(final(pending)@),
        r.0.from <= r.0.to,
        old(pending)@.contains(r),
        forall|k: int| 0 <= k < old(pending)@.len() ==> !pending_lt(#[trigger] old(pending)@[k], r),
{
    let mut best: usize = 0;
    let mut k: usize = 1;
    while k < pending.len()
        invariant
            1 <= k <= pending@.len(),
            best < pending@.len(),
            forall|j: int| 0 <= j < k ==> !pending_lt(#[trigger] pending@[j], pending@[best as int]),
        decreases pending@.len() - k,
    {
        let candidate = pending[k];
        let current = pending[best];
        if edge_less(candidate.0, current.0) || (candidate.0 == current.0 && candidate.1 < current.1) {
            best = k;
        }
        k = k + 1;
    }
    let ghost before = pending@;
    let r = pending.remove(best);
    proof {
        assert(before[best as int] == r);
        assert forall|j: int| 0 <= j < pending@.len() implies (#[trigger] pending@[j]).0.from <= pending@[j].0.to by {
            if j < best { assert(pending@[j] == before[j]); } else { assert(pending@[j] == before[j + 1]); }
        }
    }
    r
}

/// The entries queued for the first `upto` edge slots of a triangle: each
/// unconstrained edge whose slot has a neighbor, with the triangle.
pub open spec fn queued_edges(tri: Triangle, row: [Option<usize>; 3], constrained: Seq<EdgeKey>, triangle: usize, upto: int) -> Seq<(EdgeKey, usize)>
    decreases upto,
{
    if upto <= 0 {
        Seq::empty()
    } else {
        let rest = queued_edges(tri, row, constrained, triangle, upto - 1);
        let edge = tri_edge(tri, upto - 1);
        if row[upto - 1] is Some && !constrained.contains(edge) { rest.push((edge, triangle)) } else { rest }
    }
}

/// Queue every unconstrained edge of the triangle that has a neighbor.
pub(crate) fn enqueue_triangle_edges(
    triangles: &Vec<Triangle>,
    topology: &TriangleTopology,
    constrained_edges: &[EdgeKey],
    triangle: usize,
    pending: &mut Vec<(EdgeKey, usize)>,
)
    requires
        triangle < triangles@.len(),
        topology.neighbors@.len() == triangles@.len(),
        pending_ordered(old(pending)@),
    ensures
        pending_ordered(final(pending)@),
        final(pending)@ == old(pending)@ + queued_edges(triangles@[triangle as int], topology.neighbors@[triangle as int], constrained_edges@, triangle, 3),
{
    let edges = triangle_edges(triangles[triangle]);
    let mut slot: usize = 0;
    while slot < 3
        invariant
            0 <= slot <= 3,
            triangle < topology.neighbors@.len(),
            triangle < triangles@.len(),
            pending_ordered(pending@),
            pending@ == old(pending)@ + queued_edges(triangles@[triangle as int], topology.neighbors@[triangle as int], constrained_edges@, triangle, slot as int),
            forall|k: int| 0 <= k < 3 ==> #[trigger] edges[k] == tri_edge(triangles@[triangle as int], k),
        decreases 3 - slot,
    {
        let edge = edges[slot];
        proof { assert(edge == tri_edge(triangles@[triangle as int], slot as int)); }
        if topology.neighbors[triangle][slot].is_some() && !contains_edge(constrained_edges, edge) {
            let ghost before = pending@;
            pending.push((edge, triangle));
            proof {
                assert forall|k: int| 0 <= k < pending@.len() implies (#[trigger] pending@[k]).0.from <= pending@[k].0.to by {
                    if k < before.len() { assert(pending@[k] == before[k]); }
                }
            }
        }
        proof {
            assert(pending@ =~= old(pending)@ + queued_edges(triangles@[triangle as int], topology.neighbors@[triangle as int], constrained_edges@, triangle, slot + 1));
        }
        slot = slot + 1;
    }
}

/// Flip unconstrained edges to lexicographically smaller diagonals until
/// none can be, processing the least pending edge first and queuing the
/// edges of every flipped triangle again.
#[verifier::loop_isolation(false)]
#[verifier::rlimit(50)]
fn restore_unconstrained_edges(
    points: &[Point2],
    triangles: &mut Vec<Triangle>,
    constrained_edges: &[EdgeKey],
    topology: TriangleTopology,
    policy: PredicatePolicy,
) -> (r: Result<(), Error>)
    requires
        mesh_state(points@.len() as int, old(triangles)@, topology),
    ensures
        triangles_in_bounds(final(triangles)@, points@.len() as int),
        final(triangles)@.len() == old(triangles)@.len(),
{
    let n = points.len();
    let ghost len = triangles@.len();
    let mut topology = topology;
    let mut pending: Vec<(EdgeKey, usize)> = Vec::new();
    let mut triangle: usize = 0;
    while triangle < triangles.len()
        invariant
            mesh_state(n as int, triangles@, topology),
            pending_ordered(pending@),
        decreases triangles@.len() - triangle,
    {
        let edges = triangle_edges(triangles[triangle]);
        let mut slot: usize = 0;
        while slot < 3
            invariant
                0 <= slot <= 3,
                triangle < triangles@.len(),
                mesh_state(n as int, triangles@, topology),
                pending_ordered(pending@),
                forall|k: int| 0 <= k < 3 ==> #[trigger] edges[k] == tri_edge(triangles@[triangle as int], k),
            decreases 3 - slot,
        {
            let edge = edges[slot];
            proof { assert(edge == tri_edge(triangles@[triangle as int], slot as int)); }
            match topology.neighbors[triangle][slot] {
                Some(neighbor) => {
                    if triangle < neighbor && !contains_edge(constrained_edges, edge) {
                        let ghost before = pending@;
                        pending.push((edge, triangle));
                        proof {
                            assert forall|k: int| 0 <= k < pending@.len() implies (#[trigger] pending@[k]).0.from <= pending@[k].0.to by {
                                if k < before.len() { assert(pending@[k] == before[k]); }
                            }
                        }
                    }
                },
                None => {},
            }
            slot = slot + 1;
        }
        triangle = triangle + 1;
    }
    while pending.len() > 0
        invariant
            mesh_state(n as int, triangles@, topology),
            triangles@.len() == len,
            pending_ordered(pending@),
        decreases mesh_rank(triangles@, n as int), pending@.len(),
    {
        proof { lemma_mesh_rank_nonneg(triangles@, n as int); }
        let (edge, owner) = pop_min_pending(&mut pending);
        if contains_edge(constrained_edges, edge) {
            continue;
        }
        if owner >= triangles.len() || !triangle_contains_edge(triangles[owner], edge) {
            continue;
        }
        let neighbor = match topology.neighbor_across(triangles.as_slice(), owner, edge)? {
            Some(t) => t,
            None => continue,
        };
        let adjacent = adjacent_triangles(triangles.as_slice(), edge, [owner, neighbor])?;
        let p = adjacent[0].opposite;
        let q = adjacent[1].opposite;
        let ghost before = triangles@;
        proof {
            let to = triangles@[owner as int];
            let tn = triangles@[neighbor as int];
            assert(triangle_in_bounds(to, n as int)) by { assert(to[0] < n && to[1] < n && to[2] < n); }
            assert(triangle_in_bounds(tn, n as int)) by { assert(tn[0] < n && tn[1] < n && tn[2] < n); }
            assert(has_vertex(to, p as int));
            assert(has_vertex(tn, q as int));
            assert(has_vertex(tn, edge.from as int) && has_vertex(tn, edge.to as int));
            assert(edge.from < n && edge.to < n);
        }
        if !edge_less(EdgeKey::new(p, q), edge) {
            continue;
        }
        if !edge_is_flippable(points, edge, p, q, policy)? {
            continue;
        }
        replace_adjacent_edge_in_topology(points, triangles, &mut topology, edge, adjacent, policy)?;
        proof {
            lemma_flip_lowers_rank(before, triangles@, points@, edge, adjacent, policy, n as int);
            lemma_mesh_rank_nonneg(triangles@, n as int);
        }
        enqueue_triangle_edges(triangles, &topology, constrained_edges, adjacent[0].triangle, &mut pending);
        enqueue_triangle_edges(triangles, &topology, constrained_edges, adjacent[1].triangle, &mut pending);
    }
    Ok(())
}

/// A grouped edge with two owners names two distinct triangles, each of
/// which holds a use of that edge.
proof fn lemma_group_owners(uses: Seq<EdgeUse>, i: int, groups: Seq<(EdgeKey, Option<[usize; 2]>)>, m: int)
    requires
        edge_groups(uses, i) == Ok::<Seq<(EdgeKey, Option<[usize; 2]>)>, Error>(groups),
        0 <= m < groups.len(),
        groups[m].1 is Some,
    ensures
        uses.contains(EdgeUse { edge: groups[m].0, triangle: groups[m].1->Some_0[0] }),
        uses.contains(EdgeUse { edge: groups[m].0, triangle: groups[m].1->Some_0[1] }),
        groups[m].1->Some_0[0] != groups[m].1->Some_0[1],
    decreases uses.len() - i,
{
    if i < 0 || i >= uses.len() {
        assert(groups.len() == 0);
    } else {
        lemma_run_end_bounds(uses, i);
        let j = run_end(uses, i);
        let rest = edge_groups(uses, j)->Ok_0;
        if j - i == 1 {
            assert(groups == seq![(uses[i].edge, None::<[usize; 2]>)] + rest);
            if m > 0 {
                assert(groups[m] == rest[m - 1]);
                lemma_group_owners(uses, j, rest, m - 1);
            }
        } else {
            assert(j - i == 2);
            let g = (uses[i].edge, Some([uses[i].triangle, uses[i + 1].triangle]));
            assert(groups == seq![g] + rest);
            if m == 0 {
                assert(uses[i + 1].edge == uses[i].edge);
                assert(uses[i] == EdgeUse { edge: groups[m].0, triangle: groups[m].1->Some_0[0] });
                assert(uses[i + 1] == EdgeUse { edge: groups[m].0, triangle: groups[m].1->Some_0[1] });
            } else {
                assert(groups[m] == rest[m - 1]);
                lemma_group_owners(uses, j, rest, m - 1);
            }
        }
    }
}

/// Both owners of a grouped edge of a mesh's sorted uses are distinct
/// triangles of the mesh that have the edge's endpoints as vertices.
pub(crate) proof fn lemma_group_owner_triangles(triangles: Seq<Triangle>, groups: Seq<(EdgeKey, Option<[usize; 2]>)>, m: int)
    requires
        3 * triangles.len() <= usize::MAX,
        edge_groups(all_uses(triangles).sort_by(use_leq()), 0) == Ok::<Seq<(EdgeKey, Option<[usize; 2]>)>, Error>(groups),
        0 <= m < groups.len(),
        groups[m].1 is Some,
    ensures
        ({
            let owners = groups[m].1->Some_0;
            let edge = groups[m].0;
            &&& owners[0] != owners[1]
            &&& owners[0] < triangles.len() && owners[1] < triangles.len()
            &&& triangle_has_edge(triangles[owners[0] as int], edge)
            &&& triangle_has_edge(triangles[owners[1] as int], edge)
            &&& edge.from <= edge.to
        }),
{
    let all = all_uses(triangles);
    let sorted = all.sort_by(use_leq());
    lemma_use_leq_total();
    all.lemma_sort_by_ensures(use_leq());
    lemma_group_owners(sorted, 0, groups, m);
    let owners = groups[m].1->Some_0;
    let edge = groups[m].0;
    let first = EdgeUse { edge, triangle: owners[0] };
    let second = EdgeUse { edge, triangle: owners[1] };
    assert(all.contains(first));
    assert(all.contains(second));
    let u = choose|u: int| 0 <= u < all.len() && all[u] == first;
    let w = choose|w: int| 0 <= w < all.len() && all[w] == second;
    assert(all[u].triangle == owners[0]);
    assert(all[w].triangle == owners[1]);
    assert(0 <= u / 3 < triangles.len());
    assert(0 <= w / 3 < triangles.len());
    assert(u / 3 == owners[0] as int);
    assert(w / 3 == owners[1] as int);
    let tu = triangles[u / 3];
    let tw = triangles[w / 3];
    assert(tri_edge(tu, u % 3) == edge);
    assert(tri_edge(tw, w % 3) == edge);
    assert(0 <= u % 3 < 3);
    assert(0 <= w % 3 < 3);
    assert(triangle_has_edge(tu, edge));
    assert(triangle_has_edge(tw, edge));
    assert(edge.from <= edge.to);
}

/// Flipping an edge between two distinct triangles in place, each slot
/// taking the triangle on its own opposite vertex, lowers the mesh rank when
/// the new diagonal is lexicographically smaller.
proof fn lemma_direct_flip_lowers_rank(
    before: Seq<Triangle>,
    i: int,
    j: int,
    first: Triangle,
    second: Triangle,
    edge: EdgeKey,
    p: usize,
    q: usize,
    count: int,
)
    requires
        0 <= i < before.len(),
        0 <= j < before.len(),
        i != j,
        edge.from < edge.to < count,
        p != q,
        p != edge.from && p != edge.to && q != edge.from && q != edge.to,
        p < count && q < count,
        has_vertex(before[i], edge.from as int) && has_vertex(before[i], edge.to as int) && has_vertex(before[i], p as int),
        has_vertex(before[j], edge.from as int) && has_vertex(before[j], edge.to as int) && has_vertex(before[j], q as int),
        has_vertex(first, p as int) && has_vertex(first, q as int) && has_vertex(first, edge.from as int),
        has_vertex(second, p as int) && has_vertex(second, q as int) && has_vertex(second, edge.to as int),
        edge_lt(edge_key(p, q), edge),
    ensures
        mesh_rank(before.update(i, first).update(j, second), count) < mesh_rank(before, count),
{
    let mid = before.update(i, first);
    lemma_mesh_rank_update(before, i, first, count);
    lemma_mesh_rank_update(mid, j, second, count);
    let f = edge.from;
    let t = edge.to;
    lemma_triangle_rank_of_vertices(before[i], f, t, p, count);
    lemma_triangle_rank_of_vertices(before[j], f, t, q, count);
    lemma_triangle_rank_of_vertices(first, p, q, f, count);
    lemma_triangle_rank_of_vertices(second, p, q, t, count);
    assert(edge_key(f, t) == edge);
    lemma_edge_rank_order(edge_key(p, q), edge, count);
    assert(edge_key(p, f) == edge_key(f, p));
    assert(edge_key(q, f) == edge_key(f, q));
    assert(edge_key(p, t) == edge_key(t, p));
    assert(edge_key(q, t) == edge_key(t, q));
}

/// Whether the grouped edge is unconstrained, has two triangles, and flips
/// to a lexicographically smaller diagonal.
pub open spec fn group_flips(points: Seq<Point2>, triangles: Seq<Triangle>, constrained: Seq<EdgeKey>, group: (EdgeKey, Option<[usize; 2]>), policy: PredicatePolicy) -> bool {
    &&& !constrained.contains(group.0)
    &&& group.1 matches Some(o)
    &&& adjacent_of(triangles, group.0, o[0]) matches Ok(a)
    &&& adjacent_of(triangles, group.0, o[1]) matches Ok(b)
    &&& edge_lt(edge_key(a.opposite, b.opposite), group.0)
    &&& flippable_result(points, group.0, a.opposite, b.opposite, policy) == Ok::<bool, Error>(true)
}

/// No unconstrained interior edge of the mesh flips to a lexicographically
/// smaller diagonal.
pub open spec fn canonically_stable(points: Seq<Point2>, triangles: Seq<Triangle>, constrained: Seq<EdgeKey>, policy: PredicatePolicy) -> bool {
    edge_groups(all_uses(triangles).sort_by(use_leq()), 0) matches Ok(groups)
        ==> forall|k: int| 0 <= k < groups.len() ==> !group_flips(points, triangles, constrained, #[trigger] groups[k], policy)
}

/// The first unconstrained interior edge, in sorted edge order, that flips
/// to a lexicographically smaller diagonal, with its two triangles.
#[verifier::loop_isolation(false)]
fn first_canonical_flip(
    points: &[Point2],
    triangles: &Vec<Triangle>,
    groups: &Vec<(EdgeKey, Option<[usize; 2]>)>,
    constrained_edges: &[EdgeKey],
    policy: PredicatePolicy,
) -> (r: Result<Option<(EdgeKey, [AdjacentTriangle; 2])>, Error>)
    requires
        triangles_in_bounds(triangles@, points@.len() as int),
        3 * triangles@.len() <= usize::MAX,
        edge_groups(all_uses(triangles@).sort_by(use_leq()), 0) == Ok::<Seq<(EdgeKey, Option<[usize; 2]>)>, Error>(groups@),
    ensures
        r matches Ok(Some(found)) ==> canonical_flip(triangles@, points@.len() as int, found.0, found.1),
        policy_decides(policy) && fractions_valid(points@) && (forall|t: int| 0 <= t < triangles@.len() ==> nondegenerate(#[trigger] triangles@[t])) ==> r is Ok,
        r matches Ok(None) ==> forall|k: int| 0 <= k < groups@.len() ==> !group_flips(points@, triangles@, constrained_edges@, #[trigger] groups@[k], policy),
{
    let n = points.len();
    let mut k: usize = 0;
    while k < groups.len()
        invariant
            triangles_in_bounds(triangles@, n as int),
            3 * triangles@.len() <= usize::MAX,
            edge_groups(all_uses(triangles@).sort_by(use_leq()), 0) == Ok::<Seq<(EdgeKey, Option<[usize; 2]>)>, Error>(groups@),
            0 <= k <= groups@.len(),
            forall|j: int| 0 <= j < k ==> !group_flips(points@, triangles@, constrained_edges@, #[trigger] groups@[j], policy),
        decreases groups@.len() - k,
    {
        let (edge, owners) = groups[k];
        proof { assert(groups@[k as int] == (edge, owners)); }
        if !contains_edge(constrained_edges, edge) {
            match owners {
                None => {},
                Some(o) => {
                    proof {
                        lemma_group_owner_triangles(triangles@, groups@, k as int);
                    }
                    let adjacent = adjacent_triangles(triangles.as_slice(), edge, o)?;
                    let p = adjacent[0].opposite;
                    let q = adjacent[1].opposite;
                    proof {
                        let t0 = triangles@[o[0] as int];
                        let t1 = triangles@[o[1] as int];
                        assert(triangle_in_bounds(t0, n as int)) by { assert(t0[0] < n && t0[1] < n && t0[2] < n); }
                        assert(triangle_in_bounds(t1, n as int)) by { assert(t1[0] < n && t1[1] < n && t1[2] < n); }
                    }
                    if edge_less(EdgeKey::new(p, q), edge) {
                        if edge_is_flippable(points, edge, p, q, policy)? {
                            return Ok(Some((edge, adjacent)));
                        }
                    }
                },
            }
        }
        k = k + 1;
    }
    Ok(None)
}

/// What a selected canonical flip guarantees: two distinct in-range
/// triangles on the edge, strictly convex with distinct opposite vertices,
/// and a lexicographically smaller diagonal.
pub open spec fn canonical_flip(triangles: Seq<Triangle>, point_count: int, edge: EdgeKey, adjacent: [AdjacentTriangle; 2]) -> bool {
    let p = adjacent[0].opposite;
    let q = adjacent[1].opposite;
    &&& adjacent[0].triangle != adjacent[1].triangle
    &&& adjacent[0].triangle < triangles.len() && adjacent[1].triangle < triangles.len()
    &&& edge.from < edge.to < point_count
    &&& p != q && p != edge.from && p != edge.to && q != edge.from && q != edge.to
    &&& p < point_count && q < point_count
    &&& has_vertex(triangles[adjacent[0].triangle as int], edge.from as int) && has_vertex(triangles[adjacent[0].triangle as int], edge.to as int)
        && has_vertex(triangles[adjacent[0].triangle as int], p as int)
    &&& has_vertex(triangles[adjacent[1].triangle as int], edge.from as int) && has_vertex(triangles[adjacent[1].triangle as int], edge.to as int)
        && has_vertex(triangles[adjacent[1].triangle as int], q as int)
    &&& edge_lt(edge_key(p, q), edge)
}

/// Without retained adjacency: repeatedly rebuild the sorted edge uses and
/// flip the first unconstrained edge that goes to a lexicographically
/// smaller diagonal, until none does.
#[verifier::loop_isolation(false)]
fn restore_unconstrained_edges_by_scan(
    points: &[Point2],
    triangles: &mut Vec<Triangle>,
    constrained_edges: &[EdgeKey],
    policy: PredicatePolicy,
) -> (r: Result<(), Error>)
    requires
        triangles_in_bounds(old(triangles)@, points@.len() as int),
    ensures
        triangles_in_bounds(final(triangles)@, points@.len() as int),
        final(triangles)@.len() == old(triangles)@.len(),
        r is Ok ==> canonically_stable(points@, final(triangles)@, constrained_edges@, policy),
{
    let n = points.len();
    let ghost len = triangles@.len();
    let mut done = false;
    while !done
        invariant
            triangles_in_bounds(triangles@, n as int),
            triangles@.len() == len,
            done ==> canonically_stable(points@, triangles@, constrained_edges@, policy),
        decreases mesh_rank(triangles@, n as int), if done { 0int } else { 1int },
    {
        proof { lemma_mesh_rank_nonneg(triangles@, n as int); }
        let edges = TopologyEdges::new(triangles.as_slice())?;
        let groups = edges.collect_edges()?;
        proof {
            assert(forall|t: int| 0 <= t < triangles@.len() ==> nondegenerate(#[trigger] triangles@[t]));
        }
        match first_canonical_flip(points, triangles, &groups, constrained_edges, policy)? {
            None => {
                done = true;
            },
            Some((edge, adjacent)) => {
                let replacement = adjacent_edge_replacement(points, edge, adjacent, policy)?;
                let ghost before = triangles@;
                triangles.set(adjacent[0].triangle, replacement[0]);
                triangles.set(adjacent[1].triangle, replacement[1]);
                proof {
                    assert(triangles@ == before.update(adjacent[0].triangle as int, replacement[0]).update(adjacent[1].triangle as int, replacement[1]));
                    lemma_direct_flip_lowers_rank(before, adjacent[0].triangle as int, adjacent[1].triangle as int, replacement[0], replacement[1], edge, adjacent[0].opposite, adjacent[1].opposite, n as int);
                    lemma_mesh_rank_nonneg(triangles@, n as int);
                    assert forall|t: int, i: int| 0 <= t < triangles@.len() && 0 <= i < 3 implies #[trigger] triangles@[t][i] < n by {
                        if t == adjacent[1].triangle {
                            assert(triangle_in_bounds(replacement[1], n as int));
                        } else if t == adjacent[0].triangle {
                            assert(triangle_in_bounds(replacement[0], n as int));
                        } else {
                            assert(triangles@[t] == before[t]);
                        }
                    }
                }
            },
        }
    }
    Ok(())
}

/// Drive the unconstrained edges to one canonical choice: every retained
/// flip replaces an unconstrained diagonal by a lexicographically smaller
/// one, using the retained adjacency when there is one.
pub fn canonicalize_unconstrained_edges(
    points: &[Point2],
    triangles: &mut Vec<Triangle>,
    constrained_edges: &[EdgeKey],
    topology: Option<TriangleTopology>,
    policy: PredicatePolicy,
) -> (r: Result<(), Error>)
    requires
        triangles_in_bounds(old(triangles)@, points@.len() as int),
        topology matches Some(t) ==> t.neighbors@.len() == old(triangles)@.len(),
    ensures
        triangles_in_bounds(final(triangles)@, points@.len() as int),
        final(triangles)@.len() == old(triangles)@.len(),
        topology is None && r is Ok ==> canonically_stable(points@, final(triangles)@, constrained_edges@, policy),
{
    match topology {
        Some(retained) => restore_unconstrained_edges(points, triangles, constrained_edges, retained, policy),
        None => restore_unconstrained_edges_by_scan(points, triangles, constrained_edges, policy),
    }
}

/// Every constraint's endpoints name points of the list.
pub open spec fn constraints_in_bounds(constraints: Seq<Constraint>, point_count: int) -> bool {
    forall|k: int| 0 <= k < constraints.len() ==> pair_in_bounds(#[trigger] constraints[k].from, constraints[k].to, point_count)
}

/// The mesh after every constraint was recovered, the sorted protected
/// edges, and the retained adjacency once one was built.
pub struct RecoveredConstraints {
    /// The triangles.
    pub triangles: Vec<Triangle>,
    /// The recovered constraint edges, sorted without repeats.
    pub constrained_edges: Vec<EdgeKey>,
    /// The retained adjacency, when recovery built or was given one.
    pub topology: Option<TriangleTopology>,
}

/// Recover the constraints in order. While no adjacency is retained, a
/// constraint that is already an edge is only recorded; the first one that
/// is not builds the adjacency, which every later recovery then keeps.
#[verifier::loop_isolation(false)]
pub fn recover_constraints(
    points: &[Point2],
    triangles: Vec<Triangle>,
    constraints: &[Constraint],
    initial_topology: Option<Box<TriangleTopology>>,
    policy: PredicatePolicy,
) -> (r: Result<RecoveredConstraints, Error>)
    requires
        triangles_in_bounds(triangles@, points@.len() as int),
        triangles@.len() <= usize::MAX / 64,
        initial_topology matches Some(t) ==> t.neighbors@.len() == triangles@.len(),
        constraints_in_bounds(constraints@, points@.len() as int),
    ensures
        r matches Ok(rec) ==> {
            &&& triangles_in_bounds(rec.triangles@, points@.len() as int)
            &&& rec.triangles@.len() == triangles@.len()
            &&& edges_sorted(rec.constrained_edges@)
            &&& rec.topology matches Some(t) ==> t.neighbors@.len() == rec.triangles@.len()
        },
        initial_topology is None && (forall|k: int| 0 <= k < constraints@.len() ==> has_edge(triangles@, #[trigger] edge_key(constraints@[k].from, constraints@[k].to)))
            ==> (r matches Ok(rec) && rec.triangles@ == triangles@ && rec.topology is None),
{
    let n = points.len();
    let ghost original = triangles@;
    let mut triangles = triangles;
    let ghost len = triangles@.len();
    let mut constrained_edges: Vec<EdgeKey> = Vec::new();
    let mut topology: Option<TriangleTopology> = match initial_topology {
        Some(retained) => Some(*retained),
        None => None,
    };
    let mut k: usize = 0;
    while k < constraints.len()
        invariant
            n == points@.len(),
            triangles_in_bounds(triangles@, n as int),
            triangles@.len() == len,
            len <= usize::MAX / 64,
            edges_sorted(constrained_edges@),
            topology matches Some(t) ==> t.neighbors@.len() == triangles@.len(),
            constraints_in_bounds(constraints@, n as int),
            0 <= k <= constraints@.len(),
            initial_topology is None && (forall|j: int| 0 <= j < constraints@.len() ==> has_edge(original, #[trigger] edge_key(constraints@[j].from, constraints@[j].to)))
                ==> topology is None && triangles@ == original,
        decreases constraints@.len() - k,
    {
        let constraint = constraints[k];
        proof { assert(pair_in_bounds(constraints@[k as int].from, constraints@[k as int].to, n as int)); }
        let edge = EdgeKey::new(constraint.from, constraint.to);
        if topology.is_none() && triangulation_has_edge(triangles.as_slice(), edge) {
            push_unique_edge(&mut constrained_edges, edge);
        } else {
            assert(!(initial_topology is None && (forall|j: int| 0 <= j < constraints@.len() ==> has_edge(original, #[trigger] edge_key(constraints@[j].from, constraints@[j].to))))) by {
                if initial_topology is None && (forall|j: int| 0 <= j < constraints@.len() ==> has_edge(original, #[trigger] edge_key(constraints@[j].from, constraints@[j].to))) {
                    assert(has_edge(original, edge_key(constraints@[k as int].from, constraints@[k as int].to)));
                }
            }
            let previous = topology;
            topology = None;
            let mut retained = match previous {
                Some(t) => t,
                None => TriangleTopology::new(triangles.as_slice(), n)?,
            };
            recover_constraint(points, &mut triangles, &mut retained, constrained_edges.as_slice(), constraint, policy)?;
            topology = Some(retained);
            push_unique_edge(&mut constrained_edges, edge);
        }
        k = k + 1;
    }
    Ok(RecoveredConstraints { triangles, constrained_edges, topology })
}

/// Insert every constraint as an edge of a triangulation of the points'
/// convex hull, then canonicalize the unconstrained edges; no empty-circle
/// quality is imposed.
pub fn insert_constraints_topology(
    points: &[Point2],
    triangles: Vec<Triangle>,
    constraints: &[Constraint],
    initial_topology: Option<Box<TriangleTopology>>,
    policy: PredicatePolicy,
) -> (r: Result<Vec<Triangle>, Error>)
    requires
        triangles_in_bounds(triangles@, points@.len() as int),
        triangles@.len() <= usize::MAX / 64,
        initial_topology matches Some(t) ==> t.neighbors@.len() == triangles@.len(),
        constraints_in_bounds(constraints@, points@.len() as int),
    ensures
        r matches Ok(t) ==> triangles_in_bounds(t@, points@.len() as int) && t@.len() == triangles@.len(),
        r matches Ok(t) ==> forall|k: int| 0 <= k < constraints@.len() ==>
            has_edge(t@, #[trigger] edge_key(constraints@[k].from, constraints@[k].to)),
{
    let recovered = recover_constraints(points, triangles, constraints, initial_topology, policy)?;
    let RecoveredConstraints { triangles: mut triangles, constrained_edges, topology } = recovered;
    canonicalize_unconstrained_edges(points, &mut triangles, constrained_edges.as_slice(), topology, policy)?;
    if !all_constraints_present(triangles.as_slice(), constraints) {
        return Err(Error::InvalidInput { reason: "constraint edge missing from triangulation" });
    }
    Ok(triangles)
}

/// Whether every constraint is already an edge of the triangles.
pub(crate) fn all_constraints_present(triangles: &[Triangle], constraints: &[Constraint]) -> (r: bool)
    ensures
        r == forall|k: int| 0 <= k < constraints@.len() ==>
            has_edge(triangles@, #[trigger] edge_key(constraints@[k].from, constraints@[k].to)),
{
    let mut k: usize = 0;
    while k < constraints.len()
        invariant
            0 <= k <= constraints@.len(),
            forall|j: int| 0 <= j < k ==> has_edge(triangles@, #[trigger] edge_key(constraints@[j].from, constraints@[j].to)),
        decreases constraints@.len() - k,
    {
        let edge = EdgeKey::new(constraints[k].from, constraints[k].to);
        if !triangulation_has_edge(triangles, edge) {
            proof {
                assert(edge == edge_key(constraints@[k as int].from, constraints@[k as int].to));
            }
            return false;
        }
        k = k + 1;
    }
    true
}


} // verus!
