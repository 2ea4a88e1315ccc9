//! Exact validation of planar Delaunay and constrained-Delaunay topology:
//! triangle indices and winding, edge adjacency, protected constraint edges,
//! convex-hull coverage and the local empty-circle condition.
use vstd::prelude::*;
use crate::context::PredicatePolicy;
use crate::error::Error;
use crate::predicates::{incircle2, incircle2_result, orient2, orient2_result};
use crate::topology::{edge_key, edge_less, edge_lt, edges_sorted, push_unique_edge, signs_strictly_differ, use_edge, EdgeKey};
use crate::types::{Constraint, Point2, Sign, Triangle};

verus! {

/// One use of an edge by a triangle, with the triangle's vertex opposite it.
#[derive(Clone, Copy, Debug, PartialEq, Eq, Structural)]
pub struct OppositeUse {
    /// The undirected edge.
    pub edge: EdgeKey,
    /// The triangle using it.
    pub triangle: usize,
    /// The triangle's vertex not on the edge.
    pub opposite: usize,
}

/// Order of uses: by edge, then triangle, then opposite vertex.
pub open spec fn opposite_leq() -> spec_fn(OppositeUse, OppositeUse) -> bool {
    |a: OppositeUse, b: OppositeUse| edge_lt(a.edge, b.edge)
        || (a.edge == b.edge && (a.triangle < b.triangle || (a.triangle == b.triangle && a.opposite <= b.opposite)))
}

/// `opposite_leq` is a total order.
pub proof fn lemma_opposite_leq_total()
    ensures
        vstd::relations::total_ordering(opposite_leq()),
{
}

/// The vertex of a triangle opposite its edge `slot`.
pub open spec fn opposite_of_slot(triangle: Triangle, slot: int) -> usize {
    triangle[(slot + 2) % 3]
}

/// The uses of a triangle list in triangle and slot order.
pub open spec fn opposite_uses(triangles: Seq<Triangle>) -> Seq<OppositeUse> {
    Seq::new((3 * triangles.len()) as nat, |u: int| OppositeUse {
        edge: use_edge(triangles, u),
        triangle: (u / 3) as usize,
        opposite: opposite_of_slot(triangles[u / 3], u % 3),
    })
}

/// The uses of a triangle list, sorted.
pub open spec fn sorted_uses(triangles: Seq<Triangle>) -> Seq<OppositeUse> {
    opposite_uses(triangles).sort_by(opposite_leq())
}

/// Whether use `a` orders at or before `b`.
fn opposite_less_eq(a: OppositeUse, b: OppositeUse) -> (r: bool)
    ensures
        r == opposite_leq()(a, b),
{
    edge_less(a.edge, b.edge) || (a.edge == b.edge && (a.triangle < b.triangle || (a.triangle == b.triangle && a.opposite <= b.opposite)))
}

/// Sort uses in place.
fn sort_opposite_uses(v: &mut Vec<OppositeUse>)
    ensures
        final(v)@ == old(v)@.sort_by(opposite_leq()),
{
    let ghost original = v@;
    let n = v.len();
    proof { lemma_opposite_leq_total(); }
    if n == 0 {
        proof {
            original.lemma_sort_by_ensures(opposite_leq());
            vstd::seq_lib::lemma_sorted_unique(v@, original.sort_by(opposite_leq()), opposite_leq());
        }
        return;
    }
    let mut i: usize = 1;
    while i < n
        invariant
            1 <= i <= n,
            n == v@.len(),
            v@.to_multiset() == original.to_multiset(),
            vstd::relations::total_ordering(opposite_leq()),
            forall|a: int, b: int| 0 <= a < b < i ==> opposite_leq()(#[trigger] v@[a], #[trigger] v@[b]),
        decreases n - i,
    {
        let mut j = i;
        while j > 0 && !opposite_less_eq(v[j - 1], v[j])
            invariant
                0 <= j <= i < n,
                n == v@.len(),
                v@.to_multiset() == original.to_multiset(),
                vstd::relations::total_ordering(opposite_leq()),
                forall|a: int, b: int| 0 <= a < b <= i && a != j && b != j ==> opposite_leq()(#[trigger] v@[a], #[trigger] v@[b]),
                forall|b: int| j < b <= i ==> opposite_leq()(v@[j as int], #[trigger] v@[b]),
            decreases j,
        {
            let x = v[j - 1];
            let y = v[j];
            let ghost before = v@;
            v.set(j - 1, y);
            v.set(j, x);
            proof {
                assert(v@ =~= before.update(j - 1, before[j as int]).update(j as int, before[j - 1]));
                crate::seqs::lemma_seq_swap_multiset(before, j - 1, j as int);
            }
            j = j - 1;
        }
        proof {
            assert forall|a: int, b: int| 0 <= a < b < i + 1 implies opposite_leq()(#[trigger] v@[a], #[trigger] v@[b]) by {
                if b == j && a < j {
                    assert(opposite_leq()(v@[j - 1], v@[j as int]));
                    if a < j - 1 {
                        assert(opposite_leq()(v@[a], v@[j - 1]));
                    }
                }
            }
        }
        i = i + 1;
    }
    proof {
        original.lemma_sort_by_ensures(opposite_leq());
        vstd::seq_lib::lemma_sorted_unique(v@, original.sort_by(opposite_leq()), opposite_leq());
    }
}

/// The uses of every triangle edge, sorted by edge, triangle and opposite
/// vertex.
pub fn sorted_edge_uses(triangles: &[Triangle]) -> (r: Vec<OppositeUse>)
    requires
        3 * triangles@.len() <= usize::MAX,
    ensures
        r@ == sorted_uses(triangles@),
{
    let mut uses: Vec<OppositeUse> = Vec::new();
    let mut t: usize = 0;
    while t < triangles.len()
        invariant
            0 <= t <= triangles@.len(),
            3 * triangles@.len() <= usize::MAX,
            uses@ == opposite_uses(triangles@).subrange(0, 3 * t as int),
        decreases triangles.len() - t,
    {
        let tri = triangles[t];
        uses.push(OppositeUse { edge: EdgeKey::new(tri[0], tri[1]), triangle: t, opposite: tri[2] });
        uses.push(OppositeUse { edge: EdgeKey::new(tri[1], tri[2]), triangle: t, opposite: tri[0] });
        uses.push(OppositeUse { edge: EdgeKey::new(tri[2], tri[0]), triangle: t, opposite: tri[1] });
        proof {
            let all = opposite_uses(triangles@);
            assert((3 * t) / 3 == t && (3 * t + 1) / 3 == t && (3 * t + 2) / 3 == t);
            assert((3 * t) % 3 == 0 && (3 * t + 1) % 3 == 1 && (3 * t + 2) % 3 == 2);
            assert(uses@ =~= all.subrange(0, 3 * (t + 1)));
        }
        t = t + 1;
    }
    proof {
        assert(opposite_uses(triangles@).subrange(0, 3 * triangles@.len() as int) =~= opposite_uses(triangles@));
    }
    sort_opposite_uses(&mut uses);
    uses
}

/// Why one constraint is malformed for `point_count` points, if it is.
pub open spec fn constraint_error(constraint: Constraint, point_count: int) -> Option<&'static str> {
    if constraint.from >= point_count || constraint.to >= point_count {
        Some("constraint edge index out of bounds")
    } else if constraint.from == constraint.to {
        Some("constraint edge endpoints must differ")
    } else {
        None
    }
}

/// The first malformed constraint among the first `k`, if any.
pub open spec fn constraints_error_upto(constraints: Seq<Constraint>, point_count: int, k: int) -> Option<&'static str>
    decreases k,
{
    if k <= 0 {
        None
    } else {
        match constraints_error_upto(constraints, point_count, k - 1) {
            Some(reason) => Some(reason),
            None => constraint_error(constraints[k - 1], point_count),
        }
    }
}

/// Check every constraint's indices, failing at the first malformed one.
pub fn validate_constraints(point_count: usize, constraints: &[Constraint]) -> (r: Result<(), Error>)
    ensures
        match constraints_error_upto(constraints@, point_count as int, constraints@.len() as int) {
            Some(reason) => r == Err::<(), Error>(Error::InvalidInput { reason }),
            None => r is Ok,
        },
{
    let mut i: usize = 0;
    while i < constraints.len()
        invariant
            0 <= i <= constraints@.len(),
            constraints_error_upto(constraints@, point_count as int, i as int) is None,
        decreases constraints.len() - i,
    {
        let constraint = constraints[i];
        if constraint.from >= point_count || constraint.to >= point_count {
            proof { lemma_constraints_error_settled(constraints@, point_count as int, i + 1, constraints@.len() as int); }
            return Err(Error::InvalidInput { reason: "constraint edge index out of bounds" });
        }
        if constraint.from == constraint.to {
            proof { lemma_constraints_error_settled(constraints@, point_count as int, i + 1, constraints@.len() as int); }
            return Err(Error::InvalidInput { reason: "constraint edge endpoints must differ" });
        }
        i = i + 1;
    }
    Ok(())
}

proof fn lemma_constraints_error_settled(constraints: Seq<Constraint>, point_count: int, k: int, m: int)
    requires
        0 <= k <= m,
        constraints_error_upto(constraints, point_count, k) is Some,
    ensures
        constraints_error_upto(constraints, point_count, m) == constraints_error_upto(constraints, point_count, k),
    decreases m - k,
{
    if m > k {
        lemma_constraints_error_settled(constraints, point_count, k, m - 1);
    }
}

/// Check one triangle against the winding seen so far: distinct in-range
/// indices, a decided nonzero orientation, and the same winding.
pub open spec fn triangle_check(points: Seq<Point2>, triangle: Triangle, policy: PredicatePolicy, winding: Option<Sign>) -> Result<Option<Sign>, Error> {
    if triangle[0] == triangle[1] || triangle[1] == triangle[2] || triangle[2] == triangle[0] {
        Err(Error::InvalidInput { reason: "triangle has duplicate vertex indices" })
    } else if triangle[0] >= points.len() || triangle[1] >= points.len() || triangle[2] >= points.len() {
        Err(Error::InvalidInput { reason: "triangle index out of bounds" })
    } else {
        match orient2_result(points, triangle[0] as int, triangle[1] as int, triangle[2] as int, policy) {
            Err(e) => Err(e),
            Ok(sign) => if sign == Sign::Zero {
                Err(Error::InvalidInput { reason: "triangle is degenerate" })
            } else if winding is Some && winding != Some(sign) {
                Err(Error::InvalidInput { reason: "triangle winding is inconsistent" })
            } else {
                Ok(Some(sign))
            },
        }
    }
}

/// Triangle checks over the first `k` triangles: the common winding so far,
/// or the first failure.
pub open spec fn triangles_check_upto(points: Seq<Point2>, triangles: Seq<Triangle>, policy: PredicatePolicy, k: int) -> Result<Option<Sign>, Error>
    decreases k,
{
    if k <= 0 {
        Ok(None)
    } else {
        match triangles_check_upto(points, triangles, policy, k - 1) {
            Err(e) => Err(e),
            Ok(winding) => triangle_check(points, triangles[k - 1], policy, winding),
        }
    }
}

/// The vertices of a triangle in increasing order.
pub open spec fn sorted_triangle(t: Triangle) -> Triangle {
    if t[0] <= t[1] {
        if t[1] <= t[2] { [t[0], t[1], t[2]] } else if t[0] <= t[2] { [t[0], t[2], t[1]] } else { [t[2], t[0], t[1]] }
    } else {
        if t[0] <= t[2] { [t[1], t[0], t[2]] } else if t[1] <= t[2] { [t[1], t[2], t[0]] } else { [t[2], t[1], t[0]] }
    }
}

/// Two triangles of the list have the same vertices.
pub open spec fn has_duplicate_triangle(triangles: Seq<Triangle>) -> bool {
    exists|i: int, j: int| 0 <= i < j < triangles.len() && #[trigger] sorted_triangle(triangles[i]) == #[trigger] sorted_triangle(triangles[j])
}

/// Triangle validation: every triangle checked in order, then no two
/// triangles on the same vertices; the common winding when all pass.
pub open spec fn triangles_validation(points: Seq<Point2>, triangles: Seq<Triangle>, policy: PredicatePolicy) -> Result<Option<Sign>, Error> {
    match triangles_check_upto(points, triangles, policy, triangles.len() as int) {
        Err(e) => Err(e),
        Ok(winding) => if has_duplicate_triangle(triangles) {
            Err(Error::InvalidInput { reason: "duplicate triangle" })
        } else {
            Ok(winding)
        },
    }
}

proof fn lemma_triangles_check_settled(points: Seq<Point2>, triangles: Seq<Triangle>, policy: PredicatePolicy, k: int, m: int)
    requires
        0 <= k <= m,
        triangles_check_upto(points, triangles, policy, k) is Err,
    ensures
        triangles_check_upto(points, triangles, policy, m) == triangles_check_upto(points, triangles, policy, k),
    decreases m - k,
{
    if m > k {
        lemma_triangles_check_settled(points, triangles, policy, k, m - 1);
    }
}

/// The vertices of a triangle in increasing order.
fn normalized_triangle(t: Triangle) -> (r: Triangle)
    ensures
        r == sorted_triangle(t),
{
    if t[0] <= t[1] {
        if t[1] <= t[2] { [t[0], t[1], t[2]] } else if t[0] <= t[2] { [t[0], t[2], t[1]] } else { [t[2], t[0], t[1]] }
    } else {
        if t[0] <= t[2] { [t[1], t[0], t[2]] } else if t[1] <= t[2] { [t[1], t[2], t[0]] } else { [t[2], t[1], t[0]] }
    }
}

/// Check triangle indices, orientation and winding, then that no two
/// triangles share their vertex set; the common winding when all pass.
#[verifier::loop_isolation(false)]
pub fn validate_triangles(points: &[Point2], triangles: &[Triangle], policy: PredicatePolicy) -> (r: Result<Option<Sign>, Error>)
    ensures
        r == triangles_validation(points@, triangles@, policy),
{
    let mut seen: Vec<Triangle> = Vec::new();
    let mut winding: Option<Sign> = None;
    let mut i: usize = 0;
    while i < triangles.len()
        invariant
            0 <= i <= triangles@.len(),
            triangles_check_upto(points@, triangles@, policy, i as int) == Ok::<Option<Sign>, Error>(winding),
            seen@.len() == i,
            forall|k: int| 0 <= k < i ==> #[trigger] seen@[k] == sorted_triangle(triangles@[k]),
        decreases triangles.len() - i,
    {
        let triangle = triangles[i];
        proof {
            assert(triangles_check_upto(points@, triangles@, policy, i + 1) == triangle_check(points@, triangle, policy, winding));
        }
        if triangle[0] == triangle[1] || triangle[1] == triangle[2] || triangle[2] == triangle[0] {
            proof { lemma_triangles_check_settled(points@, triangles@, policy, i + 1, triangles@.len() as int); }
            return Err(Error::InvalidInput { reason: "triangle has duplicate vertex indices" });
        }
        if triangle[0] >= points.len() || triangle[1] >= points.len() || triangle[2] >= points.len() {
            proof { lemma_triangles_check_settled(points@, triangles@, policy, i + 1, triangles@.len() as int); }
            return Err(Error::InvalidInput { reason: "triangle index out of bounds" });
        }
        let sign = match orient2(points, triangle[0], triangle[1], triangle[2], policy) {
            Ok(s) => s,
            Err(e) => {
                proof { lemma_triangles_check_settled(points@, triangles@, policy, i + 1, triangles@.len() as int); }
                return Err(e);
            },
        };
        if sign == Sign::Zero {
            proof { lemma_triangles_check_settled(points@, triangles@, policy, i + 1, triangles@.len() as int); }
            return Err(Error::InvalidInput { reason: "triangle is degenerate" });
        }
        match winding {
            Some(w) => {
                if w != sign {
                    proof { lemma_triangles_check_settled(points@, triangles@, policy, i + 1, triangles@.len() as int); }
                    return Err(Error::InvalidInput { reason: "triangle winding is inconsistent" });
                }
            },
            None => {},
        }
        winding = Some(sign);
        seen.push(normalized_triangle(triangle));
        i = i + 1;
    }
    let mut a: usize = 0;
    while a < seen.len()
        invariant
            0 <= a <= seen@.len(),
            seen@.len() == triangles@.len(),
            forall|k: int| 0 <= k < seen@.len() ==> #[trigger] seen@[k] == sorted_triangle(triangles@[k]),
            forall|x: int, y: int| 0 <= x < a && x < y < seen@.len() ==> seen@[x] != seen@[y],
        decreases seen@.len() - a,
    {
        let mut b: usize = a + 1;
        while b < seen.len()
            invariant
                a < seen@.len(),
                a + 1 <= b <= seen@.len(),
                forall|y: int| a < y < b ==> seen@[a as int] != #[trigger] seen@[y],
            decreases seen@.len() - b,
        {
            let left = seen[a];
            let right = seen[b];
            if left[0] == right[0] && left[1] == right[1] && left[2] == right[2] {
                proof {
                    assert(left =~= right);
                    assert(sorted_triangle(triangles@[a as int]) == sorted_triangle(triangles@[b as int]));
                }
                return Err(Error::InvalidInput { reason: "duplicate triangle" });
            }
            proof { assert(left != right) by { if left == right { assert(left[0] == right[0]); } } }
            b = b + 1;
        }
        a = a + 1;
    }
    proof {
        assert(!has_duplicate_triangle(triangles@)) by {
            if has_duplicate_triangle(triangles@) {
                let (x, y) = choose|x: int, y: int| 0 <= x < y < triangles@.len() && #[trigger] sorted_triangle(triangles@[x]) == #[trigger] sorted_triangle(triangles@[y]);
                assert(seen@[x] == seen@[y]);
            }
        }
    }
    Ok(winding)
}

/// Some edge is shared by three consecutive uses.
pub open spec fn has_triple_run(uses: Seq<OppositeUse>) -> bool {
    exists|i: int| 0 <= i && i + 2 < uses.len() && #[trigger] uses[i].edge == uses[i + 1].edge && uses[i + 1].edge == uses[i + 2].edge
}

/// Reject an edge used by more than two triangles: a run of more than two
/// consecutive uses of one edge.
pub fn validate_edge_adjacency(uses: &[OppositeUse]) -> (r: Result<(), Error>)
    ensures
        has_triple_run(uses@) ==> r == Err::<(), Error>(Error::InvalidInput { reason: "triangulation edge has more than two adjacent triangles" }),
        !has_triple_run(uses@) ==> r is Ok,
{
    let mut start: usize = 0;
    while start < uses.len()
        invariant
            0 <= start <= uses@.len(),
            start == 0 || start == uses@.len() || uses@[start - 1].edge != uses@[start as int].edge,
            forall|i: int| 0 <= i < start && i + 2 < uses@.len() ==> !(#[trigger] uses@[i].edge == uses@[i + 1].edge && uses@[i + 1].edge == uses@[i + 2].edge),
        decreases uses@.len() - start,
    {
        let mut end = start + 1;
        while end < uses.len() && uses[end].edge == uses[start].edge
            invariant
                start < end <= uses@.len(),
                forall|k: int| start <= k < end ==> #[trigger] uses@[k].edge == uses@[start as int].edge,
            decreases uses@.len() - end,
        {
            end = end + 1;
        }
        if end - start > 2 {
            proof {
                assert(uses@[start as int].edge == uses@[start + 1].edge && uses@[start + 1].edge == uses@[start + 2].edge);
            }
            return Err(Error::InvalidInput { reason: "triangulation edge has more than two adjacent triangles" });
        }
        proof {
            assert forall|i: int| 0 <= i < end && i + 2 < uses@.len() implies !(#[trigger] uses@[i].edge == uses@[i + 1].edge && uses@[i + 1].edge == uses@[i + 2].edge) by {
                if i >= start {
                    if i + 1 == end {
                        assert(uses@[i + 1].edge != uses@[start as int].edge);
                    } else {
                        assert(i + 2 == end);
                        assert(uses@[i + 2].edge != uses@[start as int].edge);
                    }
                }
            }
        }
        start = end;
    }
    Ok(())
}

/// Whether some use has the given edge.
pub fn uses_have_edge(uses: &[OppositeUse], edge: EdgeKey) -> (r: bool)
    ensures
        r == exists|k: int| 0 <= k < uses@.len() && #[trigger] uses@[k].edge == edge,
{
    let mut k: usize = 0;
    while k < uses.len()
        invariant
            0 <= k <= uses@.len(),
            forall|j: int| 0 <= j < k ==> #[trigger] uses@[j].edge != edge,
        decreases uses@.len() - k,
    {
        if uses[k].edge == edge {
            return true;
        }
        k = k + 1;
    }
    false
}

/// The undirected edges of a constraint list.
pub open spec fn constraint_edge_set(constraints: Seq<Constraint>) -> Set<EdgeKey> {
    constraints.map_values(|c: Constraint| edge_key(c.from, c.to)).to_set()
}

/// The distinct undirected constraint edges, strictly increasing.
pub fn sorted_constraint_edges(constraints: &[Constraint]) -> (r: Vec<EdgeKey>)
    ensures
        edges_sorted(r@),
        r@.to_set() == constraint_edge_set(constraints@),
{
    let mut edges: Vec<EdgeKey> = Vec::new();
    let mut i: usize = 0;
    proof {
        assert(edges@.to_set() =~= constraint_edge_set(constraints@.subrange(0, 0)));
    }
    while i < constraints.len()
        invariant
            0 <= i <= constraints@.len(),
            edges_sorted(edges@),
            edges@.to_set() == constraint_edge_set(constraints@.subrange(0, i as int)),
        decreases constraints.len() - i,
    {
        let c = constraints[i];
        push_unique_edge(&mut edges, EdgeKey::new(c.from, c.to));
        proof {
            let before = constraints@.subrange(0, i as int).map_values(|c: Constraint| edge_key(c.from, c.to));
            let after = constraints@.subrange(0, i + 1).map_values(|c: Constraint| edge_key(c.from, c.to));
            assert(after =~= before.push(edge_key(c.from, c.to)));
            before.lemma_push_to_set_commute(edge_key(c.from, c.to));
        }
        i = i + 1;
    }
    proof {
        assert(constraints@.subrange(0, constraints@.len() as int) =~= constraints@);
    }
    edges
}

/// Index one past the run of uses sharing the edge of `uses[i]`.
pub open spec fn use_run_end(uses: Seq<OppositeUse>, i: int) -> int
    decreases uses.len() - i,
{
    if i + 1 < uses.len() && uses[i + 1].edge == uses[i].edge {
        use_run_end(uses, i + 1)
    } else {
        i + 1
    }
}

proof fn lemma_use_run_end_bounds(uses: Seq<OppositeUse>, i: int)
    requires
        0 <= i < uses.len(),
    ensures
        i < use_run_end(uses, i) <= uses.len(),
        forall|k: int| i <= k < use_run_end(uses, i) ==> #[trigger] uses[k].edge == uses[i].edge,
        use_run_end(uses, i) < uses.len() ==> uses[use_run_end(uses, i)].edge != uses[i].edge,
    decreases uses.len() - i,
{
    if i + 1 < uses.len() && uses[i + 1].edge == uses[i].edge {
        lemma_use_run_end_bounds(uses, i + 1);
    }
}

/// Length of the run starting at `start`, scanning forward.
fn run_end_at(uses: &[OppositeUse], start: usize) -> (r: usize)
    requires
        start < uses@.len(),
    ensures
        r == use_run_end(uses@, start as int),
        start < r <= uses@.len(),
        forall|k: int| start <= k < r ==> #[trigger] uses@[k].edge == uses@[start as int].edge,
{
    proof { lemma_use_run_end_bounds(uses@, start as int); }
    let n = uses.len();
    let mut end = start + 1;
    while end < uses.len() && uses[end].edge == uses[start].edge
        invariant
            start < end <= uses@.len(),
            forall|k: int| start <= k < end ==> #[trigger] uses@[k].edge == uses@[start as int].edge,
            use_run_end(uses@, start as int) == use_run_end(uses@, end - 1),
        decreases uses@.len() - end,
    {
        assert(uses@[end - 1].edge == uses@[start as int].edge);
        end = end + 1;
    }
    assert(uses@[end - 1].edge == uses@[start as int].edge);
    end
}

/// Whether the points at `first` and `second` lie strictly on opposite sides
/// of `edge`, or the first undecided orientation.
pub open spec fn opposite_sides_result(points: Seq<Point2>, edge: EdgeKey, first: int, second: int, policy: PredicatePolicy) -> Result<bool, Error> {
    match orient2_result(points, edge.from as int, edge.to as int, first, policy) {
        Err(e) => Err(e),
        Ok(a) => match orient2_result(points, edge.from as int, edge.to as int, second, policy) {
            Err(e) => Err(e),
            Ok(b) => Ok((a == Sign::Negative && b == Sign::Positive) || (a == Sign::Positive && b == Sign::Negative)),
        },
    }
}

/// Whether `edge` with the opposite vertices `first` and `second` fails the
/// empty-circle test: `second` strictly inside the circle through the edge
/// and `first`, taken with that triangle's orientation.
pub open spec fn edge_illegal_result(points: Seq<Point2>, edge: EdgeKey, first: int, second: int, policy: PredicatePolicy) -> Result<bool, Error> {
    match orient2_result(points, edge.from as int, edge.to as int, first, policy) {
        Err(e) => Err(e),
        Ok(o) => if o == Sign::Zero {
            Ok(false)
        } else {
            match incircle2_result(points, edge.from as int, edge.to as int, first, second, policy) {
                Err(e) => Err(e),
                Ok(s) => Ok((o == Sign::Positive && s == Sign::Positive) || (o == Sign::Negative && s == Sign::Negative)),
            }
        },
    }
}

/// Local Delaunay check of the runs from position `i`: every unprotected
/// edge with exactly two uses separates its opposite vertices and passes the
/// empty-circle test; the first failure otherwise.
pub open spec fn local_delaunay_from(points: Seq<Point2>, uses: Seq<OppositeUse>, protected: Set<EdgeKey>, policy: PredicatePolicy, i: int) -> Result<(), Error>
    decreases uses.len() - i,
{
    if i < 0 || i >= uses.len() {
        Ok(())
    } else {
        let j = use_run_end(uses, i);
        if j <= i || j > uses.len() {
            Ok(())
        } else if protected.contains(uses[i].edge) || j - i != 2 {
            local_delaunay_from(points, uses, protected, policy, j)
        } else {
            let edge = uses[i].edge;
            match opposite_sides_result(points, edge, uses[i].opposite as int, uses[i + 1].opposite as int, policy) {
                Err(e) => Err(e),
                Ok(false) => Err(Error::InvalidInput { reason: "adjacent triangles are not on opposite sides of edge" }),
                Ok(true) => match edge_illegal_result(points, edge, uses[i].opposite as int, uses[i + 1].opposite as int, policy) {
                    Err(e) => Err(e),
                    Ok(true) => Err(Error::InvalidInput { reason: "unconstrained interior edge violates Delaunay legality" }),
                    Ok(false) => local_delaunay_from(points, uses, protected, policy, j),
                },
            }
        }
    }
}

/// Every use names points of the list.
pub open spec fn uses_in_bounds(uses: Seq<OppositeUse>, point_count: int) -> bool {
    forall|k: int| 0 <= k < uses.len() ==> (#[trigger] uses[k]).edge.from < point_count && uses[k].edge.to < point_count && uses[k].opposite < point_count
}

/// Whether the points at `first` and `second` lie strictly on opposite sides
/// of `edge`.
fn opposite_sides_of_edge(points: &[Point2], edge: EdgeKey, first: usize, second: usize, policy: PredicatePolicy) -> (r: Result<bool, Error>)
    requires
        edge.from < points@.len(),
        edge.to < points@.len(),
        first < points@.len(),
        second < points@.len(),
    ensures
        r == opposite_sides_result(points@, edge, first as int, second as int, policy),
{
    let first_side = orient2(points, edge.from, edge.to, first, policy)?;
    let second_side = orient2(points, edge.from, edge.to, second, policy)?;
    Ok(signs_strictly_differ(first_side, second_side))
}

/// Whether `edge` fails the empty-circle test against its two opposite
/// vertices.
fn edge_is_illegal(points: &[Point2], edge: EdgeKey, first: usize, second: usize, policy: PredicatePolicy) -> (r: Result<bool, Error>)
    requires
        edge.from < points@.len(),
        edge.to < points@.len(),
        first < points@.len(),
        second < points@.len(),
    ensures
        r == edge_illegal_result(points@, edge, first as int, second as int, policy),
{
    let orientation = orient2(points, edge.from, edge.to, first, policy)?;
    if orientation == Sign::Zero {
        return Ok(false);
    }
    let sign = incircle2(points, edge.from, edge.to, first, second, policy)?;
    Ok((orientation == Sign::Positive && sign == Sign::Positive) || (orientation == Sign::Negative && sign == Sign::Negative))
}

/// Whether `edges` holds `edge`.
fn edges_contain(edges: &[EdgeKey], edge: EdgeKey) -> (r: bool)
    ensures
        r == edges@.contains(edge),
{
    let mut k: usize = 0;
    while k < edges.len()
        invariant
            0 <= k <= edges@.len(),
            forall|j: int| 0 <= j < k ==> edges@[j] != edge,
        decreases edges@.len() - k,
    {
        if edges[k] == edge {
            assert(edges@[k as int] == edge);
            return true;
        }
        k = k + 1;
    }
    false
}

/// Check the local Delaunay condition on every unprotected edge shared by
/// exactly two uses, failing at the first violation.
pub fn validate_local_delaunay(points: &[Point2], uses: &[OppositeUse], protected: &[EdgeKey], policy: PredicatePolicy) -> (r: Result<(), Error>)
    requires
        uses_in_bounds(uses@, points@.len() as int),
    ensures
        r == local_delaunay_from(points@, uses@, protected@.to_set(), policy, 0),
{
    let mut start: usize = 0;
    while start < uses.len()
        invariant
            0 <= start <= uses@.len(),
            uses_in_bounds(uses@, points@.len() as int),
            local_delaunay_from(points@, uses@, protected@.to_set(), policy, 0) == local_delaunay_from(points@, uses@, protected@.to_set(), policy, start as int),
        decreases uses@.len() - start,
    {
        let end = run_end_at(uses, start);
        let edge = uses[start].edge;
        if edges_contain(protected, edge) || end - start != 2 {
            start = end;
            continue;
        }
        let first = uses[start].opposite;
        let second = uses[start + 1].opposite;
        assert(uses@[start as int] == uses@[start as int]);
        assert(uses@[start + 1] == uses@[start + 1]);
        if !opposite_sides_of_edge(points, edge, first, second, policy)? {
            return Err(Error::InvalidInput { reason: "adjacent triangles are not on opposite sides of edge" });
        }
        if edge_is_illegal(points, edge, first, second, policy)? {
            return Err(Error::InvalidInput { reason: "unconstrained interior edge violates Delaunay legality" });
        }
        start = end;
    }
    Ok(())
}

/// The first point after the first that differs from it, searching from `k`.
pub open spec fn first_distinct_from(points: Seq<Point2>, k: int) -> Option<int>
    decreases points.len() - k,
{
    if k < 1 || k >= points.len() {
        None
    } else if !points[0].same_point(points[k]) {
        Some(k)
    } else {
        first_distinct_from(points, k + 1)
    }
}

/// Collinearity of the first `k` points with the line through the first
/// point and the point at `second`: `Ok(false)` at the first point off the
/// line, the first undecided orientation, `Ok(true)` otherwise.
pub open spec fn collinear_upto(points: Seq<Point2>, second: int, policy: PredicatePolicy, k: int) -> Result<bool, Error>
    decreases k,
{
    if k <= 0 {
        Ok(true)
    } else {
        match collinear_upto(points, second, policy, k - 1) {
            Ok(true) => match orient2_result(points, 0, second, k - 1, policy) {
                Err(e) => Err(e),
                Ok(s) => Ok(s == Sign::Zero),
            },
            other => other,
        }
    }
}

/// Whether all points lie on one line: true for no points or when all equal
/// the first; otherwise every point against the first and the first point
/// distinct from it.
pub open spec fn collinear_result(points: Seq<Point2>, policy: PredicatePolicy) -> Result<bool, Error> {
    if points.len() == 0 {
        Ok(true)
    } else {
        match first_distinct_from(points, 1) {
            None => Ok(true),
            Some(second) => collinear_upto(points, second, policy, points.len() as int),
        }
    }
}

proof fn lemma_collinear_settled(points: Seq<Point2>, second: int, policy: PredicatePolicy, k: int, m: int)
    requires
        0 <= k <= m,
        collinear_upto(points, second, policy, k) != Ok::<bool, Error>(true),
    ensures
        collinear_upto(points, second, policy, m) == collinear_upto(points, second, policy, k),
    decreases m - k,
{
    if m > k {
        lemma_collinear_settled(points, second, policy, k, m - 1);
    }
}

proof fn lemma_first_distinct_bounds(points: Seq<Point2>, k: int)
    requires
        1 <= k,
    ensures
        first_distinct_from(points, k) matches Some(j) ==> k <= j < points.len() && !points[0].same_point(points[j]),
    decreases points.len() - k,
{
    if k < points.len() && points[0].same_point(points[k]) {
        lemma_first_distinct_bounds(points, k + 1);
    }
}

/// Decide whether all points lie on one line.
pub fn points_are_collinear(points: &[Point2], policy: PredicatePolicy) -> (r: Result<bool, Error>)
    ensures
        r == collinear_result(points@, policy),
{
    if points.len() == 0 {
        return Ok(true);
    }
    let mut k: usize = 1;
    while k < points.len() && points[0].exact_eq(&points[k])
        invariant
            1 <= k <= points@.len(),
            first_distinct_from(points@, 1) == first_distinct_from(points@, k as int),
        decreases points@.len() - k,
    {
        k = k + 1;
    }
    if k == points.len() {
        return Ok(true);
    }
    let second = k;
    proof { lemma_first_distinct_bounds(points@, 1); }
    let mut i: usize = 0;
    while i < points.len()
        invariant
            0 <= i <= points@.len(),
            second < points@.len(),
            first_distinct_from(points@, 1) == Some(second as int),
            collinear_upto(points@, second as int, policy, i as int) == Ok::<bool, Error>(true),
        decreases points@.len() - i,
    {
        let sign = match orient2(points, 0, second, i, policy) {
            Ok(s) => s,
            Err(e) => {
                proof { lemma_collinear_settled(points@, second as int, policy, i + 1, points@.len() as int); }
                return Err(e);
            },
        };
        if sign != Sign::Zero {
            proof { lemma_collinear_settled(points@, second as int, policy, i + 1, points@.len() as int); }
            return Ok(false);
        }
        i = i + 1;
    }
    Ok(true)
}

/// The sorted uses are the uses of the list, rearranged.
proof fn lemma_sorted_uses_members(triangles: Seq<Triangle>)
    ensures
        sorted_uses(triangles).len() == 3 * triangles.len(),
        forall|x: OppositeUse| #[trigger] sorted_uses(triangles).contains(x) <==> opposite_uses(triangles).contains(x),
{
    lemma_opposite_leq_total();
    let all = opposite_uses(triangles);
    let sorted = sorted_uses(triangles);
    all.lemma_sort_by_ensures(opposite_leq());
    broadcast use vstd::seq_lib::group_to_multiset_ensures;
    assert(all.to_multiset().len() == sorted.to_multiset().len());
    assert forall|x: OppositeUse| #[trigger] sorted.contains(x) <==> all.contains(x) by {
        assert(all.to_multiset().count(x) == sorted.to_multiset().count(x));
    }
}

/// Every vertex of every triangle is below `point_count`.
pub open spec fn triangles_in_bounds(triangles: Seq<Triangle>, point_count: int) -> bool {
    forall|t: int, i: int| 0 <= t < triangles.len() && 0 <= i < 3 ==> #[trigger] triangles[t][i] < point_count
}

/// Uses of in-range triangles name points in range.
proof fn lemma_sorted_uses_in_bounds(triangles: Seq<Triangle>, point_count: int)
    requires
        triangles_in_bounds(triangles, point_count),
    ensures
        uses_in_bounds(sorted_uses(triangles), point_count),
{
    lemma_sorted_uses_members(triangles);
    let sorted = sorted_uses(triangles);
    let all = opposite_uses(triangles);
    assert forall|k: int| 0 <= k < sorted.len() implies (#[trigger] sorted[k]).edge.from < point_count && sorted[k].edge.to < point_count && sorted[k].opposite < point_count by {
        assert(sorted.contains(sorted[k]));
        let u = choose|u: int| 0 <= u < all.len() && all[u] == sorted[k];
        let t = u / 3;
        assert(0 <= t < triangles.len());
        assert(triangles[t][0] < point_count && triangles[t][1] < point_count && triangles[t][2] < point_count);
    }
}

/// A passing prefix of triangle checks has distinct in-range vertices.
proof fn lemma_checked_triangles_in_bounds(points: Seq<Point2>, triangles: Seq<Triangle>, policy: PredicatePolicy, k: int)
    requires
        0 <= k <= triangles.len(),
        triangles_check_upto(points, triangles, policy, k) is Ok,
    ensures
        forall|t: int, i: int| 0 <= t < k && 0 <= i < 3 ==> #[trigger] triangles[t][i] < points.len(),
    decreases k,
{
    if k > 0 {
        lemma_checked_triangles_in_bounds(points, triangles, policy, k - 1);
        assert(triangle_check(points, triangles[k - 1], policy, triangles_check_upto(points, triangles, policy, k - 1)->Ok_0) is Ok);
    }
}

/// `edge` is an edge of some triangle.
pub open spec fn triangulation_edge(triangles: Seq<Triangle>, edge: EdgeKey) -> bool {
    exists|u: int| 0 <= u < 3 * triangles.len() && #[trigger] use_edge(triangles, u) == edge
}

/// Constraint topology: constraint indices, then the triangles, then no
/// edge with more than two uses, then every constraint edge present; the
/// common winding when all pass.
pub open spec fn constrained_topology_result(points: Seq<Point2>, constraints: Seq<Constraint>, triangles: Seq<Triangle>, policy: PredicatePolicy) -> Result<Option<Sign>, Error> {
    match constraints_error_upto(constraints, points.len() as int, constraints.len() as int) {
        Some(reason) => Err(Error::InvalidInput { reason }),
        None => match triangles_validation(points, triangles, policy) {
            Err(e) => Err(e),
            Ok(winding) => if has_triple_run(sorted_uses(triangles)) {
                Err(Error::InvalidInput { reason: "triangulation edge has more than two adjacent triangles" })
            } else if exists|i: int| 0 <= i < constraints.len() && !triangulation_edge(triangles, edge_key((#[trigger] constraints[i]).from, constraints[i].to)) {
                Err(Error::InvalidInput { reason: "constraint edge missing from triangulation" })
            } else {
                Ok(winding)
            },
        },
    }
}

/// Validate constraint indices, triangles and edge adjacency and find every
/// constraint edge; the sorted uses and common winding when all pass.
#[verifier::loop_isolation(false)]
fn validated_constrained_edge_uses(points: &[Point2], constraints: &[Constraint], triangles: &[Triangle], policy: PredicatePolicy)
    -> (r: Result<(Vec<OppositeUse>, Option<Sign>), Error>)
    requires
        3 * triangles@.len() <= usize::MAX,
    ensures
        match constrained_topology_result(points@, constraints@, triangles@, policy) {
            Ok(winding) => r matches Ok((uses, w)) && w == winding && uses@ == sorted_uses(triangles@),
            Err(e) => r == Err::<(Vec<OppositeUse>, Option<Sign>), Error>(e),
        },
        r is Ok ==> triangles_in_bounds(triangles@, points@.len() as int),
{
    validate_constraints(points.len(), constraints)?;
    let winding = validate_triangles(points, triangles, policy)?;
    proof {
        lemma_checked_triangles_in_bounds(points@, triangles@, policy, triangles@.len() as int);
    }
    let uses = sorted_edge_uses(triangles);
    validate_edge_adjacency(&uses)?;
    proof { lemma_sorted_uses_members(triangles@); }
    let mut i: usize = 0;
    while i < constraints.len()
        invariant
            0 <= i <= constraints@.len(),
            uses@ == sorted_uses(triangles@),
            forall|x: OppositeUse| #[trigger] sorted_uses(triangles@).contains(x) <==> opposite_uses(triangles@).contains(x),
            forall|j: int| 0 <= j < i ==> triangulation_edge(triangles@, edge_key((#[trigger] constraints@[j]).from, constraints@[j].to)),
        decreases constraints@.len() - i,
    {
        let c = constraints[i];
        let edge = EdgeKey::new(c.from, c.to);
        let found = uses_have_edge(&uses, edge);
        proof {
            let all = opposite_uses(triangles@);
            if found {
                let k = choose|k: int| 0 <= k < uses@.len() && #[trigger] uses@[k].edge == edge;
                assert(uses@.contains(uses@[k]));
                let u = choose|u: int| 0 <= u < all.len() && all[u] == uses@[k];
                assert(use_edge(triangles@, u) == edge);
            } else if triangulation_edge(triangles@, edge) {
                let u = choose|u: int| 0 <= u < 3 * triangles@.len() && #[trigger] use_edge(triangles@, u) == edge;
                assert(all.contains(all[u]));
                assert(sorted_uses(triangles@).contains(all[u]));
                let k = choose|k: int| 0 <= k < uses@.len() && uses@[k] == all[u];
                assert(uses@[k].edge == edge);
            }
        }
        if !found {
            proof {
                assert(constraints@[i as int] == c);
                assert(!triangulation_edge(triangles@, edge_key(constraints@[i as int].from, constraints@[i as int].to)));
            }
            return Err(Error::InvalidInput { reason: "constraint edge missing from triangulation" });
        }
        i = i + 1;
    }
    Ok((uses, winding))
}

/// Constrained topology, then the local Delaunay condition on every
/// interior edge that is not a constraint edge.
pub open spec fn constrained_delaunay_result(points: Seq<Point2>, constraints: Seq<Constraint>, triangles: Seq<Triangle>, policy: PredicatePolicy) -> Result<(), Error> {
    match constrained_topology_result(points, constraints, triangles, policy) {
        Err(e) => Err(e),
        Ok(_) => local_delaunay_from(points, sorted_uses(triangles), constraint_edge_set(constraints), policy, 0),
    }
}

/// Validate exact constrained triangulation topology without Delaunay
/// legality.
pub fn validate_constrained_topology(points: &[Point2], constraints: &[Constraint], triangles: &[Triangle], policy: PredicatePolicy) -> (r: Result<(), Error>)
    requires
        3 * triangles@.len() <= usize::MAX,
    ensures
        match constrained_topology_result(points@, constraints@, triangles@, policy) {
            Ok(_) => r is Ok,
            Err(e) => r == Err::<(), Error>(e),
        },
{
    validated_constrained_edge_uses(points, constraints, triangles, policy)?;
    Ok(())
}

/// Validate constrained topology and the local Delaunay condition on
/// unprotected interior edges.
pub fn validate_constrained_delaunay(points: &[Point2], constraints: &[Constraint], triangles: &[Triangle], policy: PredicatePolicy) -> (r: Result<(), Error>)
    requires
        3 * triangles@.len() <= usize::MAX,
    ensures
        r == constrained_delaunay_result(points@, constraints@, triangles@, policy),
{
    let (uses, _) = validated_constrained_edge_uses(points, constraints, triangles, policy)?;
    let protected = sorted_constraint_edges(constraints);
    proof { lemma_sorted_uses_in_bounds(triangles@, points@.len() as int); }
    validate_local_delaunay(points, &uses, &protected, policy)
}

/// `v` is a vertex of some triangle.
pub open spec fn vertex_used(triangles: Seq<Triangle>, v: int) -> bool {
    exists|t: int, i: int| 0 <= t < triangles.len() && 0 <= i < 3 && #[trigger] triangles[t][i] == v
}

/// Every triangle names points below `point_count`, and every such point is a
/// vertex of some triangle.
pub open spec fn covers_every_point(triangles: Seq<Triangle>, point_count: int) -> bool {
    triangles_in_bounds(triangles, point_count) && forall|v: int| 0 <= v < point_count ==> vertex_used(triangles, v)
}

/// Decide whether the triangles name exactly the points `0..point_count`.
fn uses_every_point(point_count: usize, triangles: &[Triangle]) -> (r: bool)
    ensures
        r == covers_every_point(triangles@, point_count as int),
{
    let mut used: Vec<bool> = Vec::new();
    let mut v: usize = 0;
    while v < point_count
        invariant
            0 <= v <= point_count,
            used@.len() == v,
            forall|k: int| 0 <= k < v ==> !#[trigger] used@[k],
        decreases point_count - v,
    {
        used.push(false);
        v = v + 1;
    }
    let mut t: usize = 0;
    while t < triangles.len()
        invariant
            0 <= t <= triangles@.len(),
            used@.len() == point_count,
            forall|k: int, i: int| 0 <= k < t && 0 <= i < 3 ==> #[trigger] triangles@[k][i] < point_count,
            forall|w: int| 0 <= w < point_count ==> (#[trigger] used@[w] <==> exists|k: int, i: int| 0 <= k < t && 0 <= i < 3 && #[trigger] triangles@[k][i] == w),
        decreases triangles@.len() - t,
    {
        let tri = triangles[t];
        if tri[0] >= point_count || tri[1] >= point_count || tri[2] >= point_count {
            proof {
                let i: int = if tri[0] >= point_count { 0 } else if tri[1] >= point_count { 1 } else { 2 };
                assert(triangles@[t as int][i] >= point_count);
            }
            return false;
        }
        let ghost before = used@;
        used.set(tri[0], true);
        used.set(tri[1], true);
        used.set(tri[2], true);
        proof {
            assert forall|w: int| 0 <= w < point_count implies (#[trigger] used@[w] <==> exists|k: int, i: int| 0 <= k < t + 1 && 0 <= i < 3 && #[trigger] triangles@[k][i] == w) by {
                if used@[w] && !before[w] {
                    let i: int = if tri[0] == w { 0 } else if tri[1] == w { 1 } else { 2 };
                    assert(triangles@[t as int][i] == w);
                }
                if before[w] {
                    let (k, i) = choose|k: int, i: int| 0 <= k < t && 0 <= i < 3 && #[trigger] triangles@[k][i] == w;
                    assert(0 <= k < t + 1 && triangles@[k][i] == w);
                }
                if exists|k: int, i: int| 0 <= k < t + 1 && 0 <= i < 3 && #[trigger] triangles@[k][i] == w {
                    let (k, i) = choose|k: int, i: int| 0 <= k < t + 1 && 0 <= i < 3 && #[trigger] triangles@[k][i] == w;
                    if k < t {
                        assert(before[w]);
                    } else {
                        assert(tri[i] == w);
                    }
                }
            }
        }
        t = t + 1;
    }
    let mut w: usize = 0;
    while w < point_count
        invariant
            0 <= w <= point_count,
            used@.len() == point_count,
            forall|k: int, i: int| 0 <= k < triangles@.len() && 0 <= i < 3 ==> #[trigger] triangles@[k][i] < point_count,
            forall|x: int| 0 <= x < point_count ==> (#[trigger] used@[x] <==> vertex_used(triangles@, x)),
            forall|x: int| 0 <= x < w ==> vertex_used(triangles@, x),
        decreases point_count - w,
    {
        if !used[w] {
            return false;
        }
        w = w + 1;
    }
    true
}

/// Summary of the runs of equal edges from position `i`: the edges used
/// once, the triangle pairs of edges used twice, and the number of distinct
/// edges; `None` when some edge has more than two uses.
pub open spec fn hull_runs(uses: Seq<OppositeUse>, i: int) -> Option<(Seq<EdgeKey>, Seq<(usize, usize)>, int)>
    decreases uses.len() - i,
{
    if i < 0 || i >= uses.len() {
        Some((Seq::empty(), Seq::empty(), 0))
    } else {
        let j = use_run_end(uses, i);
        if j <= i || j > uses.len() {
            Some((Seq::empty(), Seq::empty(), 0))
        } else {
            match hull_runs(uses, j) {
                None => None,
                Some((boundary, pairs, count)) => if j - i == 1 {
                    Some((seq![uses[i].edge] + boundary, pairs, count + 1))
                } else if j - i == 2 {
                    Some((boundary, seq![(uses[i].triangle, uses[i + 1].triangle)] + pairs, count + 1))
                } else {
                    None
                },
            }
        }
    }
}

/// Run summaries only name edges and triangles of the uses, and count at
/// most one edge per use.
proof fn lemma_hull_runs_members(uses: Seq<OppositeUse>, i: int)
    requires
        0 <= i,
        hull_runs(uses, i) is Some,
    ensures
        forall|k: int| 0 <= k < hull_runs(uses, i).unwrap().0.len() ==> exists|u: int| 0 <= u < uses.len() && uses[u].edge == #[trigger] hull_runs(uses, i).unwrap().0[k],
        forall|k: int| 0 <= k < hull_runs(uses, i).unwrap().1.len() ==> (exists|u: int| 0 <= u < uses.len() && uses[u].triangle == (#[trigger] hull_runs(uses, i).unwrap().1[k]).0)
            && (exists|u: int| 0 <= u < uses.len() && uses[u].triangle == hull_runs(uses, i).unwrap().1[k].1),
        0 <= hull_runs(uses, i).unwrap().2 <= (if i < uses.len() { uses.len() - i } else { 0 }),
        hull_runs(uses, i).unwrap().0.len() + hull_runs(uses, i).unwrap().1.len() == hull_runs(uses, i).unwrap().2,
    decreases uses.len() - i,
{
    if i < uses.len() {
        let j = use_run_end(uses, i);
        lemma_use_run_end_bounds(uses, i);
        lemma_hull_runs_members(uses, j);
        let (b, p, c) = hull_runs(uses, j)->0;
        let (b2, p2, c2) = hull_runs(uses, i)->0;
        if j - i == 1 {
            assert forall|k: int| 0 <= k < b2.len() implies exists|u: int| 0 <= u < uses.len() && uses[u].edge == #[trigger] b2[k] by {
                if k == 0 {
                    assert(uses[i].edge == b2[0]);
                } else {
                    assert(b2[k] == b[k - 1]);
                }
            }
        } else {
            assert forall|k: int| 0 <= k < p2.len() implies (exists|u: int| 0 <= u < uses.len() && uses[u].triangle == (#[trigger] p2[k]).0)
                && (exists|u: int| 0 <= u < uses.len() && uses[u].triangle == p2[k].1) by {
                if k == 0 {
                    assert(uses[i].triangle == p2[0].0);
                    assert(uses[i + 1].triangle == p2[0].1);
                } else {
                    assert(p2[k] == p[k - 1]);
                }
            }
        }
    }
}

/// Summarize the runs of equal edges: single-use edges in order, the
/// triangle pairs of two-use edges in order, and the number of distinct
/// edges; `None` at an edge with more than two uses.
fn summarize_runs(uses: &[OppositeUse]) -> (r: Option<(Vec<EdgeKey>, Vec<(usize, usize)>, usize)>)
    ensures
        match hull_runs(uses@, 0) {
            None => r is None,
            Some((boundary, pairs, count)) => r matches Some((b, p, c)) && b@ == boundary && p@ == pairs && c == count,
        },
{
    let mut boundary: Vec<EdgeKey> = Vec::new();
    let mut pairs: Vec<(usize, usize)> = Vec::new();
    let mut count: usize = 0;
    let mut start: usize = 0;
    while start < uses.len()
        invariant
            0 <= start <= uses@.len(),
            count <= start,
            match hull_runs(uses@, 0) {
                None => hull_runs(uses@, start as int) is None,
                Some((b, p, c)) => hull_runs(uses@, start as int) matches Some((b1, p1, c1))
                    && b == boundary@ + b1 && p == pairs@ + p1 && c == count + c1,
            },
        decreases uses@.len() - start,
    {
        let end = run_end_at(uses, start);
        let ghost rest = hull_runs(uses@, end as int);
        if end - start == 1 {
            proof {
                if rest is Some {
                    let (b1, p1, c1) = rest->0;
                    assert(boundary@.push(uses@[start as int].edge) + b1 =~= boundary@ + (seq![uses@[start as int].edge] + b1));
                }
            }
            boundary.push(uses[start].edge);
        } else if end - start == 2 {
            proof {
                if rest is Some {
                    let (b1, p1, c1) = rest->0;
                    let pair = (uses@[start as int].triangle, uses@[start + 1].triangle);
                    assert(pairs@.push(pair) + p1 =~= pairs@ + (seq![pair] + p1));
                }
            }
            pairs.push((uses[start].triangle, uses[start + 1].triangle));
        } else {
            return None;
        }
        count = count + 1;
        start = end;
    }
    proof {
        assert(boundary@ + Seq::<EdgeKey>::empty() =~= boundary@);
        assert(pairs@ + Seq::<(usize, usize)>::empty() =~= pairs@);
    }
    Some((boundary, pairs, count))
}

/// `s` holds both triangles of each pair or neither.
pub open spec fn closed_under(s: Set<int>, pairs: Seq<(usize, usize)>) -> bool {
    forall|k: int| 0 <= k < pairs.len() ==> (s.contains((#[trigger] pairs[k]).0 as int) <==> s.contains(pairs[k].1 as int))
}

/// The triangles `0..count` form one component of the graph whose edges are
/// the pairs: every set closed under the pairs that holds triangle 0 holds
/// them all.
pub open spec fn connected(count: int, pairs: Seq<(usize, usize)>) -> bool {
    forall|s: Set<int>| #[trigger] closed_under(s, pairs) && s.contains(0) ==> forall|t: int| 0 <= t < count ==> s.contains(t)
}

/// Component labels: equal labels lie in the same component.
pub open spec fn labels_sound(labels: Seq<usize>, pairs: Seq<(usize, usize)>) -> bool {
    forall|s: Set<int>, x: int, y: int| #![trigger closed_under(s, pairs), labels[x], labels[y]]
        closed_under(s, pairs) && 0 <= x < labels.len() && 0 <= y < labels.len() && labels[x] == labels[y]
            ==> (s.contains(x) <==> s.contains(y))
}

/// Decide whether the triangles `0..count` form one component of the graph
/// whose edges are the pairs, by merging component labels.
#[verifier::loop_isolation(false)]
fn pairs_connected(count: usize, pairs: &[(usize, usize)]) -> (r: bool)
    requires
        count >= 1,
        forall|k: int| 0 <= k < pairs@.len() ==> (#[trigger] pairs@[k]).0 < count && pairs@[k].1 < count,
    ensures
        r == connected(count as int, pairs@),
{
    let mut labels: Vec<usize> = Vec::new();
    let mut t: usize = 0;
    while t < count
        invariant
            0 <= t <= count,
            labels@.len() == t,
            forall|k: int| 0 <= k < t ==> #[trigger] labels@[k] == k,
        decreases count - t,
    {
        labels.push(t);
        t = t + 1;
    }
    proof {
        assert forall|s: Set<int>, x: int, y: int| #![trigger closed_under(s, pairs@.subrange(0, 0)), labels@[x], labels@[y]]
            closed_under(s, pairs@.subrange(0, 0)) && 0 <= x < labels@.len() && 0 <= y < labels@.len() && labels@[x] == labels@[y]
            implies (s.contains(x) <==> s.contains(y)) by {
            assert(x == y);
        }
    }
    let mut p: usize = 0;
    while p < pairs.len()
        invariant
            0 <= p <= pairs@.len(),
            labels@.len() == count,
            forall|k: int| 0 <= k < pairs@.len() ==> (#[trigger] pairs@[k]).0 < count && pairs@[k].1 < count,
            forall|k: int| 0 <= k < p ==> labels@[(#[trigger] pairs@[k]).0 as int] == labels@[pairs@[k].1 as int],
            labels_sound(labels@, pairs@.subrange(0, p as int)),
        decreases pairs@.len() - p,
    {
        let (a, b) = pairs[p];
        let la = labels[a];
        let lb = labels[b];
        let ghost old_labels = labels@;
        let ghost done = pairs@.subrange(0, p as int);
        let ghost next = pairs@.subrange(0, p + 1);
        if la != lb {
            let mut t: usize = 0;
            while t < count
                invariant
                    0 <= t <= count,
                    labels@.len() == count,
                    old_labels.len() == count,
                    forall|k: int| 0 <= k < t ==> #[trigger] labels@[k] == (if old_labels[k] == lb { la } else { old_labels[k] }),
                    forall|k: int| t <= k < count ==> #[trigger] labels@[k] == old_labels[k],
                decreases count - t,
            {
                if labels[t] == lb {
                    labels.set(t, la);
                }
                t = t + 1;
            }
        }
        proof {
            assert forall|s: Set<int>| #[trigger] closed_under(s, next) implies closed_under(s, done) by {
                assert forall|k: int| 0 <= k < done.len() implies (s.contains((#[trigger] done[k]).0 as int) <==> s.contains(done[k].1 as int)) by {
                    assert(done[k] == next[k]);
                }
            }
            assert forall|s: Set<int>, x: int, y: int| #![trigger closed_under(s, next), labels@[x], labels@[y]]
                closed_under(s, next) && 0 <= x < labels@.len() && 0 <= y < labels@.len() && labels@[x] == labels@[y]
                implies (s.contains(x) <==> s.contains(y)) by {
                assert(closed_under(s, done));
                assert(next[p as int] == (a, b));
                assert(s.contains(a as int) <==> s.contains(b as int));
                let ox = old_labels[x];
                let oy = old_labels[y];
                assert(old_labels[a as int] == la && old_labels[b as int] == lb);
                if ox == oy {
                    assert(labels_sound(old_labels, done));
                    assert(s.contains(x) <==> s.contains(y));
                } else {
                    assert(la != lb);
                    if ox == lb {
                        assert(oy == la);
                        assert(s.contains(x) <==> s.contains(b as int));
                        assert(s.contains(y) <==> s.contains(a as int));
                    } else {
                        assert(oy == lb && ox == la);
                        assert(s.contains(y) <==> s.contains(b as int));
                        assert(s.contains(x) <==> s.contains(a as int));
                    }
                }
            }
            assert forall|k: int| 0 <= k < p + 1 implies labels@[(#[trigger] pairs@[k]).0 as int] == labels@[pairs@[k].1 as int] by {
                if k < p {
                    assert(old_labels[pairs@[k].0 as int] == old_labels[pairs@[k].1 as int]);
                }
            }
        }
        p = p + 1;
    }
    proof {
        assert(pairs@.subrange(0, pairs@.len() as int) =~= pairs@);
    }
    let mut t: usize = 1;
    while t < count
        invariant
            1 <= t <= count,
            labels@.len() == count,
            forall|k: int| 0 <= k < t ==> #[trigger] labels@[k] == labels@[0],
        decreases count - t,
    {
        if labels[t] != labels[0] {
            proof {
                let comp = Set::new(|x: int| 0 <= x < count && labels@[x] == labels@[0]);
                assert(closed_under(comp, pairs@)) by {
                    assert forall|k: int| 0 <= k < pairs@.len() implies (comp.contains((#[trigger] pairs@[k]).0 as int) <==> comp.contains(pairs@[k].1 as int)) by {
                        assert(labels@[pairs@[k].0 as int] == labels@[pairs@[k].1 as int]);
                    }
                }
                assert(comp.contains(0));
                assert(!comp.contains(t as int));
            }
            return false;
        }
        t = t + 1;
    }
    proof {
        assert forall|s: Set<int>| #[trigger] closed_under(s, pairs@) && s.contains(0) implies forall|x: int| 0 <= x < count ==> s.contains(x) by {
            assert forall|x: int| 0 <= x < count implies s.contains(x) by {
                assert(labels@[x] == labels@[0]);
            }
        }
    }
    true
}

/// Incidence `k` of the boundary edges: each edge seen from its first end,
/// then from its second, as `(vertex, neighbor)`.
pub open spec fn boundary_incidence(boundary: Seq<EdgeKey>, k: int) -> (usize, usize) {
    let e = boundary[k / 2];
    if k % 2 == 0 { (e.from, e.to) } else { (e.to, e.from) }
}

/// After the first `m` incidences: how many name `v` as their vertex, and
/// the neighbors of the first two (`usize::MAX` where absent).
pub open spec fn neighbor_slots(boundary: Seq<EdgeKey>, v: int, m: int) -> (int, usize, usize)
    decreases m,
{
    if m <= 0 {
        (0, usize::MAX, usize::MAX)
    } else {
        let (c, a, b) = neighbor_slots(boundary, v, m - 1);
        let inc = boundary_incidence(boundary, m - 1);
        if inc.0 != v {
            (c, a, b)
        } else if c == 0 {
            (1, inc.1, b)
        } else if c == 1 {
            (2, a, inc.1)
        } else {
            (c + 1, a, b)
        }
    }
}

/// Some point is an endpoint of more than two boundary edges.
pub open spec fn degree_overflow(boundary: Seq<EdgeKey>, point_count: int) -> bool {
    exists|v: int| 0 <= v < point_count && (#[trigger] neighbor_slots(boundary, v, (2 * boundary.len()) as int)).0 > 2
}

/// Every boundary edge names points below `point_count`.
pub open spec fn edges_in_bounds(boundary: Seq<EdgeKey>, point_count: int) -> bool {
    forall|k: int| 0 <= k < boundary.len() ==> (#[trigger] boundary[k]).from < point_count && boundary[k].to < point_count
}

/// Counts only grow, and filled slots hold in-range neighbors.
proof fn lemma_neighbor_slots(boundary: Seq<EdgeKey>, point_count: int, v: int, m: int, m2: int)
    requires
        0 <= m <= m2 <= 2 * boundary.len(),
        point_count <= usize::MAX,
        edges_in_bounds(boundary, point_count),
    ensures
        neighbor_slots(boundary, v, m).0 <= neighbor_slots(boundary, v, m2).0,
        neighbor_slots(boundary, v, m).0 >= 0,
        neighbor_slots(boundary, v, m).0 == 0 ==> neighbor_slots(boundary, v, m).1 == usize::MAX,
        neighbor_slots(boundary, v, m).0 >= 1 ==> neighbor_slots(boundary, v, m).1 < point_count,
        neighbor_slots(boundary, v, m).0 <= 1 ==> neighbor_slots(boundary, v, m).2 == usize::MAX,
        neighbor_slots(boundary, v, m).0 >= 2 ==> neighbor_slots(boundary, v, m).2 < point_count,
    decreases m2 - m + m,
{
    if m2 > m {
        lemma_neighbor_slots(boundary, point_count, v, m, m2 - 1);
        lemma_neighbor_slots(boundary, point_count, v, m2 - 1, m2 - 1);
    } else if m > 0 {
        lemma_neighbor_slots(boundary, point_count, v, m - 1, m - 1);
        let k = m - 1;
        assert(0 <= k / 2 < boundary.len());
        assert(boundary[k / 2].from < point_count && boundary[k / 2].to < point_count);
    }
}

/// The two boundary neighbors of every point, or `None` when a point has
/// more than two.
#[verifier::loop_isolation(false)]
fn boundary_neighbors(point_count: usize, boundary: &[EdgeKey]) -> (r: Option<Vec<(usize, usize)>>)
    requires
        edges_in_bounds(boundary@, point_count as int),
        2 * boundary@.len() <= usize::MAX,
    ensures
        degree_overflow(boundary@, point_count as int) <==> r is None,
        r matches Some(nb) ==> nb@.len() == point_count && forall|v: int| 0 <= v < point_count ==>
            #[trigger] nb@[v] == (neighbor_slots(boundary@, v, (2 * boundary@.len()) as int).1, neighbor_slots(boundary@, v, (2 * boundary@.len()) as int).2),
{
    let missing = usize::MAX;
    let mut neighbors: Vec<(usize, usize)> = Vec::new();
    let mut v: usize = 0;
    while v < point_count
        invariant
            0 <= v <= point_count,
            neighbors@.len() == v,
            forall|k: int| 0 <= k < v ==> #[trigger] neighbors@[k] == (usize::MAX, usize::MAX),
        decreases point_count - v,
    {
        neighbors.push((missing, missing));
        v = v + 1;
    }
    let total = 2 * boundary.len();
    let mut m: usize = 0;
    while m < total
        invariant
            0 <= m <= total,
            total == 2 * boundary@.len(),
            edges_in_bounds(boundary@, point_count as int),
            neighbors@.len() == point_count,
            forall|w: int| 0 <= w < point_count ==> (#[trigger] neighbor_slots(boundary@, w, m as int)).0 <= 2,
            forall|w: int| 0 <= w < point_count ==>
                #[trigger] neighbors@[w] == (neighbor_slots(boundary@, w, m as int).1, neighbor_slots(boundary@, w, m as int).2),
        decreases total - m,
    {
        let edge = boundary[m / 2];
        let (vertex, neighbor) = if m % 2 == 0 { (edge.from, edge.to) } else { (edge.to, edge.from) };
        proof {
            assert((vertex, neighbor) == boundary_incidence(boundary@, m as int));
            assert forall|w: int| 0 <= w < point_count && w != vertex implies #[trigger] neighbor_slots(boundary@, w, m + 1) == neighbor_slots(boundary@, w, m as int) by {}
            lemma_neighbor_slots(boundary@, point_count as int, vertex as int, m as int, m as int);
        }
        let slots = neighbors[vertex];
        if slots.0 == missing {
            neighbors.set(vertex, (neighbor, slots.1));
        } else if slots.1 == missing {
            neighbors.set(vertex, (slots.0, neighbor));
        } else {
            proof {
                assert(neighbor_slots(boundary@, vertex as int, m + 1).0 == 3);
                lemma_neighbor_slots(boundary@, point_count as int, vertex as int, m + 1, total as int);
                assert(neighbor_slots(boundary@, vertex as int, (2 * boundary@.len()) as int).0 > 2);
            }
            return None;
        }
        proof {
            assert forall|w: int| 0 <= w < point_count implies
                #[trigger] neighbors@[w] == (neighbor_slots(boundary@, w, m + 1).1, neighbor_slots(boundary@, w, m + 1).2) by {
            }
        }
        m = m + 1;
    }
    proof {
        assert(!degree_overflow(boundary@, point_count as int));
    }
    Some(neighbors)
}

/// The boundary walk after `steps` steps from the first endpoint of the
/// first boundary edge: the points seen, the points visited in order, the
/// previous and the current point; `None` when it revisits a point or meets
/// a point with fewer than two neighbors. Each step leaves the current point
/// by its neighbor that is not the previous point.
pub open spec fn walk_from(boundary: Seq<EdgeKey>, steps: int) -> Option<(Set<usize>, Seq<usize>, usize, usize)>
    decreases steps,
{
    if steps <= 0 {
        Some((Set::empty(), Seq::empty(), usize::MAX, boundary[0].from))
    } else {
        match walk_from(boundary, steps - 1) {
            None => None,
            Some((seen, cycle, previous, current)) => {
                let (_, a, b) = neighbor_slots(boundary, current as int, (2 * boundary.len()) as int);
                if seen.contains(current) || b == usize::MAX {
                    None
                } else {
                    let next = if a != previous { a } else { b };
                    Some((seen.insert(current), cycle.push(current), current, next))
                }
            },
        }
    }
}

/// Walk the boundary once around: the visited points when the walk returns
/// to its start after one step per boundary edge, `None` otherwise.
#[verifier::loop_isolation(false)]
fn walk_boundary(neighbors: &[(usize, usize)], boundary: &[EdgeKey]) -> (r: Option<Vec<usize>>)
    requires
        boundary@.len() >= 1,
        2 * boundary@.len() <= usize::MAX,
        edges_in_bounds(boundary@, neighbors@.len() as int),
        forall|v: int| 0 <= v < neighbors@.len() ==>
            #[trigger] neighbors@[v] == (neighbor_slots(boundary@, v, (2 * boundary@.len()) as int).1, neighbor_slots(boundary@, v, (2 * boundary@.len()) as int).2),
    ensures
        match walk_from(boundary@, boundary@.len() as int) {
            None => r is None,
            Some((_, cycle, _, current)) => if current == boundary@[0].from { r matches Some(c) && c@ == cycle } else { r is None },
        },
        r matches Some(c) ==> c@.len() == boundary@.len() && forall|k: int| 0 <= k < c@.len() ==> #[trigger] c@[k] < neighbors@.len(),
{
    let n = neighbors.len();
    let missing = usize::MAX;
    let mut seen: Vec<bool> = Vec::new();
    let mut v: usize = 0;
    while v < n
        invariant
            0 <= v <= n,
            seen@.len() == v,
            forall|k: int| 0 <= k < v ==> !#[trigger] seen@[k],
        decreases n - v,
    {
        seen.push(false);
        v = v + 1;
    }
    let first = boundary[0].from;
    let mut cycle: Vec<usize> = Vec::new();
    let mut previous: usize = missing;
    let mut current: usize = first;
    let mut step: usize = 0;
    while step < boundary.len()
        invariant
            0 <= step <= boundary@.len(),
            seen@.len() == n,
            current < n,
            cycle@.len() == step,
            forall|k: int| 0 <= k < cycle@.len() ==> #[trigger] cycle@[k] < n,
            walk_from(boundary@, step as int) matches Some((seen_set, c, p, q))
                && c == cycle@ && p == previous && q == current
                && forall|w: int| 0 <= w < n ==> (#[trigger] seen@[w] <==> seen_set.contains(w as usize)),
        decreases boundary@.len() - step,
    {
        proof {
            lemma_neighbor_slots(boundary@, n as int, current as int, (2 * boundary@.len()) as int, (2 * boundary@.len()) as int);
        }
        let slots = neighbors[current];
        if seen[current] || slots.1 == missing {
            proof { lemma_walk_failed_settles(boundary@, step + 1, boundary@.len() as int); }
            return None;
        }
        seen.set(current, true);
        cycle.push(current);
        let next = if slots.0 != previous { slots.0 } else { slots.1 };
        previous = current;
        current = next;
        step = step + 1;
    }
    if current != first {
        return None;
    }
    Some(cycle)
}

/// A failed walk stays failed.
proof fn lemma_walk_failed_settles(boundary: Seq<EdgeKey>, k: int, m: int)
    requires
        0 <= k <= m,
        walk_from(boundary, k) is None,
    ensures
        walk_from(boundary, m) is None,
    decreases m - k,
{
    if m > k {
        lemma_walk_failed_settles(boundary, k, m - 1);
    }
}

/// Turn consistency over the first `i` corners of a closed point cycle: the
/// common nonzero turn so far (`Some`), `None` once two nonzero turns
/// differ, or the first undecided orientation.
pub open spec fn turns_upto(points: Seq<Point2>, cycle: Seq<usize>, policy: PredicatePolicy, i: int) -> Result<Option<Option<Sign>>, Error>
    decreases i,
{
    if i <= 0 {
        Ok(Some(None))
    } else {
        match turns_upto(points, cycle, policy, i - 1) {
            Err(e) => Err(e),
            Ok(None) => Ok(None),
            Ok(Some(turn)) => {
                let len = cycle.len() as int;
                let k = i - 1;
                let before = if k == 0 { len - 1 } else { k - 1 };
                let after = if k + 1 == len { 0 } else { k + 1 };
                match orient2_result(points, cycle[before] as int, cycle[k] as int, cycle[after] as int, policy) {
                    Err(e) => Err(e),
                    Ok(sign) => if sign == Sign::Zero {
                        Ok(Some(turn))
                    } else if turn is Some && turn != Some(sign) {
                        Ok(None)
                    } else {
                        Ok(Some(Some(sign)))
                    },
                }
            },
        }
    }
}

/// Whether a closed point cycle turns consistently: all nonzero turns share
/// one sign and there is at least one.
pub open spec fn turns_result(points: Seq<Point2>, cycle: Seq<usize>, policy: PredicatePolicy) -> Result<bool, Error> {
    match turns_upto(points, cycle, policy, cycle.len() as int) {
        Err(e) => Err(e),
        Ok(None) => Ok(false),
        Ok(Some(turn)) => Ok(turn is Some),
    }
}

proof fn lemma_turns_settled(points: Seq<Point2>, cycle: Seq<usize>, policy: PredicatePolicy, k: int, m: int)
    requires
        0 <= k <= m,
        !(turns_upto(points, cycle, policy, k) is Ok && turns_upto(points, cycle, policy, k)->Ok_0 is Some),
    ensures
        turns_upto(points, cycle, policy, m) == turns_upto(points, cycle, policy, k),
    decreases m - k,
{
    if m > k {
        lemma_turns_settled(points, cycle, policy, k, m - 1);
    }
}

/// Decide whether a closed point cycle turns consistently.
fn consistent_turns(points: &[Point2], cycle: &[usize], policy: PredicatePolicy) -> (r: Result<bool, Error>)
    requires
        cycle@.len() >= 1,
        forall|k: int| 0 <= k < cycle@.len() ==> #[trigger] cycle@[k] < points@.len(),
    ensures
        r == turns_result(points@, cycle@, policy),
{
    let len = cycle.len();
    let mut turn: Option<Sign> = None;
    let mut index: usize = 0;
    while index < len
        invariant
            0 <= index <= len,
            len == cycle@.len(),
            len >= 1,
            forall|k: int| 0 <= k < cycle@.len() ==> #[trigger] cycle@[k] < points@.len(),
            turns_upto(points@, cycle@, policy, index as int) == Ok::<Option<Option<Sign>>, Error>(Some(turn)),
        decreases len - index,
    {
        let before = if index == 0 { len - 1 } else { index - 1 };
        let after = if index + 1 == len { 0 } else { index + 1 };
        let sign = match orient2(points, cycle[before], cycle[index], cycle[after], policy) {
            Ok(s) => s,
            Err(e) => {
                proof { lemma_turns_settled(points@, cycle@, policy, index + 1, len as int); }
                return Err(e);
            },
        };
        if sign != Sign::Zero {
            match turn {
                Some(t) => {
                    if t != sign {
                        proof { lemma_turns_settled(points@, cycle@, policy, index + 1, len as int); }
                        return Ok(false);
                    }
                },
                None => {},
            }
            turn = Some(sign);
        }
        index = index + 1;
    }
    Ok(turn.is_some())
}

/// Whether the triangles form one complete triangulation of the convex hull
/// of every point. With no triangles: whether the points are collinear.
/// Otherwise: the triangles name exactly the points; no edge has more than
/// two uses; the triangles are connected across shared edges; points minus
/// edges plus triangles is one; at least three boundary edges, no point on
/// more than two of them, and the walk along them closes after one step per
/// edge into a cycle whose nonzero turns share one sign.
pub open spec fn hull_result(points: Seq<Point2>, triangles: Seq<Triangle>, policy: PredicatePolicy) -> Result<bool, Error> {
    let n = points.len() as int;
    if triangles.len() == 0 {
        collinear_result(points, policy)
    } else if !covers_every_point(triangles, n) {
        Ok(false)
    } else {
        match hull_runs(sorted_uses(triangles), 0) {
            None => Ok(false),
            Some((boundary, pairs, count)) => if !connected(triangles.len() as int, pairs) || n - count + triangles.len() != 1 || boundary.len() < 3 {
                Ok(false)
            } else if degree_overflow(boundary, n) {
                Ok(false)
            } else {
                match walk_from(boundary, boundary.len() as int) {
                    None => Ok(false),
                    Some((_, cycle, _, current)) => if current != boundary[0].from {
                        Ok(false)
                    } else {
                        turns_result(points, cycle, policy)
                    },
                }
            },
        }
    }
}

/// Uses of a triangle list name triangles of the list.
proof fn lemma_sorted_uses_triangles(triangles: Seq<Triangle>)
    ensures
        forall|k: int| 0 <= k < sorted_uses(triangles).len() ==> (#[trigger] sorted_uses(triangles)[k]).triangle < triangles.len(),
{
    lemma_sorted_uses_members(triangles);
    let sorted = sorted_uses(triangles);
    let all = opposite_uses(triangles);
    assert forall|k: int| 0 <= k < sorted.len() implies (#[trigger] sorted[k]).triangle < triangles.len() by {
        assert(sorted.contains(sorted[k]));
        let u = choose|u: int| 0 <= u < all.len() && all[u] == sorted[k];
        assert(u / 3 < triangles.len());
    }
}

/// Decide whether the triangles, with their sorted uses, form one complete
/// triangulation of the convex hull of every point.
fn triangulates_convex_hull_with_edge_uses(points: &[Point2], triangles: &[Triangle], uses: &[OppositeUse], policy: PredicatePolicy) -> (r: Result<bool, Error>)
    requires
        triangles@.len() <= usize::MAX / 8,
        uses@ == sorted_uses(triangles@),
    ensures
        r == hull_result(points@, triangles@, policy),
{
    if triangles.len() == 0 {
        return points_are_collinear(points, policy);
    }
    if !uses_every_point(points.len(), triangles) {
        return Ok(false);
    }
    let (boundary, pairs, edge_count) = match summarize_runs(uses) {
        Some(summary) => summary,
        None => return Ok(false),
    };
    proof {
        lemma_hull_runs_members(uses@, 0);
        lemma_sorted_uses_members(triangles@);
        lemma_sorted_uses_in_bounds(triangles@, points@.len() as int);
        lemma_sorted_uses_triangles(triangles@);
        assert forall|k: int| 0 <= k < pairs@.len() implies (#[trigger] pairs@[k]).0 < triangles@.len() && pairs@[k].1 < triangles@.len() by {
            let u = choose|u: int| 0 <= u < uses@.len() && uses@[u].triangle == pairs@[k].0;
            let w = choose|w: int| 0 <= w < uses@.len() && uses@[w].triangle == pairs@[k].1;
            assert(uses@[u].triangle < triangles@.len() && uses@[w].triangle < triangles@.len());
        }
        assert forall|k: int| 0 <= k < boundary@.len() implies (#[trigger] boundary@[k]).from < points@.len() && boundary@[k].to < points@.len() by {
            let u = choose|u: int| 0 <= u < uses@.len() && uses@[u].edge == boundary@[k];
            assert(uses_in_bounds(uses@, points@.len() as int));
            assert(uses@[u].edge.from < points@.len());
        }
    }
    let is_connected = pairs_connected(triangles.len(), &pairs);
    let euler = points.len() as i128 - edge_count as i128 + triangles.len() as i128;
    if !is_connected || euler != 1 || boundary.len() < 3 {
        return Ok(false);
    }
    let neighbors = match boundary_neighbors(points.len(), &boundary) {
        Some(nb) => nb,
        None => return Ok(false),
    };
    let cycle = match walk_boundary(&neighbors, &boundary) {
        Some(c) => c,
        None => return Ok(false),
    };
    consistent_turns(points, &cycle, policy)
}

/// Decide whether the triangles form one complete triangulation of the
/// convex hull of every point.
pub fn triangulates_convex_hull(points: &[Point2], triangles: &[Triangle], policy: PredicatePolicy) -> (r: Result<bool, Error>)
    requires
        triangles@.len() <= usize::MAX / 8,
    ensures
        r == hull_result(points@, triangles@, policy),
{
    let uses = sorted_edge_uses(triangles);
    triangulates_convex_hull_with_edge_uses(points, triangles, &uses, policy)
}

/// Unconstrained Delaunay validation: the triangles, then no edge with more
/// than two uses, then convex-hull coverage, then the local Delaunay
/// condition on every interior edge.
pub open spec fn delaunay_validation(points: Seq<Point2>, triangles: Seq<Triangle>, policy: PredicatePolicy) -> Result<(), Error> {
    match triangles_validation(points, triangles, policy) {
        Err(e) => Err(e),
        Ok(_) => if has_triple_run(sorted_uses(triangles)) {
            Err(Error::InvalidInput { reason: "triangulation edge has more than two adjacent triangles" })
        } else {
            match hull_result(points, triangles, policy) {
                Err(e) => Err(e),
                Ok(false) => Err(Error::InvalidInput { reason: "triangulation does not cover the convex hull" }),
                Ok(true) => local_delaunay_from(points, sorted_uses(triangles), Set::empty(), policy, 0),
            }
        },
    }
}

/// Validate unconstrained exact Delaunay topology and local edge legality.
pub fn validate_delaunay(points: &[Point2], triangles: &[Triangle], policy: PredicatePolicy) -> (r: Result<(), Error>)
    requires
        triangles@.len() <= usize::MAX / 8,
    ensures
        r == delaunay_validation(points@, triangles@, policy),
{
    validate_triangles(points, triangles, policy)?;
    proof {
        lemma_checked_triangles_in_bounds(points@, triangles@, policy, triangles@.len() as int);
        lemma_sorted_uses_in_bounds(triangles@, points@.len() as int);
    }
    let uses = sorted_edge_uses(triangles);
    validate_edge_adjacency(&uses)?;
    if !triangulates_convex_hull_with_edge_uses(points, triangles, &uses, policy)? {
        return Err(Error::InvalidInput { reason: "triangulation does not cover the convex hull" });
    }
    let protected: Vec<EdgeKey> = Vec::new();
    proof {
        assert(protected@.to_set() =~= Set::<EdgeKey>::empty());
    }
    validate_local_delaunay(points, &uses, &protected, policy)
}

/// Constrained topology, then the local Delaunay condition off the
/// constraint edges, then convex-hull coverage.
pub open spec fn constrained_hull_delaunay_result(points: Seq<Point2>, constraints: Seq<Constraint>, triangles: Seq<Triangle>, policy: PredicatePolicy) -> Result<(), Error> {
    match constrained_delaunay_result(points, constraints, triangles, policy) {
        Err(e) => Err(e),
        Ok(()) => match hull_result(points, triangles, policy) {
            Err(e) => Err(e),
            Ok(false) => Err(Error::InvalidInput { reason: "constrained triangulation does not cover the convex hull" }),
            Ok(true) => Ok(()),
        },
    }
}

/// Validate a constrained Delaunay triangulation whose domain is the
/// complete convex hull.
pub fn validate_constrained_convex_hull_delaunay(points: &[Point2], constraints: &[Constraint], triangles: &[Triangle], policy: PredicatePolicy) -> (r: Result<(), Error>)
    requires
        triangles@.len() <= usize::MAX / 8,
    ensures
        r == constrained_hull_delaunay_result(points@, constraints@, triangles@, policy),
{
    let (uses, _) = validated_constrained_edge_uses(points, constraints, triangles, policy)?;
    let protected = sorted_constraint_edges(constraints);
    proof { lemma_sorted_uses_in_bounds(triangles@, points@.len() as int); }
    validate_local_delaunay(points, &uses, &protected, policy)?;
    if !triangulates_convex_hull_with_edge_uses(points, triangles, &uses, policy)? {
        return Err(Error::InvalidInput { reason: "constrained triangulation does not cover the convex hull" });
    }
    Ok(())
}

/// Constrained topology with no negative winding, then convex-hull
/// coverage.
pub open spec fn constrained_hull_topology_result(points: Seq<Point2>, constraints: Seq<Constraint>, triangles: Seq<Triangle>, policy: PredicatePolicy) -> Result<(), Error> {
    match constrained_topology_result(points, constraints, triangles, policy) {
        Err(e) => Err(e),
        Ok(winding) => if winding == Some(Sign::Negative) {
            Err(Error::InvalidInput { reason: "triangle winding is not positive" })
        } else {
            match hull_result(points, triangles, policy) {
                Err(e) => Err(e),
                Ok(false) => Err(Error::InvalidInput { reason: "constrained triangulation does not cover the convex hull" }),
                Ok(true) => Ok(()),
            }
        },
    }
}

/// Validate positively oriented constrained topology covering the complete
/// convex hull, without Delaunay legality.
pub fn validate_constrained_convex_hull_topology(points: &[Point2], constraints: &[Constraint], triangles: &[Triangle], policy: PredicatePolicy) -> (r: Result<(), Error>)
    requires
        triangles@.len() <= usize::MAX / 8,
    ensures
        r == constrained_hull_topology_result(points@, constraints@, triangles@, policy),
{
    let (uses, winding) = validated_constrained_edge_uses(points, constraints, triangles, policy)?;
    if winding == Some(Sign::Negative) {
        return Err(Error::InvalidInput { reason: "triangle winding is not positive" });
    }
    if !triangulates_convex_hull_with_edge_uses(points, triangles, &uses, policy)? {
        return Err(Error::InvalidInput { reason: "constrained triangulation does not cover the convex hull" });
    }
    Ok(())
}

/// Passing the constrained Delaunay check includes passing the constrained
/// topology check.
pub proof fn lemma_constrained_delaunay_includes_topology(points: Seq<Point2>, constraints: Seq<Constraint>, triangles: Seq<Triangle>, policy: PredicatePolicy)
    ensures
        constrained_delaunay_result(points, constraints, triangles, policy) is Ok
            ==> constrained_topology_result(points, constraints, triangles, policy) is Ok,
{
}

/// An unconstrained Delaunay triangulation that passes validation is also a
/// valid constrained Delaunay triangulation for the empty constraint list.
pub proof fn lemma_delaunay_is_constrained_delaunay(points: Seq<Point2>, triangles: Seq<Triangle>, policy: PredicatePolicy)
    ensures
        delaunay_validation(points, triangles, policy) is Ok
            ==> constrained_delaunay_result(points, Seq::<Constraint>::empty(), triangles, policy) is Ok,
{
    let none = Seq::<Constraint>::empty();
    assert(constraint_edge_set(none) =~= Set::<EdgeKey>::empty()) by {
        assert(none.map_values(|c: Constraint| edge_key(c.from, c.to)) =~= Seq::<EdgeKey>::empty());
    }
}

} // verus!
