//! Planar Delaunay and constrained triangulation records and their exact
//! validation.
use vstd::prelude::*;
use crate::cdt_validate::{
    constrained_delaunay_result, constrained_hull_delaunay_result, constrained_hull_topology_result, validate_constrained_convex_hull_delaunay, constrained_topology_result, delaunay_validation,
    validate_constrained_convex_hull_topology, validate_constrained_delaunay, validate_constrained_topology, validate_delaunay,
};
use crate::constraint_recovery::{all_constraints_present, constraints_in_bounds, insert_constraints_topology, pair_in_bounds};
use crate::delaunay::{delaunay_triangles, delaunay_triangles_spatial};
use crate::legalize::insert_constraints;
use crate::constraint_polygon::{flattened, polygon_from_closed_constraints, ConstraintPolygon};
use crate::constraints::ring_views;
use crate::earcut::triangulate_inner;
use crate::topology::EdgeKey;
use crate::point_set::triangle_in_bounds;
use crate::context::PredicatePolicy;
use crate::point_set::{triangulate_point_set, PointTriangulation};
use crate::predicates::{
    on_segment_result, point_fractions, point_on_segment, segment_intersection, segment_intersection_result, SegmentIntersection,
};
use crate::types::Point2;
use crate::context::{TriangulationCertainty, TriangulationContext, TriangulationOutcome};
use crate::error::Error;
use crate::types::{frac_add, frac_div, frac_mul, frac_sub, Constraint, ExactPoint, Triangle};

verus! {

/// Triangulation result for an unconstrained 2D point set.
#[derive(Debug)]
pub struct DelaunayTriangulation {
    points: Vec<ExactPoint>,
    triangles: Vec<Triangle>,
}

impl DelaunayTriangulation {
    /// Stored points (spec view).
    pub closed spec fn points_view(&self) -> Seq<ExactPoint> {
        self.points@
    }

    /// Stored triangles (spec view).
    pub closed spec fn triangles_view(&self) -> Seq<Triangle> {
        self.triangles@
    }

    /// Construct a triangulation record from points and triangle indices.
    pub fn from_parts(points: Vec<ExactPoint>, triangles: Vec<Triangle>) -> (r: DelaunayTriangulation)
        ensures
            r.points_view() == points@,
            r.triangles_view() == triangles@,
    {
        DelaunayTriangulation { points, triangles }
    }

    /// Input points stored by the triangulation.
    pub fn points(&self) -> (r: &[ExactPoint])
        ensures
            r@ == self.points_view(),
    {
        self.points.as_slice()
    }

    /// Output triangles as input point indices.
    pub fn triangles(&self) -> (r: &[Triangle])
        ensures
            r@ == self.triangles_view(),
    {
        self.triangles.as_slice()
    }

    /// Consume the triangulation into its point and triangle buffers.
    pub fn into_parts(self) -> (r: (Vec<ExactPoint>, Vec<Triangle>))
        ensures
            r.0@ == self.points_view(),
            r.1@ == self.triangles_view(),
    {
        (self.points, self.triangles)
    }

    /// Validate exact Delaunay topology and local empty-circle legality:
    /// triangle indices, orientation and winding, no repeated triangle, at
    /// most two triangles per edge, complete convex-hull coverage, and the
    /// empty-circle test on every interior edge; fails with the first
    /// problem found.
    pub fn validate(&self, context: &TriangulationContext) -> (r: Result<TriangulationOutcome<()>, Error>)
        requires
            self.triangles_view().len() <= usize::MAX / 8,
        ensures
            match delaunay_validation(self.points_view(), self.triangles_view(), context.policy()) {
                Ok(()) => r matches Ok(o) && o.certainty == TriangulationCertainty::Certified,
                Err(e) => r == Err::<TriangulationOutcome<()>, Error>(e),
            },
    {
        validate_delaunay(self.points.as_slice(), self.triangles.as_slice(), context.predicate_policy())?;
        Ok(TriangulationOutcome::new((), TriangulationCertainty::Certified))
    }
}

/// Copy of a constraint list.
fn copy_constraints(constraints: &[Constraint]) -> (r: Vec<Constraint>)
    ensures
        r@ == constraints@,
{
    let mut out: Vec<Constraint> = Vec::new();
    let mut i: usize = 0;
    while i < constraints.len()
        invariant
            0 <= i <= constraints@.len(),
            out@ == constraints@.subrange(0, i as int),
        decreases constraints@.len() - i,
    {
        out.push(constraints[i]);
        proof { assert(out@ =~= constraints@.subrange(0, i + 1)); }
        i = i + 1;
    }
    proof { assert(constraints@.subrange(0, constraints@.len() as int) =~= constraints@); }
    out
}

/// Triangulation result for a 2D point set with constrained edges.
///
/// Constraint insertion can append exact Steiner vertices where caller
/// constraints properly intersect. [`Self::constraints`] returns the original
/// caller constraints, while [`Self::triangles`] indexes into [`Self::points`],
/// which may be longer than the caller's input point buffer.
#[derive(Debug)]
pub struct ConstrainedTriangulation {
    points: Vec<ExactPoint>,
    constraints: Vec<Constraint>,
    constraint_edges: Vec<Constraint>,
    triangles: Vec<Triangle>,
}

impl ConstrainedTriangulation {
    /// Stored points (spec view).
    pub closed spec fn points_view(&self) -> Seq<ExactPoint> {
        self.points@
    }

    /// Caller constraints (spec view).
    pub closed spec fn constraints_view(&self) -> Seq<Constraint> {
        self.constraints@
    }

    /// Protected constraint subsegments (spec view).
    pub closed spec fn constraint_edges_view(&self) -> Seq<Constraint> {
        self.constraint_edges@
    }

    /// Stored triangles (spec view).
    pub closed spec fn triangles_view(&self) -> Seq<Triangle> {
        self.triangles@
    }

    /// Construct a constrained triangulation record from raw parts; the
    /// protected edges are the caller constraints themselves.
    pub fn from_parts(points: Vec<ExactPoint>, constraints: Vec<Constraint>, triangles: Vec<Triangle>) -> (r: ConstrainedTriangulation)
        ensures
            r.points_view() == points@,
            r.constraints_view() == constraints@,
            r.constraint_edges_view() == constraints@,
            r.triangles_view() == triangles@,
    {
        let edges = copy_constraints(constraints.as_slice());
        Self::from_parts_with_constraint_edges(points, edges, constraints, triangles)
    }

    /// Construct a constrained triangulation record with explicit protected
    /// subsegments.
    ///
    /// `constraints` are the caller-visible constraints. `constraint_edges` are
    /// the planarized edges actually present in the triangulation and may
    /// reference Steiner vertices appended to [`Self::points`].
    pub fn from_parts_with_constraint_edges(
        points: Vec<ExactPoint>,
        constraints: Vec<Constraint>,
        constraint_edges: Vec<Constraint>,
        triangles: Vec<Triangle>,
    ) -> (r: ConstrainedTriangulation)
        ensures
            r.points_view() == points@,
            r.constraints_view() == constraints@,
            r.constraint_edges_view() == constraint_edges@,
            r.triangles_view() == triangles@,
    {
        ConstrainedTriangulation { points, constraints, constraint_edges, triangles }
    }

    /// Points stored by the triangulation, including any Steiner vertices.
    pub fn points(&self) -> (r: &[ExactPoint])
        ensures
            r@ == self.points_view(),
    {
        self.points.as_slice()
    }

    /// Caller constraints stored by the triangulation.
    pub fn constraints(&self) -> (r: &[Constraint])
        ensures
            r@ == self.constraints_view(),
    {
        self.constraints.as_slice()
    }

    /// Protected constraint subsegments present as triangulation edges.
    pub fn constraint_edges(&self) -> (r: &[Constraint])
        ensures
            r@ == self.constraint_edges_view(),
    {
        self.constraint_edges.as_slice()
    }

    /// Output triangles as input point indices.
    pub fn triangles(&self) -> (r: &[Triangle])
        ensures
            r@ == self.triangles_view(),
    {
        self.triangles.as_slice()
    }

    /// Consume the triangulation into its point, constraint and triangle
    /// buffers.
    pub fn into_parts(self) -> (r: (Vec<ExactPoint>, Vec<Constraint>, Vec<Triangle>))
        ensures
            r.0@ == self.points_view(),
            r.1@ == self.constraints_view(),
            r.2@ == self.triangles_view(),
    {
        (self.points, self.constraints, self.triangles)
    }

    /// Consume the triangulation into all raw buffers, including protected
    /// planarized constraint edges.
    pub fn into_parts_with_constraint_edges(self) -> (r: (Vec<ExactPoint>, Vec<Constraint>, Vec<Constraint>, Vec<Triangle>))
        ensures
            r.0@ == self.points_view(),
            r.1@ == self.constraints_view(),
            r.2@ == self.constraint_edges_view(),
            r.3@ == self.triangles_view(),
    {
        (self.points, self.constraints, self.constraint_edges, self.triangles)
    }

    /// Validate exact constrained triangulation topology: protected-edge
    /// indices, triangle indices, orientation and winding, no repeated
    /// triangle, at most two triangles per edge, and every protected edge
    /// present; no Delaunay legality.
    pub fn validate(&self, context: &TriangulationContext) -> (r: Result<TriangulationOutcome<()>, Error>)
        requires
            self.triangles_view().len() <= usize::MAX / 8,
        ensures
            match constrained_topology_result(self.points_view(), self.constraint_edges_view(), self.triangles_view(), context.policy()) {
                Ok(_) => r matches Ok(o) && o.certainty == TriangulationCertainty::Certified,
                Err(e) => r == Err::<TriangulationOutcome<()>, Error>(e),
            },
    {
        validate_constrained_topology(self.points.as_slice(), self.constraint_edges.as_slice(), self.triangles.as_slice(), context.predicate_policy())?;
        Ok(TriangulationOutcome::new((), TriangulationCertainty::Certified))
    }

    /// Validate the exact local Delaunay condition on unconstrained interior
    /// edges: the topology checks of [`Self::validate`], then the
    /// empty-circle test on every interior edge that is not protected.
    pub fn validate_unconstrained_edges_are_delaunay(&self, context: &TriangulationContext) -> (r: Result<TriangulationOutcome<()>, Error>)
        requires
            self.triangles_view().len() <= usize::MAX / 8,
        ensures
            match constrained_delaunay_result(self.points_view(), self.constraint_edges_view(), self.triangles_view(), context.policy()) {
                Ok(()) => r matches Ok(o) && o.certainty == TriangulationCertainty::Certified,
                Err(e) => r == Err::<TriangulationOutcome<()>, Error>(e),
            },
    {
        validate_constrained_delaunay(self.points.as_slice(), self.constraint_edges.as_slice(), self.triangles.as_slice(), context.predicate_policy())?;
        Ok(TriangulationOutcome::new((), TriangulationCertainty::Certified))
    }
}

/// Why a constraint's indices are unusable over `point_count` points, if
/// they are.
pub open spec fn constraint_index_error(constraint: Constraint, point_count: int) -> Option<&'static str> {
    if constraint.from >= point_count || constraint.to >= point_count {
        Some("constraint index out of bounds")
    } else if constraint.from == constraint.to {
        Some("constraint endpoints must differ")
    } else {
        None
    }
}

/// The first index error among the constraints from position `k` on.
pub open spec fn constraint_indices_error_from(constraints: Seq<Constraint>, point_count: int, k: int) -> Option<&'static str>
    decreases constraints.len() - k,
{
    if k < 0 || k >= constraints.len() {
        None
    } else {
        match constraint_index_error(constraints[k], point_count) {
            Some(reason) => Some(reason),
            None => constraint_indices_error_from(constraints, point_count, k + 1),
        }
    }
}

proof fn lemma_no_index_error_from(constraints: Seq<Constraint>, point_count: int, k: int)
    requires
        0 <= k,
        constraint_indices_error_from(constraints, point_count, k) is None,
    ensures
        forall|j: int| k <= j < constraints.len() ==> constraint_index_error(#[trigger] constraints[j], point_count) is None,
    decreases constraints.len() - k,
{
    if k < constraints.len() {
        lemma_no_index_error_from(constraints, point_count, k + 1);
    }
}

/// Check every constraint's indices, failing at the first malformed one.
fn check_constraint_indices(point_count: usize, constraints: &[Constraint]) -> (r: Result<(), Error>)
    ensures
        match constraint_indices_error_from(constraints@, point_count as int, 0) {
            Some(reason) => r == Err::<(), Error>(Error::InvalidInput { reason }),
            None => r is Ok,
        },
{
    let mut k: usize = 0;
    while k < constraints.len()
        invariant
            0 <= k <= constraints@.len(),
            constraint_indices_error_from(constraints@, point_count as int, 0) == constraint_indices_error_from(constraints@, point_count as int, k as int),
        decreases constraints@.len() - k,
    {
        let constraint = constraints[k];
        if constraint.from >= point_count || constraint.to >= point_count {
            return Err(Error::InvalidInput { reason: "constraint index out of bounds" });
        }
        if constraint.from == constraint.to {
            return Err(Error::InvalidInput { reason: "constraint endpoints must differ" });
        }
        k = k + 1;
    }
    Ok(())
}

/// Whether two points of the list have the same exact coordinates.
pub open spec fn has_duplicate_point(points: Seq<Point2>) -> bool {
    exists|i: int, j: int| 0 <= i < j < points.len() && #[trigger] points[i].same_point(#[trigger] points[j])
}

/// Reject a point list in which two points coincide exactly.
pub(crate) fn validate_unique_points(points: &[Point2]) -> (r: Result<(), Error>)
    ensures
        has_duplicate_point(points@) ==> r == Err::<(), Error>(Error::InvalidInput { reason: "duplicate points are not supported" }),
        !has_duplicate_point(points@) ==> r is Ok,
{
    let mut i: usize = 0;
    while i < points.len()
        invariant
            0 <= i <= points@.len(),
            forall|a: int, b: int| 0 <= a < i && a < b < points@.len() ==> !#[trigger] points@[a].same_point(#[trigger] points@[b]),
        decreases points@.len() - i,
    {
        let mut j: usize = i + 1;
        while j < points.len()
            invariant
                i < points@.len(),
                i + 1 <= j <= points@.len(),
                forall|a: int, b: int| 0 <= a < i && a < b < points@.len() ==> !#[trigger] points@[a].same_point(#[trigger] points@[b]),
                forall|b: int| i < b < j ==> !points@[i as int].same_point(#[trigger] points@[b]),
            decreases points@.len() - j,
        {
            if points[i].exact_eq(&points[j]) {
                proof { assert(points@[i as int].same_point(points@[j as int])); }
                return Err(Error::InvalidInput { reason: "duplicate points are not supported" });
            }
            j = j + 1;
        }
        i = i + 1;
    }
    Ok(())
}

/// What the exact geometry of two constraints rules out: the same segment
/// twice, a proper crossing, or a positive-length overlap; constraints that
/// share an endpoint are not compared.
pub open spec fn constraint_pair_error(points: Seq<Point2>, a: Constraint, b: Constraint, policy: PredicatePolicy) -> Option<Error> {
    if (a.from == b.from && a.to == b.to) || (a.from == b.to && a.to == b.from) {
        Some(Error::InvalidInput { reason: "overlapping constraints are not supported" })
    } else if a.from == b.from || a.from == b.to || a.to == b.from || a.to == b.to {
        None
    } else {
        match segment_intersection_result(points, a.from as int, a.to as int, b.from as int, b.to as int, policy) {
            Err(e) => Some(e),
            Ok(relation) => if relation == SegmentIntersection::Proper {
                Some(Error::InvalidInput { reason: "properly crossing constraints are not supported" })
            } else if relation == SegmentIntersection::CollinearOverlap || relation == SegmentIntersection::Identical {
                Some(Error::InvalidInput { reason: "overlapping constraints are not supported" })
            } else {
                None
            },
        }
    }
}

/// The first pair error of constraint `first` with the constraints from
/// position `second` on.
pub open spec fn pair_row_error(points: Seq<Point2>, constraints: Seq<Constraint>, policy: PredicatePolicy, first: int, second: int) -> Option<Error>
    decreases constraints.len() - second,
{
    if second < 0 || second >= constraints.len() {
        None
    } else {
        match constraint_pair_error(points, constraints[first], constraints[second], policy) {
            Some(e) => Some(e),
            None => pair_row_error(points, constraints, policy, first, second + 1),
        }
    }
}

/// The first pair error among the constraint pairs whose first member is
/// at position `first` or later.
pub open spec fn pair_rows_error(points: Seq<Point2>, constraints: Seq<Constraint>, policy: PredicatePolicy, first: int) -> Option<Error>
    decreases constraints.len() - first,
{
    if first < 0 || first >= constraints.len() {
        None
    } else {
        match pair_row_error(points, constraints, policy, first, first + 1) {
            Some(e) => Some(e),
            None => pair_rows_error(points, constraints, policy, first + 1),
        }
    }
}

/// Whether the point at `point` lies on the constraint without being one of
/// its endpoints, or the undecided-predicate error.
pub open spec fn unsplit_point_error(points: Seq<Point2>, constraint: Constraint, point: int, policy: PredicatePolicy) -> Option<Error> {
    if point == constraint.from || point == constraint.to {
        None
    } else {
        match on_segment_result(points, constraint.from as int, constraint.to as int, point, policy) {
            Err(e) => Some(e),
            Ok(true) => Some(Error::InvalidInput { reason: "constraint contains an unsplit point" }),
            Ok(false) => None,
        }
    }
}

/// The first unsplit-point error of constraint `k` with the points from
/// position `point` on.
pub open spec fn unsplit_row_error(points: Seq<Point2>, constraints: Seq<Constraint>, policy: PredicatePolicy, k: int, point: int) -> Option<Error>
    decreases points.len() - point,
{
    if point < 0 || point >= points.len() {
        None
    } else {
        match unsplit_point_error(points, constraints[k], point, policy) {
            Some(e) => Some(e),
            None => unsplit_row_error(points, constraints, policy, k, point + 1),
        }
    }
}

/// The first unsplit-point error of the constraints from position `k` on.
pub open spec fn unsplit_rows_error(points: Seq<Point2>, constraints: Seq<Constraint>, policy: PredicatePolicy, k: int) -> Option<Error>
    decreases constraints.len() - k,
{
    if k < 0 || k >= constraints.len() {
        None
    } else {
        match unsplit_row_error(points, constraints, policy, k, 0) {
            Some(e) => Some(e),
            None => unsplit_rows_error(points, constraints, policy, k + 1),
        }
    }
}

/// The first geometric reason the constraints are not a planar straight
/// line graph over the points: a repeated, crossing or overlapping pair,
/// then a point lying inside a constraint.
pub open spec fn constraint_geometry_error(points: Seq<Point2>, constraints: Seq<Constraint>, policy: PredicatePolicy) -> Option<Error> {
    match pair_rows_error(points, constraints, policy, 0) {
        Some(e) => Some(e),
        None => unsplit_rows_error(points, constraints, policy, 0),
    }
}

/// Check that no two constraints repeat, cross properly or overlap.
#[verifier::loop_isolation(false)]
fn validate_constraint_pairs(points: &[Point2], constraints: &[Constraint], policy: PredicatePolicy) -> (r: Result<(), Error>)
    requires
        constraints_in_bounds(constraints@, points@.len() as int),
    ensures
        match pair_rows_error(points@, constraints@, policy, 0) {
            Some(e) => r == Err::<(), Error>(e),
            None => r is Ok,
        },
{
    let m = constraints.len();
    let mut first: usize = 0;
    while first < m
        invariant
            m == constraints@.len(),
            0 <= first <= m,
            pair_rows_error(points@, constraints@, policy, 0) == pair_rows_error(points@, constraints@, policy, first as int),
        decreases m - first,
    {
        let mut second: usize = first + 1;
        while second < m
            invariant
                first < m,
                first + 1 <= second <= m,
                pair_row_error(points@, constraints@, policy, first as int, first + 1) == pair_row_error(points@, constraints@, policy, first as int, second as int),
            decreases m - second,
        {
            let a = constraints[first];
            let b = constraints[second];
            proof {
                assert(pair_in_bounds(constraints@[first as int].from, constraints@[first as int].to, points@.len() as int));
                assert(pair_in_bounds(constraints@[second as int].from, constraints@[second as int].to, points@.len() as int));
            }
            if (a.from == b.from && a.to == b.to) || (a.from == b.to && a.to == b.from) {
                return Err(Error::InvalidInput { reason: "overlapping constraints are not supported" });
            }
            if !(a.from == b.from || a.from == b.to || a.to == b.from || a.to == b.to) {
                let relation = segment_intersection(points, a.from, a.to, b.from, b.to, policy)?;
                if relation == SegmentIntersection::Proper {
                    return Err(Error::InvalidInput { reason: "properly crossing constraints are not supported" });
                }
                if relation == SegmentIntersection::CollinearOverlap || relation == SegmentIntersection::Identical {
                    return Err(Error::InvalidInput { reason: "overlapping constraints are not supported" });
                }
            }
            second = second + 1;
        }
        first = first + 1;
    }
    Ok(())
}

/// Check that the constraints already form a planar straight line graph.
#[verifier::loop_isolation(false)]
fn validate_constraint_geometry(points: &[Point2], constraints: &[Constraint], policy: PredicatePolicy) -> (r: Result<(), Error>)
    requires
        constraints_in_bounds(constraints@, points@.len() as int),
    ensures
        match constraint_geometry_error(points@, constraints@, policy) {
            Some(e) => r == Err::<(), Error>(e),
            None => r is Ok,
        },
{
    validate_constraint_pairs(points, constraints, policy)?;
    let m = constraints.len();
    let mut k: usize = 0;
    while k < m
        invariant
            m == constraints@.len(),
            0 <= k <= m,
            unsplit_rows_error(points@, constraints@, policy, 0) == unsplit_rows_error(points@, constraints@, policy, k as int),
        decreases m - k,
    {
        let constraint = constraints[k];
        proof {
            assert(pair_in_bounds(constraints@[k as int].from, constraints@[k as int].to, points@.len() as int));
        }
        let mut point: usize = 0;
        while point < points.len()
            invariant
                k < m,
                0 <= point <= points@.len(),
                unsplit_row_error(points@, constraints@, policy, k as int, 0) == unsplit_row_error(points@, constraints@, policy, k as int, point as int),
            decreases points@.len() - point,
        {
            if point != constraint.from && point != constraint.to {
                if point_on_segment(points, constraint.from, constraint.to, point, policy)? {
                    return Err(Error::InvalidInput { reason: "constraint contains an unsplit point" });
                }
            }
            point = point + 1;
        }
        k = k + 1;
    }
    Ok(())
}

/// The first reason the inputs of a convex-hull planar straight line graph
/// triangulation are rejected before any triangle is built.
pub open spec fn hull_pslg_input_error(points: Seq<Point2>, constraints: Seq<Constraint>, policy: PredicatePolicy) -> Option<Error> {
    match constraint_indices_error_from(constraints, points.len() as int, 0) {
        Some(reason) => Some(Error::InvalidInput { reason }),
        None => if has_duplicate_point(points) {
            Some(Error::InvalidInput { reason: "duplicate points are not supported" })
        } else {
            constraint_geometry_error(points, constraints, policy)
        },
    }
}

/// Triangulate a planar straight-line graph over its complete convex hull
/// without imposing a Delaunay quality policy: every point is inserted by
/// exact orientation, every constraint is recovered as an edge, and the
/// result is checked to be a positively oriented triangulation of the whole
/// convex hull holding every constraint. Constraints must already be
/// planar: no crossings, overlaps or input points inside a constraint.
pub fn constrained_triangulation_convex_hull(
    context: &TriangulationContext,
    points: &[ExactPoint],
    constraints: &[Constraint],
) -> (r: Result<TriangulationOutcome<Vec<Triangle>>, Error>)
    requires
        points@.len() <= usize::MAX / 256,
    ensures
        hull_pslg_input_error(points@, constraints@, context.policy()) matches Some(e) ==> r == Err::<TriangulationOutcome<Vec<Triangle>>, Error>(e),
        r matches Ok(out) ==> {
            &&& hull_pslg_input_error(points@, constraints@, context.policy()) is None
            &&& constrained_hull_topology_result(points@, constraints@, out.value@, context.policy()) == Ok::<(), Error>(())
            &&& out.certainty == TriangulationCertainty::Certified
        },
{
    let policy = context.predicate_policy();
    check_constraint_indices(points.len(), constraints)?;
    proof {
        lemma_no_index_error_from(constraints@, points@.len() as int, 0);
        assert forall|k: int| 0 <= k < constraints@.len() implies pair_in_bounds(#[trigger] constraints@[k].from, constraints@[k].to, points@.len() as int) by {
            assert(constraint_index_error(constraints@[k], points@.len() as int) is None);
        }
    }
    validate_unique_points(points)?;
    validate_constraint_geometry(points, constraints, policy)?;
    let PointTriangulation { triangles, topology } = triangulate_point_set(points, policy)?;
    let triangles = insert_constraints_topology(points, triangles, constraints, topology, policy)?;
    validate_constrained_convex_hull_topology(points, constraints, triangles.as_slice(), policy)?;
    Ok(TriangulationOutcome::new(triangles, TriangulationCertainty::Certified))
}

/// Triangulate a planar straight-line graph over its complete convex hull
/// with Delaunay quality: every bounded region on either side of every
/// constraint cycle stays triangulated. The points are triangulated by the
/// empty-circumcircle rule (in a spatial order from 32 points on when there
/// are constraints); when some constraint is not an edge of that
/// triangulation, every constraint is recovered by exact flips and cavity
/// retriangulation and the unconstrained edges are flipped back to the
/// empty-circle rule. The result is checked against the exact constrained
/// Delaunay validator. Constraints must already be planar: no crossings,
/// overlaps or input points inside a constraint.
pub fn constrained_delaunay_convex_hull(
    context: &TriangulationContext,
    points: &[ExactPoint],
    constraints: &[Constraint],
) -> (r: Result<TriangulationOutcome<ConstrainedTriangulation>, Error>)
    requires
        points@.len() <= usize::MAX / 256,
    ensures
        hull_pslg_input_error(points@, constraints@, context.policy()) matches Some(e) ==> r == Err::<TriangulationOutcome<ConstrainedTriangulation>, Error>(e),
        r matches Ok(out) ==> {
            &&& hull_pslg_input_error(points@, constraints@, context.policy()) is None
            &&& out.value.points_view() == points@
            &&& out.value.constraints_view() == constraints@
            &&& out.value.constraint_edges_view() == constraints@
            &&& out.value.triangles_view().len() <= usize::MAX / 8 ==>
                constrained_hull_delaunay_result(points@, constraints@, out.value.triangles_view(), context.policy()) == Ok::<(), Error>(())
            &&& out.certainty == TriangulationCertainty::Certified
        },
{
    let policy = context.predicate_policy();
    check_constraint_indices(points.len(), constraints)?;
    proof {
        lemma_no_index_error_from(constraints@, points@.len() as int, 0);
        assert forall|k: int| 0 <= k < constraints@.len() implies pair_in_bounds(#[trigger] constraints@[k].from, constraints@[k].to, points@.len() as int) by {
            assert(constraint_index_error(constraints@[k], points@.len() as int) is None);
        }
    }
    validate_unique_points(points)?;
    validate_constraint_geometry(points, constraints, policy)?;
    let base = if constraints.len() > 0 && points.len() >= 32 {
        delaunay_triangles_spatial(points, policy)?
    } else {
        delaunay_triangles(points, policy)?
    };
    proof {
        assert forall|t: int, i: int| 0 <= t < base@.len() && 0 <= i < 3 implies #[trigger] base@[t][i] < points@.len() by {
            assert(triangle_in_bounds(base@[t], points@.len() as int));
        }
    }
    let triangles = if all_constraints_present(base.as_slice(), constraints) {
        base
    } else if base.len() <= usize::MAX / 64 {
        insert_constraints(points, base, constraints, policy)?
    } else {
        return Err(Error::UnsupportedFeature { feature: "triangle count beyond the addressable range" });
    };
    if triangles.len() <= usize::MAX / 8 {
        validate_constrained_convex_hull_delaunay(points, constraints, triangles.as_slice(), policy)?;
    }
    let copy: Vec<ExactPoint> = vstd::slice::slice_to_vec(points);
    let public_constraints: Vec<Constraint> = vstd::slice::slice_to_vec(constraints);
    let edges: Vec<Constraint> = vstd::slice::slice_to_vec(constraints);
    Ok(TriangulationOutcome::new(
        ConstrainedTriangulation::from_parts_with_constraint_edges(copy, public_constraints, edges, triangles),
        TriangulationCertainty::Certified,
    ))
}

/// The fractions of the point where the lines through `a`, `b` and through
/// `c`, `d` meet: `a + t·(b - a)` with
/// `t = ((c - a) × (d - c)) / ((b - a) × (d - c))`.
pub open spec fn crossing_fractions(a: ((int, int), (int, int)), b: ((int, int), (int, int)), c: ((int, int), (int, int)), d: ((int, int), (int, int))) -> ((int, int), (int, int)) {
    let abx = frac_sub(b.0, a.0);
    let aby = frac_sub(b.1, a.1);
    let cdx = frac_sub(d.0, c.0);
    let cdy = frac_sub(d.1, c.1);
    let cax = frac_sub(c.0, a.0);
    let cay = frac_sub(c.1, a.1);
    let den = frac_sub(frac_mul(abx, cdy), frac_mul(aby, cdx));
    let num = frac_sub(frac_mul(cax, cdy), frac_mul(cay, cdx));
    let t = frac_div(num, den);
    (frac_add(a.0, frac_mul(t, abx)), frac_add(a.1, frac_mul(t, aby)))
}

/// The exact point where the lines through `a`, `b` and through `c`, `d`
/// meet, when the lines are not parallel and every intermediate fraction
/// fits the coordinate type.
fn line_crossing_point(a: &Point2, b: &Point2, c: &Point2, d: &Point2) -> (r: Option<Point2>)
    ensures
        r matches Some(p) ==> point_fractions(p) == crossing_fractions(point_fractions(*a), point_fractions(*b), point_fractions(*c), point_fractions(*d)),
{
    let abx = b.x.checked_sub(&a.x)?;
    let aby = b.y.checked_sub(&a.y)?;
    let cdx = d.x.checked_sub(&c.x)?;
    let cdy = d.y.checked_sub(&c.y)?;
    let cax = c.x.checked_sub(&a.x)?;
    let cay = c.y.checked_sub(&a.y)?;
    let den = abx.checked_mul(&cdy)?.checked_sub(&aby.checked_mul(&cdx)?)?;
    let num = cax.checked_mul(&cdy)?.checked_sub(&cay.checked_mul(&cdx)?)?;
    let t = num.checked_div(&den)?;
    let x = a.x.checked_add(&t.checked_mul(&abx)?)?;
    let y = a.y.checked_add(&t.checked_mul(&aby)?)?;
    Some(Point2::new(x, y))
}

/// Append `point` unless an exactly equal point is listed; its index.
fn push_unique_point(points: &mut Vec<Point2>, point: Point2) -> (r: usize)
    ensures
        final(points)@ == old(points)@ || final(points)@ == old(points)@.push(point),
        r < final(points)@.len(),
{
    let mut i: usize = 0;
    while i < points.len()
        invariant
            0 <= i <= points@.len(),
            points@ == old(points)@,
        decreases points@.len() - i,
    {
        if points[i].exact_eq(&point) {
            return i;
        }
        i = i + 1;
    }
    let index = points.len();
    points.push(point);
    index
}

/// Sort point indices along a segment: by `x` unless the segment is
/// vertical, then by `y`, in exact order.
fn sort_on_segment(points: &[Point2], from: usize, to: usize, indices: &mut Vec<usize>)
    requires
        from < points@.len(),
        to < points@.len(),
        forall|k: int| 0 <= k < old(indices)@.len() ==> #[trigger] old(indices)@[k] < points@.len(),
    ensures
        final(indices)@.len() == old(indices)@.len(),
        forall|k: int| 0 <= k < final(indices)@.len() ==> #[trigger] final(indices)@[k] < points@.len(),
{
    let use_x = !points[from].x.exact_eq(&points[to].x);
    let mut i: usize = 1;
    while i < indices.len()
        invariant
            indices@.len() == old(indices)@.len(),
            forall|k: int| 0 <= k < indices@.len() ==> #[trigger] indices@[k] < points@.len(),
        decreases indices@.len() - i,
    {
        let mut cursor = i;
        while cursor > 0
            invariant
                cursor < indices@.len(),
                indices@.len() == old(indices)@.len(),
                forall|k: int| 0 <= k < indices@.len() ==> #[trigger] indices@[k] < points@.len(),
            decreases cursor,
        {
            let current = indices[cursor];
            let previous = indices[cursor - 1];
            let before = if use_x { points[current].x.exact_lt(&points[previous].x) } else { points[current].y.exact_lt(&points[previous].y) };
            if !before {
                break;
            }
            indices.set(cursor, previous);
            indices.set(cursor - 1, current);
            cursor = cursor - 1;
        }
        i = i + 1;
    }
}

/// Append `constraint` unless the same edge, in either direction, is listed.
fn push_unique_constraint(constraints: &mut Vec<Constraint>, constraint: Constraint)
    ensures
        final(constraints)@ == old(constraints)@ || final(constraints)@ == old(constraints)@.push(constraint),
{
    let edge = EdgeKey::new(constraint.from, constraint.to);
    let mut i: usize = 0;
    while i < constraints.len()
        invariant
            0 <= i <= constraints@.len(),
            constraints@ == old(constraints)@,
        decreases constraints@.len() - i,
    {
        let existing = EdgeKey::new(constraints[i].from, constraints[i].to);
        if existing == edge {
            return;
        }
        i = i + 1;
    }
    constraints.push(constraint);
}

/// Planarize authored constraints: append the exact crossing point of every
/// two constraints that cross properly (once per distinct point), then split
/// every constraint at the points lying on it, in order along it, keeping
/// each resulting subsegment once.
fn planarize_constraints(points: &[Point2], constraints: &[Constraint], policy: PredicatePolicy) -> (r: Result<(Vec<Point2>, Vec<Constraint>), Error>)
    requires
        constraints_in_bounds(constraints@, points@.len() as int),
    ensures
        r matches Ok((planar, split)) ==> {
            &&& planar@.len() >= points@.len()
            &&& planar@.subrange(0, points@.len() as int) == points@
            &&& constraints_in_bounds(split@, planar@.len() as int)
        },
{
    let n = points.len();
    let m = constraints.len();
    let mut planar: Vec<Point2> = vstd::slice::slice_to_vec(points);
    let mut first: usize = 0;
    while first < m
        invariant
            m == constraints@.len(),
            n == points@.len(),
            planar@.len() >= n,
            planar@.subrange(0, n as int) == points@,
            constraints_in_bounds(constraints@, n as int),
        decreases m - first,
    {
        let mut second: usize = first + 1;
        while second < m
            invariant
                first < m,
                m == constraints@.len(),
                planar@.len() >= n,
                planar@.subrange(0, n as int) == points@,
                constraints_in_bounds(constraints@, n as int),
            decreases m - second,
        {
            let a = constraints[first];
            let b = constraints[second];
            proof {
                assert(pair_in_bounds(constraints@[first as int].from, constraints@[first as int].to, n as int));
                assert(pair_in_bounds(constraints@[second as int].from, constraints@[second as int].to, n as int));
            }
            if !(a.from == b.from || a.from == b.to || a.to == b.from || a.to == b.to) {
                let relation = segment_intersection(planar.as_slice(), a.from, a.to, b.from, b.to, policy)?;
                if relation == SegmentIntersection::Proper {
                    let point = match line_crossing_point(&planar[a.from], &planar[a.to], &planar[b.from], &planar[b.to]) {
                        Some(p) => p,
                        None => return Err(Error::UnsupportedFeature { feature: "constraint crossing point beyond the coordinate range" }),
                    };
                    let ghost before = planar@;
                    push_unique_point(&mut planar, point);
                    proof {
                        assert(planar@.subrange(0, n as int) =~= before.subrange(0, n as int));
                    }
                }
            }
            second = second + 1;
        }
        first = first + 1;
    }
    let mut split: Vec<Constraint> = Vec::new();
    let mut k: usize = 0;
    while k < m
        invariant
            m == constraints@.len(),
            planar@.len() >= n,
            constraints_in_bounds(constraints@, n as int),
            constraints_in_bounds(split@, planar@.len() as int),
        decreases m - k,
    {
        let c = constraints[k];
        proof { assert(pair_in_bounds(constraints@[k as int].from, constraints@[k as int].to, n as int)); }
        let mut on_segment: Vec<usize> = Vec::new();
        let mut index: usize = 0;
        while index < planar.len()
            invariant
                c.from < planar@.len(),
                c.to < planar@.len(),
                forall|j: int| 0 <= j < on_segment@.len() ==> #[trigger] on_segment@[j] < planar@.len(),
            decreases planar@.len() - index,
        {
            if point_on_segment(planar.as_slice(), c.from, c.to, index, policy)? {
                on_segment.push(index);
            }
            index = index + 1;
        }
        sort_on_segment(planar.as_slice(), c.from, c.to, &mut on_segment);
        let mut w: usize = 1;
        while w < on_segment.len()
            invariant
                1 <= w,
                forall|j: int| 0 <= j < on_segment@.len() ==> #[trigger] on_segment@[j] < planar@.len(),
                constraints_in_bounds(split@, planar@.len() as int),
            decreases on_segment@.len() - w,
        {
            let piece = Constraint::new(on_segment[w - 1], on_segment[w]);
            let ghost before = split@;
            push_unique_constraint(&mut split, piece);
            proof {
                assert(on_segment@[w - 1] < planar@.len() && on_segment@[w as int] < planar@.len());
                assert forall|j: int| 0 <= j < split@.len() implies pair_in_bounds(#[trigger] split@[j].from, split@[j].to, planar@.len() as int) by {
                    if j < before.len() { assert(split@[j] == before[j]); }
                }
            }
            w = w + 1;
        }
        k = k + 1;
    }
    Ok((planar, split))
}

/// Whether every ring index of the polygon names one of `count` points and
/// the flattened rings fit a buffer.
fn polygon_fits(polygon: &ConstraintPolygon, count: usize) -> (r: bool)
    ensures
        r ==> forall|i: int, k: int| 0 <= i < polygon.rings_view().len() && 0 <= k < polygon.rings_view()[i].len() ==>
            #[trigger] polygon.rings_view()[i][k] < count,
        r ==> flattened(polygon.rings_view()).len() <= usize::MAX,
{
    let rings = polygon.rings();
    let ghost views = polygon.rings_view();
    let mut total: usize = 0;
    let mut i: usize = 0;
    while i < rings.len()
        invariant
            0 <= i <= rings@.len(),
            ring_views(rings@) == views,
            views.len() == rings@.len(),
            total == flattened(views.take(i as int)).len(),
            forall|a: int, k: int| 0 <= a < i && 0 <= k < views[a].len() ==> #[trigger] views[a][k] < count,
        decreases rings@.len() - i,
    {
        let ring = &rings[i];
        proof { assert(views[i as int] == ring@); }
        let mut k: usize = 0;
        while k < ring.len()
            invariant
                0 <= k <= ring@.len(),
                views[i as int] == ring@,
                forall|j: int| 0 <= j < k ==> #[trigger] ring@[j] < count,
            decreases ring@.len() - k,
        {
            if ring[k] >= count {
                return false;
            }
            k = k + 1;
        }
        total = match total.checked_add(ring.len()) {
            Some(t) => t,
            None => return false,
        };
        proof {
            let t = views.take(i + 1);
            assert(t.drop_last() =~= views.take(i as int));
            assert(t.last() == views[i as int]);
        }
        i = i + 1;
    }
    proof {
        assert(views.take(views.len() as int) =~= views);
    }
    true
}

/// Triangulate exact points with constraints. Proper constraint crossings
/// add their exact crossing points as Steiner vertices, and every
/// constraint is split into the subsegments between the points on it. When
/// those subsegments close into the rings of a polygon with holes, the
/// polygon is ear-clipped and checked against the exact constrained
/// topology validator; otherwise the planar graph is triangulated over its
/// convex hull as [`constrained_delaunay_convex_hull`] does, with the
/// subsegments protected from empty-circle flips. Without constraints the
/// result is the Delaunay triangulation of the points.
#[verifier::loop_isolation(false)]
pub fn constrained_delaunay(
    context: &TriangulationContext,
    points: &[ExactPoint],
    constraints: &[Constraint],
) -> (r: Result<TriangulationOutcome<ConstrainedTriangulation>, Error>)
    requires
        points@.len() <= usize::MAX / 256,
    ensures
        constraint_indices_error_from(constraints@, points@.len() as int, 0) matches Some(reason)
            ==> r == Err::<TriangulationOutcome<ConstrainedTriangulation>, Error>(Error::InvalidInput { reason }),
        constraint_indices_error_from(constraints@, points@.len() as int, 0) is None && has_duplicate_point(points@)
            ==> r == Err::<TriangulationOutcome<ConstrainedTriangulation>, Error>(Error::InvalidInput { reason: "duplicate points are not supported" }),
        r matches Ok(out) ==> {
            &&& constraint_indices_error_from(constraints@, points@.len() as int, 0) is None
            &&& !has_duplicate_point(points@)
            &&& out.value.constraints_view() == constraints@
            &&& out.value.points_view().len() >= points@.len()
            &&& out.value.points_view().subrange(0, points@.len() as int) == points@
            &&& constraints@.len() == 0 ==> out.value.points_view() == points@ && out.value.constraint_edges_view().len() == 0
            &&& constraints@.len() > 0 && out.value.triangles_view().len() <= usize::MAX / 8 ==> {
                ||| constrained_topology_result(out.value.points_view(), out.value.constraint_edges_view(), out.value.triangles_view(), context.policy()) is Ok
                ||| constrained_hull_delaunay_result(out.value.points_view(), out.value.constraint_edges_view(), out.value.triangles_view(), context.policy()) == Ok::<(), Error>(())
            }
            &&& out.certainty == TriangulationCertainty::Certified
        },
{
    let policy = context.predicate_policy();
    check_constraint_indices(points.len(), constraints)?;
    proof {
        lemma_no_index_error_from(constraints@, points@.len() as int, 0);
        assert forall|k: int| 0 <= k < constraints@.len() implies pair_in_bounds(#[trigger] constraints@[k].from, constraints@[k].to, points@.len() as int) by {
            assert(constraint_index_error(constraints@[k], points@.len() as int) is None);
        }
    }
    validate_unique_points(points)?;
    if constraints.len() == 0 {
        let triangles = delaunay_triangles(points, policy)?;
        let copy: Vec<ExactPoint> = vstd::slice::slice_to_vec(points);
        proof { assert(copy@.subrange(0, points@.len() as int) =~= points@); }
        return Ok(TriangulationOutcome::new(
            ConstrainedTriangulation::from_parts_with_constraint_edges(copy, Vec::new(), Vec::new(), triangles),
            TriangulationCertainty::Certified,
        ));
    }
    let (planar, internal) = planarize_constraints(points, constraints, policy)?;
    if planar.len() > usize::MAX / 256 {
        return Err(Error::UnsupportedFeature { feature: "constraint crossing points beyond the addressable range" });
    }
    validate_constraint_pairs(planar.as_slice(), internal.as_slice(), policy)?;
    let public_constraints: Vec<Constraint> = vstd::slice::slice_to_vec(constraints);
    proof {
        assert forall|k: int| 0 <= k < internal@.len() implies
            (#[trigger] internal@[k]).from < planar@.len() && internal@[k].to < planar@.len() by {
            assert(pair_in_bounds(internal@[k].from, internal@[k].to, planar@.len() as int));
        }
    }
    match polygon_from_closed_constraints(planar.as_slice(), internal.as_slice(), policy)? {
        Some(polygon) => {
            if !polygon_fits(&polygon, planar.len()) {
                return Err(Error::InvalidInput { reason: "polygon triangulation index is out of bounds" });
            }
            let (flat_points, hole_indices, source_indices) = polygon.to_flat_polygon(planar.as_slice());
            let flat = triangulate_inner(flat_points.as_slice(), hole_indices.as_slice(), policy)?;
            if flat.len() % 3 != 0 {
                return Err(Error::InvalidInput { reason: "polygon triangulation index count is not a multiple of three" });
            }
            let mut triangles: Vec<Triangle> = Vec::new();
            let mut k: usize = 0;
            while k < flat.len()
                invariant
                    flat@.len() % 3 == 0,
                    k % 3 == 0,
                    k <= flat@.len(),
                decreases flat@.len() - k,
            {
                proof {
                    let len = flat@.len() as int;
                    let ki = k as int;
                    assert(ki + 3 <= len) by (nonlinear_arith) requires ki % 3 == 0, len % 3 == 0, ki < len;
                }
                let (a, b, c) = (flat[k], flat[k + 1], flat[k + 2]);
                if a >= source_indices.len() || b >= source_indices.len() || c >= source_indices.len() {
                    return Err(Error::InvalidInput { reason: "polygon triangulation index is out of bounds" });
                }
                triangles.push([source_indices[a], source_indices[b], source_indices[c]]);
                k = k + 3;
            }
            if triangles.len() > usize::MAX / 8 {
                return Err(Error::UnsupportedFeature { feature: "triangle count beyond the addressable range" });
            }
            validate_constrained_topology(planar.as_slice(), internal.as_slice(), triangles.as_slice(), policy)?;
            return Ok(TriangulationOutcome::new(
                ConstrainedTriangulation::from_parts_with_constraint_edges(planar, public_constraints, internal, triangles),
                TriangulationCertainty::Certified,
            ));
        },
        None => {},
    }
    let base = if planar.len() >= 32 {
        delaunay_triangles_spatial(planar.as_slice(), policy)?
    } else {
        delaunay_triangles(planar.as_slice(), policy)?
    };
    proof {
        assert forall|t: int, i: int| 0 <= t < base@.len() && 0 <= i < 3 implies #[trigger] base@[t][i] < planar@.len() by {
            assert(triangle_in_bounds(base@[t], planar@.len() as int));
        }
    }
    let triangles = if all_constraints_present(base.as_slice(), internal.as_slice()) {
        base
    } else if base.len() <= usize::MAX / 64 {
        insert_constraints(planar.as_slice(), base, internal.as_slice(), policy)?
    } else {
        return Err(Error::UnsupportedFeature { feature: "triangle count beyond the addressable range" });
    };
    if triangles.len() <= usize::MAX / 8 {
        validate_constrained_convex_hull_delaunay(planar.as_slice(), internal.as_slice(), triangles.as_slice(), policy)?;
    }
    Ok(TriangulationOutcome::new(
        ConstrainedTriangulation::from_parts_with_constraint_edges(planar, public_constraints, internal, triangles),
        TriangulationCertainty::Certified,
    ))
}

} // verus!
