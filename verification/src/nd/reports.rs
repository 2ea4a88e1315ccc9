//! Validation violation records and reports of the D-dimensional TDS.
use vstd::prelude::*;
use crate::nd::handles::{CellHandle, FacetKey};

verus! {

/// View of one combinatorial violation: cell, slot and reason text.
pub type CombinatorialViolationView = (Option<usize>, Option<usize>, Seq<char>);

/// One combinatorial TDS validation violation.
#[derive(Debug)]
pub struct TdsCombinatorialViolationD {
    cell: Option<CellHandle>,
    slot: Option<usize>,
    reason: &'static str,
}

impl View for TdsCombinatorialViolationD {
    type V = CombinatorialViolationView;

    closed spec fn view(&self) -> CombinatorialViolationView {
        (
            match self.cell {
                Some(c) => Some(c@),
                None => None,
            },
            self.slot,
            self.reason@,
        )
    }
}

impl TdsCombinatorialViolationD {
    /// Constructs a validation violation record.
    pub fn new(cell: Option<CellHandle>, slot: Option<usize>, reason: &'static str) -> (r: TdsCombinatorialViolationD)
        ensures
            r@ == (
                match cell {
                    Some(c) => Some(c@),
                    None => None,
                },
                slot,
                reason@,
            ),
    {
        TdsCombinatorialViolationD { cell, slot, reason }
    }

    /// Cell associated with the violation, when one exists.
    pub fn cell(&self) -> (r: Option<CellHandle>)
        ensures
            match r {
                Some(c) => self@.0 == Some(c@),
                None => self@.0 is None,
            },
    {
        self.cell
    }

    /// Vertex/neighbor slot associated with the violation, when one exists.
    pub fn slot(&self) -> (r: Option<usize>)
        ensures
            r == self@.1,
    {
        self.slot
    }

    /// Stable human-readable reason also used by the fail-fast API.
    pub fn reason(&self) -> (r: &'static str)
        ensures
            r@ == self@.2,
    {
        self.reason
    }
}

/// Report produced by combinatorial TDS validation.
#[derive(Debug)]
pub struct TdsCombinatorialValidationReportD {
    dimension: usize,
    vertex_count: usize,
    cell_count: usize,
    facet_count: usize,
    boundary_facet_count: usize,
    interior_facet_count: usize,
    violations: Vec<TdsCombinatorialViolationD>,
}

impl TdsCombinatorialValidationReportD {
    /// Validated ambient dimension.
    pub closed spec fn dimension_view(&self) -> usize {
        self.dimension
    }

    /// Vertex count during validation.
    pub closed spec fn vertex_count_view(&self) -> usize {
        self.vertex_count
    }

    /// Cell count during validation.
    pub closed spec fn cell_count_view(&self) -> usize {
        self.cell_count
    }

    /// Number of canonical facets.
    pub closed spec fn facet_count_view(&self) -> usize {
        self.facet_count
    }

    /// Number of neighbor slots without a link.
    pub closed spec fn boundary_facet_count_view(&self) -> usize {
        self.boundary_facet_count
    }

    /// Number of neighbor slots with a link.
    pub closed spec fn interior_facet_count_view(&self) -> usize {
        self.interior_facet_count
    }

    /// Violations in report order.
    pub closed spec fn violations_view(&self) -> Seq<CombinatorialViolationView> {
        self.violations@.map_values(|v: TdsCombinatorialViolationD| v@)
    }

    /// Assemble a report from its counts and violations.
    pub(crate) fn from_parts(
        dimension: usize,
        vertex_count: usize,
        cell_count: usize,
        facet_count: usize,
        boundary_facet_count: usize,
        interior_facet_count: usize,
        violations: Vec<TdsCombinatorialViolationD>,
    ) -> (r: TdsCombinatorialValidationReportD)
        ensures
            r.dimension_view() == dimension,
            r.vertex_count_view() == vertex_count,
            r.cell_count_view() == cell_count,
            r.facet_count_view() == facet_count,
            r.boundary_facet_count_view() == boundary_facet_count,
            r.interior_facet_count_view() == interior_facet_count,
            r.violations_view() == violations@.map_values(|v: TdsCombinatorialViolationD| v@),
    {
        TdsCombinatorialValidationReportD {
            dimension,
            vertex_count,
            cell_count,
            facet_count,
            boundary_facet_count,
            interior_facet_count,
            violations,
        }
    }

    /// Returns the validated ambient dimension.
    pub fn dimension(&self) -> (r: usize)
        ensures
            r == self.dimension_view(),
    {
        self.dimension
    }

    /// Number of vertices present during validation.
    pub fn vertex_count(&self) -> (r: usize)
        ensures
            r == self.vertex_count_view(),
    {
        self.vertex_count
    }

    /// Number of cells present during validation.
    pub fn cell_count(&self) -> (r: usize)
        ensures
            r == self.cell_count_view(),
    {
        self.cell_count
    }

    /// Number of canonical facets found during validation.
    pub fn facet_count(&self) -> (r: usize)
        ensures
            r == self.facet_count_view(),
    {
        self.facet_count
    }

    /// Number of facets without a neighbor link.
    pub fn boundary_facet_count(&self) -> (r: usize)
        ensures
            r == self.boundary_facet_count_view(),
    {
        self.boundary_facet_count
    }

    /// Number of facets with at least one neighbor link.
    pub fn interior_facet_count(&self) -> (r: usize)
        ensures
            r == self.interior_facet_count_view(),
    {
        self.interior_facet_count
    }

    /// Borrow validation violations.
    pub fn violations(&self) -> (r: &[TdsCombinatorialViolationD])
        ensures
            r@.map_values(|v: TdsCombinatorialViolationD| v@) == self.violations_view(),
    {
        self.violations.as_slice()
    }

    /// Returns true when validation found no violations.
    pub fn is_valid(&self) -> (r: bool)
        ensures
            r == (self.violations_view().len() == 0),
    {
        self.violations.len() == 0
    }
}

/// Boundary policy for D-dimensional manifold validation.
#[derive(Clone, Copy, Debug, PartialEq, Eq, Structural)]
pub enum TdsBoundaryPolicyD {
    /// Finite facets may be on the boundary with degree one.
    AllowBoundary,
    /// Every finite facet must have exactly two incident cells.
    Closed,
}

/// View of one manifold violation: facet key indices, cell indices, reason.
pub type ManifoldViolationView = (Option<Seq<usize>>, Seq<usize>, Seq<char>);

/// One manifold-validation violation addressed by facet/cell handles.
#[derive(Debug)]
pub struct TdsManifoldViolationD {
    facet: Option<FacetKey>,
    cells: Vec<CellHandle>,
    reason: &'static str,
}

impl View for TdsManifoldViolationD {
    type V = ManifoldViolationView;

    closed spec fn view(&self) -> ManifoldViolationView {
        (
            match self.facet {
                Some(k) => Some(k.key_indices()),
                None => None,
            },
            self.cells@.map_values(|c: CellHandle| c@),
            self.reason@,
        )
    }
}

impl TdsManifoldViolationD {
    /// Constructs a manifold violation record.
    pub fn new(facet: Option<FacetKey>, cells: Vec<CellHandle>, reason: &'static str) -> (r: TdsManifoldViolationD)
        ensures
            r@ == (
                match facet {
                    Some(k) => Some(k.key_indices()),
                    None => None,
                },
                cells@.map_values(|c: CellHandle| c@),
                reason@,
            ),
    {
        TdsManifoldViolationD { facet, cells, reason }
    }

    /// Facet associated with the violation, when the violation is facet-local.
    pub fn facet(&self) -> (r: Option<&FacetKey>)
        ensures
            match r {
                Some(k) => self@.0 == Some(k.key_indices()),
                None => self@.0 is None,
            },
    {
        match &self.facet {
            Some(k) => Some(k),
            None => None,
        }
    }

    /// Cells associated with the violation.
    pub fn cells(&self) -> (r: &[CellHandle])
        ensures
            r@.map_values(|c: CellHandle| c@) == self@.1,
    {
        self.cells.as_slice()
    }

    /// Stable human-readable reason also used by the fail-fast API.
    pub fn reason(&self) -> (r: &'static str)
        ensures
            r@ == self@.2,
    {
        self.reason
    }
}

/// Report produced by finite-facet manifold validation.
#[derive(Debug)]
pub struct TdsManifoldValidationReportD {
    boundary_policy: TdsBoundaryPolicyD,
    finite_facet_count: usize,
    boundary_facet_count: usize,
    interior_facet_count: usize,
    violations: Vec<TdsManifoldViolationD>,
}

impl TdsManifoldValidationReportD {
    /// Boundary policy used (spec view).
    pub closed spec fn boundary_policy_view(&self) -> TdsBoundaryPolicyD {
        self.boundary_policy
    }

    /// Finite facets inspected (spec view).
    pub closed spec fn finite_facet_count_view(&self) -> usize {
        self.finite_facet_count
    }

    /// Finite facets of degree one (spec view).
    pub closed spec fn boundary_facet_count_view(&self) -> usize {
        self.boundary_facet_count
    }

    /// Finite facets of degree two (spec view).
    pub closed spec fn interior_facet_count_view(&self) -> usize {
        self.interior_facet_count
    }

    /// Violations in report order (spec view).
    pub closed spec fn violations_view(&self) -> Seq<ManifoldViolationView> {
        self.violations@.map_values(|v: TdsManifoldViolationD| v@)
    }

    /// Assemble a report.
    pub(crate) fn from_parts(
        boundary_policy: TdsBoundaryPolicyD,
        finite_facet_count: usize,
        boundary_facet_count: usize,
        interior_facet_count: usize,
        violations: Vec<TdsManifoldViolationD>,
    ) -> (r: TdsManifoldValidationReportD)
        ensures
            r.boundary_policy_view() == boundary_policy,
            r.finite_facet_count_view() == finite_facet_count,
            r.boundary_facet_count_view() == boundary_facet_count,
            r.interior_facet_count_view() == interior_facet_count,
            r.violations_view() == violations@.map_values(|v: TdsManifoldViolationD| v@),
    {
        TdsManifoldValidationReportD { boundary_policy, finite_facet_count, boundary_facet_count, interior_facet_count, violations }
    }

    /// Boundary policy used for validation.
    pub fn boundary_policy(&self) -> (r: TdsBoundaryPolicyD)
        ensures
            r == self.boundary_policy_view(),
    {
        self.boundary_policy
    }

    /// Number of finite canonical facets inspected.
    pub fn finite_facet_count(&self) -> (r: usize)
        ensures
            r == self.finite_facet_count_view(),
    {
        self.finite_facet_count
    }

    /// Number of finite facets with degree one.
    pub fn boundary_facet_count(&self) -> (r: usize)
        ensures
            r == self.boundary_facet_count_view(),
    {
        self.boundary_facet_count
    }

    /// Number of finite facets with degree two.
    pub fn interior_facet_count(&self) -> (r: usize)
        ensures
            r == self.interior_facet_count_view(),
    {
        self.interior_facet_count
    }

    /// Borrow validation violations.
    pub fn violations(&self) -> (r: &[TdsManifoldViolationD])
        ensures
            r@.map_values(|v: TdsManifoldViolationD| v@) == self.violations_view(),
    {
        self.violations.as_slice()
    }

    /// Returns true when validation found no violations.
    pub fn is_valid(&self) -> (r: bool)
        ensures
            r == (self.violations_view().len() == 0),
    {
        self.violations.len() == 0
    }
}

/// View of one geometric violation: cell, reason text, undecided predicate.
pub type GeometricViolationView = (Option<usize>, Seq<char>, Option<Seq<char>>);

/// One geometric-validation violation addressed by a TDS cell handle.
#[derive(Debug)]
pub struct TdsGeometricViolationD {
    cell: Option<CellHandle>,
    reason: &'static str,
    predicate_undecided: Option<&'static str>,
}

impl View for TdsGeometricViolationD {
    type V = GeometricViolationView;

    closed spec fn view(&self) -> GeometricViolationView {
        (
            match self.cell {
                Some(c) => Some(c@),
                None => None,
            },
            self.reason@,
            match self.predicate_undecided {
                Some(p) => Some(p@),
                None => None,
            },
        )
    }
}

impl TdsGeometricViolationD {
    /// Constructs a geometric validation violation.
    pub fn new(cell: Option<CellHandle>, reason: &'static str) -> (r: TdsGeometricViolationD)
        ensures
            r@ == (
                match cell {
                    Some(c) => Some(c@),
                    None => None,
                },
                reason@,
                None::<Seq<char>>,
            ),
    {
        TdsGeometricViolationD { cell, reason, predicate_undecided: None }
    }

    /// A violation recording that `predicate` could not be decided.
    pub(crate) fn undecided(cell: Option<CellHandle>, predicate: &'static str) -> (r: TdsGeometricViolationD)
        ensures
            r@ == (
                match cell {
                    Some(c) => Some(c@),
                    None => None,
                },
                predicate@,
                Some(predicate@),
            ),
    {
        TdsGeometricViolationD { cell, reason: predicate, predicate_undecided: Some(predicate) }
    }

    /// Cell associated with the violation, when available.
    pub fn cell(&self) -> (r: Option<CellHandle>)
        ensures
            match r {
                Some(c) => self@.0 == Some(c@),
                None => self@.0 is None,
            },
    {
        self.cell
    }

    /// Stable human-readable reason also used by the fail-fast API.
    pub fn reason(&self) -> (r: &'static str)
        ensures
            r@ == self@.1,
    {
        self.reason
    }

    /// Predicate whose certainty budget was exhausted, when this is not a
    /// decided geometric violation.
    pub fn undecided_predicate(&self) -> (r: Option<&'static str>)
        ensures
            match r {
                Some(p) => self@.2 == Some(p@),
                None => self@.2 is None,
            },
    {
        self.predicate_undecided
    }
}

/// Report produced by finite-cell geometric TDS validation.
#[derive(Debug)]
pub struct TdsGeometricValidationReportD {
    finite_cell_count: usize,
    positive_orientation_count: usize,
    negative_orientation_count: usize,
    cospherical_boundary_count: usize,
    violations: Vec<TdsGeometricViolationD>,
}

impl TdsGeometricValidationReportD {
    /// The counts and violations: finite cells, positive and negative
    /// orientations, cospherical queries, violations (spec view).
    pub closed spec fn tally_view(&self) -> (int, int, int, int, Seq<GeometricViolationView>) {
        (
            self.finite_cell_count as int,
            self.positive_orientation_count as int,
            self.negative_orientation_count as int,
            self.cospherical_boundary_count as int,
            self.violations@.map_values(|v: TdsGeometricViolationD| v@),
        )
    }

    /// Assemble a report.
    pub(crate) fn from_parts(
        finite_cell_count: usize,
        positive_orientation_count: usize,
        negative_orientation_count: usize,
        cospherical_boundary_count: usize,
        violations: Vec<TdsGeometricViolationD>,
    ) -> (r: TdsGeometricValidationReportD)
        ensures
            r.tally_view() == (
                finite_cell_count as int,
                positive_orientation_count as int,
                negative_orientation_count as int,
                cospherical_boundary_count as int,
                violations@.map_values(|v: TdsGeometricViolationD| v@),
            ),
    {
        TdsGeometricValidationReportD {
            finite_cell_count,
            positive_orientation_count,
            negative_orientation_count,
            cospherical_boundary_count,
            violations,
        }
    }

    /// Number of finite cells inspected.
    pub fn finite_cell_count(&self) -> (r: usize)
        ensures
            r == self.tally_view().0,
    {
        self.finite_cell_count
    }

    /// Number of finite cells with positive orientation.
    pub fn positive_orientation_count(&self) -> (r: usize)
        ensures
            r == self.tally_view().1,
    {
        self.positive_orientation_count
    }

    /// Number of finite cells with negative orientation.
    pub fn negative_orientation_count(&self) -> (r: usize)
        ensures
            r == self.tally_view().2,
    {
        self.negative_orientation_count
    }

    /// Number of exact cospherical boundary query cases observed.
    pub fn cospherical_boundary_count(&self) -> (r: usize)
        ensures
            r == self.tally_view().3,
    {
        self.cospherical_boundary_count
    }

    /// Borrow validation violations.
    pub fn violations(&self) -> (r: &[TdsGeometricViolationD])
        ensures
            r@.map_values(|v: TdsGeometricViolationD| v@) == self.tally_view().4,
    {
        self.violations.as_slice()
    }

    /// Returns true when validation found no violations.
    pub fn is_valid(&self) -> (r: bool)
        ensures
            r == (self.tally_view().4.len() == 0),
    {
        self.violations.len() == 0
    }
}

} // verus!
