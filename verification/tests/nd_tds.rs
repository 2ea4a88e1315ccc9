use hypertri::nd::{
    Cell, CellHandle, PointD, TdsBoundaryPolicyD, TriangulationD, TriangulationDataStructureD,
    VertexHandle,
};
use hypertri::{Error, PredicatePolicy, Real, TriangulationContext};

fn p(x: i64, y: i64) -> PointD {
    PointD::new(vec![Real::from_int(x), Real::from_int(y)])
}

fn handles(indices: &[usize]) -> Vec<VertexHandle> {
    indices.iter().copied().map(VertexHandle::new).collect()
}

fn square(second: &[usize], second_neighbors: Vec<Option<CellHandle>>) -> TriangulationDataStructureD {
    let mut tds = TriangulationDataStructureD::new(2).unwrap();
    for point in [p(0, 0), p(1, 0), p(0, 1), p(1, 1)] {
        tds.add_finite_vertex(point).unwrap();
    }
    tds.add_cell(Cell::new(handles(&[0, 1, 2]), vec![Some(CellHandle::new(1)), None, None]))
        .unwrap();
    tds.add_cell(Cell::new(handles(second), second_neighbors)).unwrap();
    tds
}

fn consistent_square() -> TriangulationDataStructureD {
    square(&[1, 3, 2], vec![None, Some(CellHandle::new(0)), None])
}

#[test]
fn consistently_oriented_square_is_a_valid_manifold_with_boundary() {
    let tds = consistent_square();
    tds.validate_combinatorial().unwrap();
    let report = tds.validate_manifold_report(TdsBoundaryPolicyD::AllowBoundary);
    assert!(report.is_valid());
    assert_eq!(report.finite_facet_count(), 5);
    assert_eq!(report.boundary_facet_count(), 4);
    assert_eq!(report.interior_facet_count(), 1);
    assert_eq!(report.boundary_policy(), TdsBoundaryPolicyD::AllowBoundary);
    tds.validate_manifold(TdsBoundaryPolicyD::AllowBoundary).unwrap();
}

#[test]
fn closed_policy_reports_boundary_facets_in_key_order() {
    let tds = consistent_square();
    let report = tds.validate_manifold_report(TdsBoundaryPolicyD::Closed);
    let keys: Vec<Vec<usize>> = report
        .violations()
        .iter()
        .map(|v| v.facet().unwrap().vertices().iter().map(|h| h.index()).collect())
        .collect();
    assert_eq!(keys, vec![vec![0, 1], vec![0, 2], vec![1, 3], vec![2, 3]]);
    let cells: Vec<usize> = report.violations().iter().map(|v| v.cells()[0].index()).collect();
    assert_eq!(cells, vec![0, 0, 1, 1]);
    assert!(report
        .violations()
        .iter()
        .all(|v| v.reason() == "finite facet has boundary degree under closed policy"));
    assert_eq!(
        tds.validate_manifold(TdsBoundaryPolicyD::Closed),
        Err(Error::InvalidInput {
            reason: "finite facet has boundary degree under closed policy"
        })
    );
}

#[test]
fn inconsistent_orientation_is_reported_on_the_shared_facet() {
    let tds = square(&[1, 2, 3], vec![None, None, Some(CellHandle::new(0))]);
    tds.validate_combinatorial().unwrap();
    let report = tds.validate_manifold_report(TdsBoundaryPolicyD::AllowBoundary);
    assert_eq!(report.violations().len(), 1);
    let violation = &report.violations()[0];
    assert_eq!(violation.reason(), "adjacent cells have the same induced facet orientation");
    let key: Vec<usize> = violation.facet().unwrap().vertices().iter().map(|h| h.index()).collect();
    assert_eq!(key, vec![1, 2]);
    let cells: Vec<usize> = violation.cells().iter().map(|c| c.index()).collect();
    assert_eq!(cells, vec![0, 1]);
}

#[test]
fn broken_links_refuse_manifold_and_geometric_validation() {
    let tds = square(&[1, 3, 2], vec![None, None, None]);
    assert_eq!(
        tds.validate_combinatorial(),
        Err(Error::InvalidInput {
            reason: "TDS neighbor link is not reciprocal"
        })
    );
    let manifold = tds.validate_manifold_report(TdsBoundaryPolicyD::AllowBoundary);
    assert_eq!(manifold.violations().len(), 1);
    assert_eq!(
        manifold.violations()[0].reason(),
        "TDS combinatorial validation must pass before manifold validation"
    );
    assert!(manifold.violations()[0].facet().is_none());
    let context = TriangulationContext::new(PredicatePolicy::strict());
    let geometric = tds.validate_geometric_report(&context).value;
    assert_eq!(geometric.violations().len(), 1);
    assert_eq!(
        geometric.violations()[0].reason(),
        "TDS combinatorial validation must pass before geometric validation"
    );
    assert_eq!(geometric.finite_cell_count(), 0);
    assert!(TriangulationD::new(tds).is_err());
}

#[test]
fn geometric_report_counts_orientations_and_cospherical_queries() {
    let tds = consistent_square();
    let context = TriangulationContext::new(PredicatePolicy::strict());
    let report = tds.validate_geometric_report(&context).value;
    assert!(report.is_valid());
    assert_eq!(report.finite_cell_count(), 2);
    assert_eq!(report.positive_orientation_count(), 2);
    assert_eq!(report.negative_orientation_count(), 0);
    assert_eq!(report.cospherical_boundary_count(), 2);
    tds.validate_geometric(&context).unwrap();
    let triangulation = TriangulationD::new(tds).unwrap();
    assert_eq!(triangulation.tds().cells().len(), 2);
}

#[test]
fn geometric_report_flags_a_point_inside_a_circumcircle() {
    let mut tds = consistent_square();
    tds.add_finite_vertex(PointD::new(vec![
        Real::fraction(1, 4).unwrap(),
        Real::fraction(1, 4).unwrap(),
    ]))
    .unwrap();
    let context = TriangulationContext::new(PredicatePolicy::strict());
    let report = tds.validate_geometric_report(&context).value;
    assert_eq!(report.violations().len(), 2);
    assert!(report
        .violations()
        .iter()
        .all(|v| v.reason() == "D-dimensional simplex violates empty-sphere legality"));
    assert_eq!(report.violations()[0].cell(), Some(CellHandle::new(0)));
    assert_eq!(report.violations()[0].undecided_predicate(), None);
    assert_eq!(
        tds.validate_geometric(&context),
        Err(Error::InvalidInput {
            reason: "D-dimensional simplex violates empty-sphere legality"
        })
    );
}

#[test]
fn combinatorial_report_counts_each_linked_facet_once() {
    let tds = consistent_square();
    let report = tds.validate_combinatorial_report();
    assert!(report.is_valid());
    assert_eq!(report.facet_count(), 5);
    assert_eq!(report.interior_facet_count(), 1);
    assert_eq!(report.boundary_facet_count(), 4);
}
