use hypertri::cdt::{constrained_delaunay, constrained_delaunay_convex_hull, constrained_triangulation_convex_hull, ConstrainedTriangulation, DelaunayTriangulation};
use hypertri::cdt_validate::{
    points_are_collinear, sorted_constraint_edges, triangulates_convex_hull, validate_constrained_convex_hull_delaunay,
    validate_constrained_convex_hull_topology, validate_constraints, validate_triangles,
};
use hypertri::topology::{triangulation_has_edge, EdgeKey};
use hypertri::{Constraint, Error, ExactPoint, Point2, PredicatePolicy, Real, Sign, TriangulationCertainty, TriangulationContext};

fn context() -> TriangulationContext {
    TriangulationContext::new(PredicatePolicy::strict())
}

fn p(x: i64, y: i64) -> ExactPoint {
    Point2::new(Real::from_int(x), Real::from_int(y))
}

fn invalid(reason: &'static str) -> Error {
    Error::InvalidInput { reason }
}

fn square() -> Vec<ExactPoint> {
    vec![p(0, 0), p(1, 0), p(1, 1), p(0, 1)]
}

#[test]
fn convex_hull_topology_contract_rejects_consistent_negative_winding() {
    let points = square();

    let error = validate_constrained_convex_hull_topology(&points, &[], &[[0, 2, 1], [0, 3, 2]], PredicatePolicy::strict()).unwrap_err();

    assert_eq!(error, invalid("triangle winding is not positive"));
}

#[test]
fn validation_rejects_locally_legal_incomplete_convex_hull() {
    let points = vec![p(-905, 756), p(-1490, 702), p(-1611, 691), p(-2273, -576), p(-385, -1400)];
    let incomplete = DelaunayTriangulation::from_parts(points, vec![[0, 1, 3], [1, 2, 3], [0, 3, 4]]);

    assert_eq!(incomplete.validate(&context()).unwrap_err(), invalid("triangulation does not cover the convex hull"));
}

#[test]
fn validation_rejects_missing_constraint_edge() {
    let points = vec![p(0, 0), p(2, 0), p(2, 2), p(0, 2)];
    let triangulation = ConstrainedTriangulation::from_parts_with_constraint_edges(
        points,
        vec![Constraint::new(0, 2)],
        vec![Constraint::new(0, 2)],
        vec![[0, 1, 3], [1, 2, 3]],
    );

    let error = triangulation.validate(&context()).unwrap_err();

    assert_eq!(error, invalid("constraint edge missing from triangulation"));
}

#[test]
fn validation_rejects_illegal_unconstrained_interior_edge() {
    let points = vec![p(0, 0), p(4, 0), p(3, 2), p(0, 3)];
    let triangulation = DelaunayTriangulation::from_parts(points, vec![[0, 1, 3], [1, 2, 3]]);

    let error = triangulation.validate(&context()).unwrap_err();

    assert_eq!(error, invalid("unconstrained interior edge violates Delaunay legality"));
}

#[test]
fn square_with_either_diagonal_is_delaunay() {
    for triangles in [vec![[0, 1, 2], [0, 2, 3]], vec![[0, 1, 3], [1, 2, 3]]] {
        let triangulation = DelaunayTriangulation::from_parts(square(), triangles);
        let outcome = triangulation.validate(&context()).unwrap();
        assert_eq!(outcome.certainty, TriangulationCertainty::Certified);
    }
}

#[test]
fn legal_diagonal_of_a_kite_validates() {
    let points = vec![p(0, 0), p(4, 0), p(3, 2), p(0, 3)];
    let triangulation = DelaunayTriangulation::from_parts(points, vec![[0, 1, 2], [0, 2, 3]]);

    triangulation.validate(&context()).unwrap();
}

#[test]
fn protected_illegal_edge_is_accepted_by_the_constrained_check() {
    let points = vec![p(0, 0), p(4, 0), p(3, 2), p(0, 3)];
    let protected = ConstrainedTriangulation::from_parts(points.clone(), vec![Constraint::new(1, 3)], vec![[0, 1, 3], [1, 2, 3]]);
    protected.validate(&context()).unwrap();
    protected.validate_unconstrained_edges_are_delaunay(&context()).unwrap();

    let unprotected = ConstrainedTriangulation::from_parts(points, vec![], vec![[0, 1, 3], [1, 2, 3]]);
    unprotected.validate(&context()).unwrap();
    assert_eq!(
        unprotected.validate_unconstrained_edges_are_delaunay(&context()).unwrap_err(),
        invalid("unconstrained interior edge violates Delaunay legality")
    );
}

#[test]
fn triangle_checks_report_each_malformation() {
    let policy = PredicatePolicy::strict();
    let points = square();
    assert_eq!(validate_triangles(&points, &[[0, 0, 1]], policy), Err(invalid("triangle has duplicate vertex indices")));
    assert_eq!(validate_triangles(&points, &[[0, 1, 7]], policy), Err(invalid("triangle index out of bounds")));
    let line = vec![p(0, 0), p(1, 1), p(2, 2)];
    assert_eq!(validate_triangles(&line, &[[0, 1, 2]], policy), Err(invalid("triangle is degenerate")));
    assert_eq!(validate_triangles(&points, &[[0, 1, 2], [0, 3, 2]], policy), Err(invalid("triangle winding is inconsistent")));
    assert_eq!(validate_triangles(&points, &[[0, 1, 2], [1, 2, 0]], policy), Err(invalid("duplicate triangle")));
    assert_eq!(validate_triangles(&points, &[[0, 1, 2], [0, 2, 3]], policy), Ok(Some(Sign::Positive)));
    assert_eq!(validate_triangles(&points, &[[0, 2, 1]], policy), Ok(Some(Sign::Negative)));
    assert_eq!(validate_triangles(&points, &[], policy), Ok(None));
}

#[test]
fn edge_with_three_triangles_is_rejected() {
    let points = vec![p(0, 0), p(2, 0), p(1, 1), p(1, -1), p(1, 3)];
    let triangulation = DelaunayTriangulation::from_parts(points, vec![[0, 1, 2], [1, 0, 3], [0, 1, 4]]);

    assert_eq!(
        triangulation.validate(&context()).unwrap_err(),
        invalid("triangulation edge has more than two adjacent triangles")
    );
}

#[test]
fn constraint_checks_report_each_malformation() {
    assert_eq!(validate_constraints(4, &[Constraint::new(0, 4)]), Err(invalid("constraint edge index out of bounds")));
    assert_eq!(validate_constraints(4, &[Constraint::new(2, 2)]), Err(invalid("constraint edge endpoints must differ")));
    assert_eq!(validate_constraints(4, &[Constraint::new(0, 1), Constraint::new(3, 2)]), Ok(()));

    let triangulation = ConstrainedTriangulation::from_parts(square(), vec![Constraint::new(0, 9)], vec![[0, 1, 2], [0, 2, 3]]);
    assert_eq!(triangulation.validate(&context()).unwrap_err(), invalid("constraint edge index out of bounds"));
}

#[test]
fn constraint_edges_are_sorted_and_deduplicated() {
    let edges = sorted_constraint_edges(&[Constraint::new(3, 1), Constraint::new(0, 2), Constraint::new(1, 3), Constraint::new(2, 0)]);

    assert_eq!(edges, vec![EdgeKey::new(0, 2), EdgeKey::new(1, 3)]);
}

#[test]
fn convex_hull_coverage_decisions() {
    let policy = PredicatePolicy::strict();
    let points = square();
    assert_eq!(triangulates_convex_hull(&points, &[[0, 1, 2], [0, 2, 3]], policy), Ok(true));
    assert_eq!(triangulates_convex_hull(&points, &[[0, 1, 2]], policy), Ok(false));

    let with_center = vec![p(0, 0), p(2, 0), p(2, 2), p(0, 2), p(1, 1)];
    let fan = [[0, 1, 4], [1, 2, 4], [2, 3, 4], [3, 0, 4]];
    assert_eq!(triangulates_convex_hull(&with_center, &fan, policy), Ok(true));
    assert_eq!(triangulates_convex_hull(&with_center, &fan[..3], policy), Ok(false));

    let line = vec![p(0, 0), p(1, 1), p(3, 3)];
    assert_eq!(triangulates_convex_hull(&line, &[], policy), Ok(true));
    assert_eq!(triangulates_convex_hull(&points, &[], policy), Ok(false));
}

#[test]
fn collinearity_skips_repeated_first_points() {
    let policy = PredicatePolicy::strict();
    assert_eq!(points_are_collinear(&[], policy), Ok(true));
    assert_eq!(points_are_collinear(&[p(1, 1), p(1, 1)], policy), Ok(true));
    assert_eq!(points_are_collinear(&[p(1, 1), p(1, 1), p(2, 3), p(3, 5)], policy), Ok(true));
    assert_eq!(points_are_collinear(&[p(1, 1), p(1, 1), p(2, 3), p(3, 4)], policy), Ok(false));
}

#[test]
fn constrained_convex_hull_delaunay_checks_coverage_last() {
    let policy = PredicatePolicy::strict();
    let points = vec![p(0, 0), p(4, 0), p(3, 2), p(0, 3)];
    assert_eq!(
        validate_constrained_convex_hull_delaunay(&points, &[Constraint::new(1, 3)], &[[0, 1, 3], [1, 2, 3]], policy),
        Ok(())
    );
    assert_eq!(
        validate_constrained_convex_hull_delaunay(&points, &[Constraint::new(0, 1)], &[[0, 1, 3]], policy),
        Err(invalid("constrained triangulation does not cover the convex hull"))
    );
    assert_eq!(
        validate_constrained_convex_hull_topology(&points, &[], &[[0, 1, 3], [1, 2, 3]], policy),
        Ok(())
    );
}

#[test]
fn triangulation_records_return_their_parts() {
    let triangulation = ConstrainedTriangulation::from_parts_with_constraint_edges(
        square(),
        vec![Constraint::new(0, 2)],
        vec![Constraint::new(0, 2), Constraint::new(2, 0)],
        vec![[0, 1, 2], [0, 2, 3]],
    );
    assert_eq!(triangulation.points().len(), 4);
    assert_eq!(triangulation.constraints(), &[Constraint::new(0, 2)]);
    assert_eq!(triangulation.constraint_edges().len(), 2);
    assert_eq!(triangulation.triangles(), &[[0, 1, 2], [0, 2, 3]]);
    let (points, constraints, edges, triangles) = triangulation.into_parts_with_constraint_edges();
    assert_eq!((points.len(), constraints.len(), edges.len(), triangles.len()), (4, 1, 2, 2));

    let plain = ConstrainedTriangulation::from_parts(square(), vec![Constraint::new(1, 3)], vec![[0, 1, 3], [1, 2, 3]]);
    assert_eq!(plain.constraint_edges(), &[Constraint::new(1, 3)]);
    let (_, constraints, triangles) = plain.into_parts();
    assert_eq!((constraints.len(), triangles.len()), (1, 2));

    let delaunay = DelaunayTriangulation::from_parts(square(), vec![[0, 1, 2], [0, 2, 3]]);
    assert_eq!(delaunay.points().len(), 4);
    assert_eq!(delaunay.triangles().len(), 2);
    let (points, triangles) = delaunay.into_parts();
    assert_eq!((points.len(), triangles.len()), (4, 2));
}

#[test]
fn topology_only_convex_hull_pslg_preserves_every_point_and_constraint() {
    let points = vec![p(0, 0), p(3, 0), p(6, 0), p(6, 6), p(0, 6), p(2, 2), p(4, 2), p(4, 4), p(2, 4), p(3, 3)];
    let constraints = vec![
        Constraint::new(0, 1),
        Constraint::new(1, 2),
        Constraint::new(2, 3),
        Constraint::new(3, 4),
        Constraint::new(4, 0),
        Constraint::new(5, 6),
        Constraint::new(6, 7),
        Constraint::new(7, 8),
        Constraint::new(8, 5),
    ];

    let outcome = constrained_triangulation_convex_hull(&context(), &points, &constraints)
        .expect("the topology-only PSLG must be exactly triangulable");

    assert_eq!(outcome.certainty, TriangulationCertainty::Certified);
    assert_eq!(outcome.value.len(), 13);
    assert!((0..points.len()).all(|point| outcome.value.iter().any(|triangle| triangle.contains(&point))));
    assert!(constraints
        .iter()
        .all(|constraint| triangulation_has_edge(&outcome.value, EdgeKey::new(constraint.from, constraint.to))));
    validate_constrained_convex_hull_topology(&points, &constraints, &outcome.value, PredicatePolicy::strict()).unwrap();
}

#[test]
fn topology_only_convex_hull_rejects_constraints_that_still_require_planarization() {
    let crossing_points = vec![p(0, 0), p(2, 0), p(2, 2), p(0, 2)];
    let crossing = [Constraint::new(0, 2), Constraint::new(1, 3)];
    assert_eq!(
        constrained_triangulation_convex_hull(&context(), &crossing_points, &crossing).unwrap_err(),
        invalid("properly crossing constraints are not supported")
    );

    let unsplit_points = vec![p(0, 0), p(2, 0), p(1, 0), p(0, 2)];
    assert_eq!(
        constrained_triangulation_convex_hull(&context(), &unsplit_points, &[Constraint::new(0, 1)]).unwrap_err(),
        invalid("constraint contains an unsplit point")
    );

    let duplicate = [Constraint::new(0, 1), Constraint::new(1, 0)];
    assert_eq!(
        constrained_triangulation_convex_hull(&context(), &crossing_points, &duplicate).unwrap_err(),
        invalid("overlapping constraints are not supported")
    );

    let collinear_points = vec![p(0, 0), p(1, 0), p(2, 0), p(3, 0), p(0, 3)];
    let overlapping = [Constraint::new(0, 2), Constraint::new(1, 3)];
    assert_eq!(
        constrained_triangulation_convex_hull(&context(), &collinear_points, &overlapping).unwrap_err(),
        invalid("overlapping constraints are not supported")
    );
}

#[test]
fn topology_only_convex_hull_rejects_malformed_indices_and_duplicate_points() {
    let points = square();
    assert_eq!(
        constrained_triangulation_convex_hull(&context(), &points, &[Constraint::new(0, 4)]).unwrap_err(),
        invalid("constraint index out of bounds")
    );
    assert_eq!(
        constrained_triangulation_convex_hull(&context(), &points, &[Constraint::new(2, 2)]).unwrap_err(),
        invalid("constraint endpoints must differ")
    );
    let doubled = vec![p(0, 0), p(1, 0), p(1, 1), Point2::new(Real::fraction(2, 2).unwrap(), Real::from_int(0))];
    assert_eq!(
        constrained_triangulation_convex_hull(&context(), &doubled, &[]).unwrap_err(),
        invalid("duplicate points are not supported")
    );
}

#[test]
fn topology_only_convex_hull_recovers_a_crossed_diagonal() {
    let points = vec![p(0, 0), p(4, 0), p(4, 4), p(0, 4), p(1, 2)];
    let constraints = [Constraint::new(1, 3)];
    let outcome = constrained_triangulation_convex_hull(&context(), &points, &constraints).unwrap();
    assert_eq!(outcome.value.len(), 4);
    assert!(triangulation_has_edge(&outcome.value, EdgeKey::new(1, 3)));
    validate_constrained_convex_hull_topology(&points, &constraints, &outcome.value, PredicatePolicy::strict()).unwrap();
}

#[test]
fn convex_hull_pslg_keeps_both_sides_of_an_interior_ring() {
    let points = vec![p(0, 0), p(6, 0), p(6, 6), p(0, 6), p(2, 2), p(4, 2), p(4, 4), p(2, 4)];
    let constraints = vec![
        Constraint::new(0, 1),
        Constraint::new(1, 2),
        Constraint::new(2, 3),
        Constraint::new(3, 0),
        Constraint::new(4, 5),
        Constraint::new(5, 6),
        Constraint::new(6, 7),
        Constraint::new(7, 4),
    ];
    let context = context();
    let outcome = constrained_delaunay_convex_hull(&context, &points, &constraints).expect("the bounded PSLG is exactly triangulable");

    assert_eq!(outcome.certainty, TriangulationCertainty::Certified);
    assert_eq!(outcome.value.points().len(), points.len());
    assert!(outcome.value.points().iter().zip(points.iter()).all(|(a, b)| a.x.exact_eq(&b.x) && a.y.exact_eq(&b.y)));
    assert_eq!(outcome.value.triangles().len(), 10);
    assert!(constraints
        .iter()
        .all(|constraint| triangulation_has_edge(outcome.value.triangles(), EdgeKey::new(constraint.from, constraint.to))));
    outcome.value.validate(&context).unwrap();
    outcome.value.validate_unconstrained_edges_are_delaunay(&context).unwrap();
}

#[test]
fn convex_hull_pslg_rejects_constraints_that_still_require_planarization() {
    let crossing_points = vec![p(0, 0), p(2, 0), p(2, 2), p(0, 2)];
    let crossing = [Constraint::new(0, 2), Constraint::new(1, 3)];
    assert_eq!(
        constrained_delaunay_convex_hull(&context(), &crossing_points, &crossing).unwrap_err(),
        invalid("properly crossing constraints are not supported")
    );

    let unsplit_points = vec![p(0, 0), p(2, 0), p(1, 0), p(0, 2)];
    assert_eq!(
        constrained_delaunay_convex_hull(&context(), &unsplit_points, &[Constraint::new(0, 1)]).unwrap_err(),
        invalid("constraint contains an unsplit point")
    );

    let duplicate = [Constraint::new(0, 1), Constraint::new(1, 0)];
    assert_eq!(
        constrained_delaunay_convex_hull(&context(), &crossing_points, &duplicate).unwrap_err(),
        invalid("overlapping constraints are not supported")
    );
}

#[test]
fn convex_hull_delaunay_without_constraints_is_the_delaunay_triangulation() {
    let points = vec![p(0, 0), p(4, 0), p(4, 4), p(0, 4), p(1, 2)];
    let outcome = constrained_delaunay_convex_hull(&context(), &points, &[]).unwrap();
    assert_eq!(outcome.value.constraints().len(), 0);
    assert_eq!(outcome.value.triangles().len(), 4);
    validate_constrained_convex_hull_delaunay(&points, &[], outcome.value.triangles(), PredicatePolicy::strict()).unwrap();
}

#[test]
fn convex_hull_delaunay_recovers_a_crossed_diagonal_and_stays_locally_delaunay() {
    let points = vec![p(0, 0), p(4, 0), p(4, 4), p(0, 4), p(1, 2)];
    let constraints = [Constraint::new(1, 3)];
    let outcome = constrained_delaunay_convex_hull(&context(), &points, &constraints).unwrap();
    assert_eq!(outcome.value.triangles().len(), 4);
    assert!(triangulation_has_edge(outcome.value.triangles(), EdgeKey::new(1, 3)));
    assert_eq!(outcome.value.constraint_edges(), &constraints);
    validate_constrained_convex_hull_delaunay(&points, &constraints, outcome.value.triangles(), PredicatePolicy::strict()).unwrap();
}

#[test]
fn convex_hull_delaunay_rejects_out_of_range_constraints_and_duplicate_points() {
    let points = vec![p(0, 0), p(1, 0), p(1, 1)];
    assert!(constrained_delaunay_convex_hull(&context(), &points, &[Constraint::new(0, 3)]).is_err());
    let doubled = vec![p(0, 0), p(1, 0), p(1, 1), p(1, 0)];
    assert_eq!(
        constrained_delaunay_convex_hull(&context(), &doubled, &[]).unwrap_err(),
        invalid("duplicate points are not supported")
    );
}

fn has(triangles: &[[usize; 3]], a: usize, b: usize) -> bool {
    triangulation_has_edge(triangles, EdgeKey::new(a, b))
}

#[test]
fn empty_constraint_set_accepts_collinear_points() {
    let points = vec![p(0, 0), p(1, 1), p(2, 2), p(3, 3), p(4, 4)];
    let context = context();
    let outcome = constrained_delaunay(&context, &points, &[]).unwrap();
    assert_eq!(outcome.certainty, TriangulationCertainty::Certified);
    assert!(outcome.value.triangles().is_empty());
    outcome.value.validate(&context).unwrap();
}

#[test]
fn general_constraint_recovers_across_nonconvex_flip_strip() {
    let points = vec![p(-2087, -1476), p(-2676, -124), p(-1936, -2394), p(-2561, -766), p(-1509, -832), p(-2582, -618)];
    let constraint = Constraint::new(1, 2);
    let context = context();
    let outcome = constrained_delaunay(&context, &points, &[constraint]).unwrap();
    assert_eq!(outcome.certainty, TriangulationCertainty::Certified);
    assert!(has(outcome.value.triangles(), 1, 2));
    outcome.value.validate(&context).unwrap();
    outcome.value.validate_unconstrained_edges_are_delaunay(&context).unwrap();
}

#[test]
fn constrained_closed_ring_uses_exact_polygon_path() {
    let points = vec![p(0, 0), p(2, 0), p(2, 2), p(0, 2)];
    let constraints = vec![Constraint::new(0, 1), Constraint::new(1, 2), Constraint::new(2, 3), Constraint::new(3, 0)];
    let triangulation = constrained_delaunay(&context(), &points, &constraints).unwrap().value;
    assert_eq!(triangulation.constraints(), constraints.as_slice());
    assert_eq!(triangulation.triangles().len(), 2);
}

#[test]
fn constrained_closed_rings_with_hole_use_exact_polygon_path() {
    let points = vec![p(0, 0), p(6, 0), p(6, 6), p(0, 6), p(2, 2), p(4, 2), p(4, 4), p(2, 4)];
    let constraints = vec![
        Constraint::new(0, 1),
        Constraint::new(6, 5),
        Constraint::new(2, 3),
        Constraint::new(7, 4),
        Constraint::new(1, 2),
        Constraint::new(5, 4),
        Constraint::new(3, 0),
        Constraint::new(7, 6),
    ];
    let triangulation = constrained_delaunay(&context(), &points, &constraints).unwrap().value;
    assert_eq!(triangulation.constraints(), constraints.as_slice());
    assert_eq!(triangulation.triangles().len(), 8);
    assert!(triangulation.triangles().iter().flatten().all(|&index| index < points.len()));
}

#[test]
fn separated_closed_rings_use_general_cdt_recovery() {
    let points = vec![p(0, 0), p(1, 0), p(1, 1), p(0, 1), p(3, 0), p(4, 0), p(4, 1), p(3, 1)];
    let constraints = vec![
        Constraint::new(0, 1),
        Constraint::new(1, 2),
        Constraint::new(2, 3),
        Constraint::new(3, 0),
        Constraint::new(4, 5),
        Constraint::new(5, 6),
        Constraint::new(6, 7),
        Constraint::new(7, 4),
    ];
    let context = context();
    let triangulation = constrained_delaunay(&context, &points, &constraints).unwrap().value;
    triangulation.validate(&context).unwrap();
    triangulation.validate_unconstrained_edges_are_delaunay(&context).unwrap();
    assert_eq!(triangulation.constraints(), constraints.as_slice());
    assert!(constraints.iter().all(|c| has(triangulation.triangles(), c.from, c.to)));
}

#[test]
fn constrained_edges_already_present_in_delaunay_are_accepted() {
    let points = vec![p(0, 0), p(3, 0), p(0, 2), p(1, 1)];
    let constraints = vec![Constraint::new(0, 1), Constraint::new(0, 3)];
    let triangulation = constrained_delaunay(&context(), &points, &constraints).unwrap().value;
    assert_eq!(triangulation.constraints(), constraints.as_slice());
    assert!(constraints.iter().all(|c| has(triangulation.triangles(), c.from, c.to)));
}

#[test]
fn constrained_non_delaunay_diagonal_is_recovered_by_edge_flips() {
    let points = vec![p(0, 0), p(2, 0), p(2, 2), p(0, 2)];
    let constraints = vec![Constraint::new(1, 3)];
    let triangulation = constrained_delaunay(&context(), &points, &constraints).unwrap().value;
    assert_eq!(triangulation.constraints(), constraints.as_slice());
    assert_eq!(triangulation.triangles().len(), 2);
    assert!(has(triangulation.triangles(), 1, 3));
    assert!(!has(triangulation.triangles(), 0, 2));
}

#[test]
fn constrained_segment_through_existing_vertex_is_split_and_recovered() {
    let points = vec![p(0, 0), p(2, 0), p(1, 0), p(0, 2)];
    let constraints = vec![Constraint::new(0, 1)];
    let triangulation = constrained_delaunay(&context(), &points, &constraints).unwrap().value;
    assert_eq!(triangulation.constraints(), constraints.as_slice());
    assert_eq!(triangulation.constraint_edges(), &[Constraint::new(0, 2), Constraint::new(2, 1)]);
    assert_eq!(triangulation.triangles().len(), 2);
    assert!(has(triangulation.triangles(), 0, 2));
    assert!(has(triangulation.triangles(), 2, 1));
}

#[test]
fn overlapping_collinear_constraints_are_split_to_shared_subsegments() {
    let points = vec![p(0, 0), p(1, 0), p(2, 0), p(3, 0), p(0, 2)];
    let constraints = vec![Constraint::new(0, 3), Constraint::new(1, 2)];
    let triangulation = constrained_delaunay(&context(), &points, &constraints).unwrap().value;
    assert_eq!(triangulation.constraints(), constraints.as_slice());
    assert_eq!(triangulation.constraint_edges(), &[Constraint::new(0, 1), Constraint::new(1, 2), Constraint::new(2, 3)]);
    for (a, b) in [(0, 1), (1, 2), (2, 3)] {
        assert!(has(triangulation.triangles(), a, b));
    }
}

#[test]
fn properly_crossing_constraints_insert_exact_intersection_vertex() {
    let points = vec![p(0, 0), p(2, 2), p(0, 2), p(2, 0)];
    let constraints = vec![Constraint::new(0, 1), Constraint::new(2, 3)];
    let triangulation = constrained_delaunay(&context(), &points, &constraints).unwrap().value;
    assert_eq!(triangulation.constraints(), constraints.as_slice());
    assert_eq!(triangulation.points().len(), 5);
    assert!(triangulation.points()[4].exact_eq(&p(1, 1)));
    assert_eq!(
        triangulation.constraint_edges(),
        &[Constraint::new(0, 4), Constraint::new(4, 1), Constraint::new(2, 4), Constraint::new(4, 3)]
    );
    for (a, b) in [(0, 4), (4, 1), (2, 4), (4, 3)] {
        assert!(has(triangulation.triangles(), a, b));
    }
}

#[test]
fn validation_allows_constrained_interior_edge_to_be_non_delaunay() {
    let points = vec![p(0, 0), p(2, 0), p(2, 2), p(0, 2)];
    let constraints = vec![Constraint::new(1, 3)];
    let context = context();
    let triangulation = constrained_delaunay(&context, &points, &constraints).unwrap().value;
    triangulation.validate(&context).unwrap();
    triangulation.validate_unconstrained_edges_are_delaunay(&context).unwrap();
}

#[test]
fn rejects_all_collinear_overlapping_constraints_without_area() {
    let points = vec![p(0, 0), p(3, 0), p(1, 0), p(4, 0)];
    let constraints = vec![Constraint::new(0, 1), Constraint::new(2, 3)];
    let error = constrained_delaunay(&context(), &points, &constraints).unwrap_err();
    assert_eq!(error, invalid("four-point set is degenerate"));
}

#[test]
fn rejects_constraint_index_out_of_bounds() {
    let points = vec![p(0, 0), p(1, 0), p(0, 1)];
    let error = constrained_delaunay(&context(), &points, &[Constraint::new(0, 3)]).unwrap_err();
    assert_eq!(error, invalid("constraint index out of bounds"));
}
