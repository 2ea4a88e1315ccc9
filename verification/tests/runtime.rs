use hypertri::polygon::RingRange;
use hypertri::runtime::{
    append_ring_constraints, resolve_algorithm, resolve_algorithm_for_facts, resolve_auto_algorithm, triangulate_polygon_points,
    triangulate_polygon_points_with_algorithm,
};
use hypertri::{
    triangulate_polygon, triangulate_polygon_with_report, Error, Point2, PolygonInput, PolygonTriangulationAlgorithm, PredicatePolicy,
    QualityPolicy, Real, TriangulationCertainty, TriangulationContext, TriangulationOptions,
};

fn point(x: i64, y: i64) -> Point2 {
    Point2::new(Real::from_int(x), Real::from_int(y))
}

fn context() -> TriangulationContext {
    TriangulationContext::new(PredicatePolicy::strict())
}

#[test]
fn unresolved_auto_cannot_reach_an_algorithm_executor() {
    let error = triangulate_polygon_points_with_algorithm(&[], &[], PolygonTriangulationAlgorithm::Auto, PredicatePolicy::strict()).unwrap_err();
    assert_eq!(error, Error::UnsupportedFeature { feature: "compiled polygon triangulation algorithm" });
}

#[test]
fn cdt_ring_constraint_builder_rejects_a_collapsed_closed_ring() {
    let vertices = vec![point(0, 0), point(2, 0), point(0, 0)];
    let error = append_ring_constraints(&vertices, RingRange { start: 0, end: 3 }, &mut Vec::new()).unwrap_err();
    assert_eq!(error, Error::InvalidInput { reason: "polygon ring is degenerate" });
}

#[test]
fn prefer_delaunay_keeps_boundary_cleanup_on_earcut() {
    let input = PolygonInput::new(vec![point(0, 0), point(2, 0), point(2, 0), point(0, 2)], vec![]);
    assert_eq!(
        resolve_algorithm_for_facts(
            TriangulationOptions { algorithm: PolygonTriangulationAlgorithm::Auto, quality: QualityPolicy::PreferDelaunay },
            input.facts(),
        )
        .unwrap(),
        PolygonTriangulationAlgorithm::Earcut
    );
}

#[test]
fn quality_preferences_resolve_to_their_algorithms() {
    assert_eq!(resolve_auto_algorithm(QualityPolicy::PreserveBoundary, None).unwrap(), PolygonTriangulationAlgorithm::Earcut);
    assert_eq!(resolve_auto_algorithm(QualityPolicy::PreferDelaunay, None).unwrap(), PolygonTriangulationAlgorithm::ConstrainedDelaunay);
}

#[test]
fn constrained_delaunay_polygon_path_triangulates_a_square_with_a_hole() {
    let vertices = vec![point(0, 0), point(6, 0), point(6, 6), point(0, 6), point(2, 2), point(2, 4), point(4, 4), point(4, 2)];
    let triangles =
        triangulate_polygon_points_with_algorithm(&vertices, &[4], PolygonTriangulationAlgorithm::ConstrainedDelaunay, PredicatePolicy::strict())
            .unwrap();
    assert_eq!(triangles.len(), 24);
    assert!(triangles.iter().all(|&index| index < vertices.len()));
}

#[test]
fn default_options_resolve_to_the_compiled_triangulator() {
    let options = TriangulationOptions::default();
    assert_eq!(options.algorithm, PolygonTriangulationAlgorithm::Auto);
    assert_eq!(options.quality, QualityPolicy::PreserveBoundary);
    assert_eq!(resolve_algorithm(options).unwrap(), PolygonTriangulationAlgorithm::Earcut);
    let explicit = TriangulationOptions { algorithm: PolygonTriangulationAlgorithm::Earcut, quality: QualityPolicy::PreferDelaunay };
    let input = PolygonInput::new(vec![point(0, 0), point(2, 0), point(2, 0), point(0, 2)], vec![]);
    assert_eq!(resolve_algorithm_for_facts(explicit, input.facts()).unwrap(), PolygonTriangulationAlgorithm::Earcut);
}

#[test]
fn runtime_selection_triangulates_a_square_and_reports_the_choice() {
    let square = vec![point(0, 0), point(4, 0), point(4, 4), point(0, 4)];
    let input = PolygonInput::new(square.clone(), vec![]);
    let outcome = triangulate_polygon(&context(), &input, TriangulationOptions::default()).unwrap();
    assert_eq!(outcome.value.len(), 6);
    assert_eq!(outcome.certainty, TriangulationCertainty::Certified);

    let options = TriangulationOptions { algorithm: PolygonTriangulationAlgorithm::Auto, quality: QualityPolicy::PreferDelaunay };
    let reported = triangulate_polygon_with_report(&context(), &input, options).unwrap().value;
    assert_eq!(reported.0.len(), 6);
    assert_eq!(reported.1.algorithm, PolygonTriangulationAlgorithm::ConstrainedDelaunay);
    assert_eq!(reported.1.quality, QualityPolicy::PreferDelaunay);
    assert_eq!(&reported.1.facts, input.facts());

    let points = triangulate_polygon_points(&context(), &square, &[], TriangulationOptions::default()).unwrap();
    assert_eq!(points.value, outcome.value);
}

#[test]
fn runtime_selection_reports_invalid_holes() {
    let input = PolygonInput::new(vec![point(0, 0), point(4, 0), point(4, 4), point(0, 4), point(1, 1)], vec![4]);
    assert_eq!(
        triangulate_polygon(&context(), &input, TriangulationOptions::default()).unwrap_err(),
        Error::InvalidInput { reason: "hole ring requires at least three vertices" }
    );
}

#[test]
fn earcut_path_triangulates_a_lone_triangle_into_one_triangle() {
    let input = PolygonInput::new(vec![point(0, 0), point(1, 0), point(0, 1)], vec![]);
    let options = TriangulationOptions { algorithm: PolygonTriangulationAlgorithm::Earcut, quality: QualityPolicy::PreserveBoundary };
    let outcome = triangulate_polygon(&context(), &input, options).unwrap();
    assert_eq!(outcome.value.len(), 3);
    let mut sorted = outcome.value.clone();
    sorted.sort();
    assert_eq!(sorted, vec![0, 1, 2]);
}
