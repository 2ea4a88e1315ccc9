use hypertri::earcut::{
    cure_local_intersections, ensure_input_conformity, split_edges_at_input_vertices, split_or_fail, triangles_match_input_boundary,
    triangulate, triangulate_report, EarcutDiagnostics,
};
use hypertri::polygon::rings_from_hole_indices;
use hypertri::predicates::point_on_segment;
use hypertri::{earcut, Error, ExactPoint, Point2, PredicatePolicy, Real, Sign, TriangulationCertainty, TriangulationContext};

fn context() -> TriangulationContext {
    TriangulationContext::new(PredicatePolicy::strict())
}

fn strict() -> PredicatePolicy {
    PredicatePolicy::strict()
}

fn exact_point(x: i64, y: i64) -> ExactPoint {
    Point2::new(Real::from_int(x), Real::from_int(y))
}

fn exact_fraction_point(xn: i64, xd: u64, yn: i64, yd: u64) -> ExactPoint {
    Point2::new(Real::fraction(xn, xd).unwrap(), Real::fraction(yn, yd).unwrap())
}

#[test]
fn triangulates_exact_square() {
    let vertices = vec![exact_point(0, 0), exact_point(1, 0), exact_point(1, 1), exact_point(0, 1)];

    let triangles = triangulate(&context(), &vertices, &[]).unwrap().value;

    assert_eq!(triangles.len(), 6);
}

#[test]
fn triangulates_exact_concave_polygon() {
    let vertices = vec![exact_point(0, 0), exact_point(2, 0), exact_point(2, 2), exact_point(1, 1), exact_point(0, 2)];

    let triangles = triangulate(&context(), &vertices, &[]).unwrap().value;

    assert_eq!(triangles.len(), 9);
}

#[test]
fn triangulates_square_with_square_hole() {
    let vertices = vec![
        exact_point(0, 0),
        exact_point(4, 0),
        exact_point(4, 4),
        exact_point(0, 4),
        exact_point(1, 1),
        exact_point(3, 1),
        exact_point(3, 3),
        exact_point(1, 3),
    ];

    let triangles = triangulate(&context(), &vertices, &[4]).unwrap().value;

    assert_eq!(triangles.len(), 24);
    assert!(triangles.iter().all(|&index| index < vertices.len()));
}

#[test]
fn rectangular_annulus_dispatch_handles_rotated_winding_and_preserves_authored_edges() {
    let vertices = vec![
        exact_point(8, 6),
        exact_point(8, 0),
        exact_point(0, 0),
        exact_point(0, 6),
        exact_point(2, 2),
        exact_point(2, 4),
        exact_point(6, 4),
        exact_point(6, 2),
    ];

    let report = triangulate_report(&context(), &vertices, &[4]).unwrap().value;
    let rings = rings_from_hole_indices(&vertices, &[4]).unwrap();

    assert_eq!(report.triangles.len(), 24);
    assert_eq!(report.diagnostics.emitted_triangles, 8);
    assert_eq!(report.diagnostics.ear_tests, 0);
    assert!(triangles_match_input_boundary(&vertices, &rings, &report.triangles).unwrap());
}

#[test]
fn rectangular_annulus_dispatch_falls_back_for_authored_collinear_boundary() {
    let vertices = vec![
        exact_point(0, 0),
        exact_point(4, 0),
        exact_point(8, 0),
        exact_point(8, 6),
        exact_point(0, 6),
        exact_point(2, 2),
        exact_point(2, 4),
        exact_point(6, 4),
        exact_point(6, 2),
    ];

    let report = triangulate_report(&context(), &vertices, &[5]).unwrap().value;
    let rings = rings_from_hole_indices(&vertices, &[5]).unwrap();

    assert!(report.diagnostics.ear_tests > 0);
    assert!(triangles_match_input_boundary(&vertices, &rings, &report.triangles).unwrap());
}

#[test]
fn triangulates_multiple_holes_with_mixed_winding() {
    let vertices = vec![
        exact_point(0, 0),
        exact_point(12, 0),
        exact_point(12, 8),
        exact_point(0, 8),
        exact_point(1, 1),
        exact_point(3, 1),
        exact_point(3, 3),
        exact_point(1, 3),
        exact_point(8, 5),
        exact_point(10, 5),
        exact_point(10, 7),
        exact_point(8, 7),
    ];

    let triangles = triangulate(&context(), &vertices, &[4, 8]).unwrap().value;

    assert_eq!(triangles.len(), 42);
    assert!(triangles.iter().all(|&index| index < vertices.len()));
}

#[test]
fn vertically_aligned_holes_have_conforming_internal_edges() {
    let vertices = vec![
        exact_point(-5, -5),
        exact_point(5, -5),
        exact_point(5, 5),
        exact_point(-5, 5),
        exact_point(-2, 1),
        exact_point(2, 1),
        exact_point(2, 2),
        exact_point(-2, 2),
        exact_point(-2, -2),
        exact_point(2, -2),
        exact_point(2, -1),
        exact_point(-2, -1),
    ];

    let triangles = triangulate(&context(), &vertices, &[4, 8]).unwrap().value;
    let mut edge_counts = std::collections::BTreeMap::new();
    for triangle in triangles.chunks_exact(3) {
        for edge in [[triangle[0], triangle[1]], [triangle[1], triangle[2]], [triangle[2], triangle[0]]] {
            let mut edge = edge;
            edge.sort();
            *edge_counts.entry(edge).or_insert(0_usize) += 1;
        }
    }
    let boundary_edges = [[0, 1], [1, 2], [2, 3], [0, 3], [4, 5], [5, 6], [6, 7], [4, 7], [8, 9], [9, 10], [10, 11], [8, 11]];
    let unexpected = edge_counts
        .into_iter()
        .filter(|(edge, count)| *count != 2 && !boundary_edges.contains(edge))
        .collect::<Vec<_>>();
    assert!(unexpected.is_empty(), "non-conforming internal edges: {unexpected:?}");
}

#[test]
fn conformity_pass_splits_a_diagonal_at_source_vertices() {
    let vertices = vec![exact_point(0, 0), exact_point(0, 1), exact_point(0, 2), exact_point(0, 3), exact_point(2, 0)];
    let triangles = split_edges_at_input_vertices(&vertices, vec![0, 3, 4], strict()).unwrap();
    assert_eq!(triangles.len(), 9);
    for triangle in triangles.chunks_exact(3) {
        for edge in [[triangle[0], triangle[1]], [triangle[1], triangle[2]], [triangle[2], triangle[0]]] {
            for candidate in 0..vertices.len() {
                if edge.contains(&candidate) {
                    continue;
                }
                assert!(
                    !point_on_segment(&vertices, edge[0], edge[1], candidate, strict()).unwrap(),
                    "edge {edge:?} was not split at {candidate}"
                );
            }
        }
    }
}

#[test]
fn conformity_pass_rejects_malformed_triangle_indices() {
    let vertices = vec![exact_point(0, 0), exact_point(1, 0), exact_point(0, 1)];

    assert!(matches!(
        split_edges_at_input_vertices(&vertices, vec![0, 1], strict()),
        Err(Error::InvalidInput { reason: "triangle index buffer length is not a multiple of three" })
    ));
    assert!(matches!(
        split_edges_at_input_vertices(&vertices, vec![0, 1, 3], strict()),
        Err(Error::InvalidInput { reason: "triangle index is out of bounds" })
    ));
    let rings = rings_from_hole_indices(&vertices, &[]).unwrap();
    assert!(matches!(
        triangles_match_input_boundary(&vertices, &rings, &vec![0, 1, 3]),
        Err(Error::InvalidInput { reason: "triangle index is out of bounds" })
    ));
}

#[test]
fn conformity_certificate_accepts_complete_mesh_and_repairs_skipped_boundary_vertices() {
    let square = vec![exact_point(0, 0), exact_point(4, 0), exact_point(4, 4), exact_point(0, 4)];
    let square_rings = rings_from_hole_indices(&square, &[]).unwrap();
    let square_triangles = vec![0, 1, 2, 0, 2, 3];
    assert_eq!(ensure_input_conformity(&square, &square_rings, square_triangles.clone(), strict()).unwrap(), square_triangles);

    let collinear = vec![exact_point(0, 0), exact_point(0, 1), exact_point(0, 2), exact_point(0, 3), exact_point(2, 0)];
    let collinear_rings = rings_from_hole_indices(&collinear, &[]).unwrap();
    let repaired = ensure_input_conformity(&collinear, &collinear_rings, vec![0, 3, 4], strict()).unwrap();
    assert_eq!(repaired.len(), 9);
    assert!(triangles_match_input_boundary(&collinear, &collinear_rings, &repaired).unwrap());
}

#[test]
fn triangulates_hole_with_duplicate_closing_vertex() {
    let vertices = vec![
        exact_point(0, 0),
        exact_point(5, 0),
        exact_point(5, 5),
        exact_point(0, 5),
        exact_point(1, 1),
        exact_point(3, 1),
        exact_point(3, 3),
        exact_point(1, 3),
        exact_point(1, 1),
    ];

    let triangles = triangulate(&context(), &vertices, &[4]).unwrap().value;

    assert_eq!(triangles.len(), 24);
    assert!(triangles.iter().all(|&index| index < 8));
}

#[test]
fn duplicate_closing_vertex_uses_numeric_equality() {
    // The closing vertex repeats the hole's first vertex by value with a
    // different stored fraction.
    let left = Real::fraction(1, 2).unwrap();
    let equivalent_left = Real::fraction(2, 4).unwrap();
    assert_ne!(left.denominator(), equivalent_left.denominator());
    let right = Real::fraction(3, 2).unwrap();

    let vertices = vec![
        exact_point(0, 0),
        exact_point(10, 0),
        exact_point(10, 10),
        exact_point(0, 10),
        Point2::new(left, Real::from_int(2)),
        Point2::new(right, Real::from_int(2)),
        Point2::new(right, Real::from_int(3)),
        Point2::new(left, Real::from_int(3)),
        Point2::new(equivalent_left, Real::from_int(2)),
    ];

    let triangles = triangulate(&context(), &vertices, &[4]).unwrap().value;

    assert_eq!(triangles.len(), 24);
    assert!(triangles.iter().all(|&index| index < 8));
}

#[test]
fn earcut_report_matches_plain_triangulation_and_counts_hot_loop() {
    let vertices = vec![exact_point(0, 0), exact_point(4, 0), exact_point(4, 3), exact_point(2, 1), exact_point(0, 3)];

    let plain = triangulate(&context(), &vertices, &[]).unwrap().value;
    let report = triangulate_report(&context(), &vertices, &[]).unwrap().value;

    assert_eq!(report.triangles, plain);
    assert_eq!(report.diagnostics.emitted_triangles * 3, plain.len());
    assert!(report.diagnostics.ear_tests > 0);
    assert!(report.diagnostics.containment_candidates > 0);
    assert!(report.diagnostics.prepared_reflex_rebuilds > 0, "earcut should prepare exact local convexity facts before scanning ears");
    assert!(
        report.diagnostics.prepared_reflex_updates > 0,
        "ear clipping should update the prepared local convexity facts after removing vertices"
    );
    assert_eq!(
        report.diagnostics.containment_prepared_reflex_lookups, report.diagnostics.containment_candidates,
        "every containment candidate should route through the prepared reflex/convex fact table"
    );
    assert!(report.diagnostics.containment_convex_rejects > 0, "exact reflex filter should reject at least one strictly convex candidate");
    assert!(
        report.diagnostics.containment_convex_rejects + report.diagnostics.containment_bbox_rejects > 0,
        "at least one exact containment prefilter should reject a candidate"
    );
    assert!(
        report.diagnostics.containment_tests
            <= report.diagnostics.containment_candidates
                - report.diagnostics.containment_convex_rejects
                - report.diagnostics.containment_bbox_rejects
    );
}

#[test]
fn split_fallback_triangulates_forced_valid_diagonal() {
    let vertices = vec![exact_point(0, 0), exact_point(2, 0), exact_point(3, 1), exact_point(2, 2), exact_point(0, 2), exact_point(-1, 1)];
    let ring = vec![0, 1, 2, 3, 4, 5];

    let mut diagnostics = EarcutDiagnostics::default();
    let triangles = split_or_fail(&vertices, ring, Sign::Positive, 0, strict(), &mut diagnostics).unwrap();

    assert_eq!(triangles.len(), 12);
    assert_eq!(diagnostics.split_fallbacks, 1);
    assert!(triangles.iter().all(|&index| index < vertices.len()));
}

#[test]
fn local_intersection_cure_removes_twisted_pair() {
    let vertices = vec![exact_point(0, 0), exact_point(3, 3), exact_point(0, 3), exact_point(3, 0), exact_point(4, 4), exact_point(-1, 4)];
    let ring = vec![0, 1, 2, 3, 4, 5];

    let (cured_ring, triangles, cured) = cure_local_intersections(&vertices, ring, strict()).unwrap();

    assert!(cured);
    assert_eq!(cured_ring, vec![0, 3, 4, 5]);
    assert_eq!(triangles.len(), 3);
    assert!(triangles.iter().all(|&index| index < vertices.len()));
}

#[test]
fn drops_duplicate_closing_vertex() {
    let vertices = vec![exact_point(0, 0), exact_point(1, 0), exact_point(1, 1), exact_point(0, 1), exact_point(0, 0)];

    let triangles = triangulate(&context(), &vertices, &[]).unwrap().value;

    assert_eq!(triangles.len(), 6);
    assert!(triangles.iter().all(|&index| index < 4));
}

#[test]
fn filters_collinear_chain_without_losing_area() {
    let vertices = vec![exact_point(0, 0), exact_point(1, 0), exact_point(2, 0), exact_point(2, 1), exact_point(0, 1)];

    let triangles = triangulate(&context(), &vertices, &[]).unwrap().value;

    assert_eq!(triangles.len(), 6);
}

#[test]
fn handles_near_collinear_exact_rational_not_epsilon_collapsed() {
    let vertices = vec![
        exact_point(0, 0),
        exact_fraction_point(1, 1_000_000_000, 1, 1_000_000_000_000),
        exact_point(2, 0),
        exact_point(2, 1),
        exact_point(0, 1),
    ];

    let triangles = triangulate(&context(), &vertices, &[]).unwrap().value;

    assert_eq!(triangles.len(), 9);
}

#[test]
fn rejects_unsorted_hole_indices_before_algorithm_dispatch() {
    let vertices = vec![
        exact_point(0, 0),
        exact_point(4, 0),
        exact_point(4, 4),
        exact_point(0, 4),
        exact_point(1, 1),
        exact_point(3, 1),
        exact_point(3, 3),
        exact_point(1, 3),
    ];

    let error = triangulate(&context(), &vertices, &[5, 4]).unwrap_err();

    assert_eq!(error, Error::InvalidInput { reason: "hole indices must be strictly increasing interior starts" });
}

#[test]
fn quickstart_triangle_gives_one_triangle() {
    let points = vec![exact_point(0, 0), exact_point(1, 0), exact_point(0, 1)];
    let outcome = earcut(&context(), &points, &[]).unwrap();
    assert_eq!(outcome.value.len(), 3);
    assert_eq!(outcome.certainty, TriangulationCertainty::Certified);
}

#[test]
fn clockwise_polygon_gives_counterclockwise_triangles() {
    let vertices = vec![exact_point(0, 0), exact_point(0, 2), exact_point(2, 2), exact_point(2, 0)];
    let triangles = triangulate(&context(), &vertices, &[]).unwrap().value;
    assert_eq!(triangles.len(), 6);
    for triangle in triangles.chunks_exact(3) {
        let a = vertices[triangle[0]];
        let b = vertices[triangle[1]];
        let c = vertices[triangle[2]];
        let cross = (b.x.numerator() - a.x.numerator()) * (c.y.numerator() - a.y.numerator())
            - (b.y.numerator() - a.y.numerator()) * (c.x.numerator() - a.x.numerator());
        assert!(cross > 0, "triangle {triangle:?} is not counterclockwise");
    }
}

#[test]
fn degenerate_rings_give_no_triangles_and_bad_holes_are_rejected() {
    assert!(triangulate(&context(), &[], &[]).unwrap().value.is_empty());
    let collinear = vec![exact_point(0, 0), exact_point(1, 0), exact_point(2, 0)];
    assert!(triangulate(&context(), &collinear, &[]).unwrap().value.is_empty());
    let with_flat_hole = vec![
        exact_point(0, 0),
        exact_point(4, 0),
        exact_point(4, 4),
        exact_point(0, 4),
        exact_point(1, 1),
        exact_point(2, 1),
        exact_point(3, 1),
    ];
    assert_eq!(triangulate(&context(), &with_flat_hole, &[4]).unwrap_err(), Error::InvalidInput { reason: "hole ring is degenerate" });
}
