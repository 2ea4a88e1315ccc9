use hypertri::cdt_validate::validate_constrained_topology;
use hypertri::constraint_recovery::{
    canonicalize_unconstrained_edges, edge_is_flippable, edge_proper_crossing_sides, insert_constraints_topology,
    recover_constraint, triangulate_cavity_side,
};
use hypertri::point_set::{insert_point, make_oriented, triangulate_point_set};
use hypertri::topology::{triangulation_has_edge, EdgeKey, TriangleTopology};
use hypertri::{Constraint, Error, Point2, PredicatePolicy, Real, Sign, Triangle};

fn p(x: i64, y: i64) -> Point2 {
    Point2::new(Real::from_int(x), Real::from_int(y))
}

fn strict() -> PredicatePolicy {
    PredicatePolicy::strict()
}

#[test]
fn cavity_retriangulation_reinserts_collinear_boundary_vertex() {
    let points = vec![p(-2, 0), p(-2, 2), p(0, 2), p(2, 2), p(2, 0), p(0, -3)];
    let original = vec![[5, 0, 1], [5, 1, 2], [5, 2, 3], [5, 3, 4]];
    let constraint = Constraint::new(0, 4);

    let mut triangles = original.clone();
    let mut topology = TriangleTopology::new(&triangles, points.len()).unwrap();
    recover_constraint(&points, &mut triangles, &mut topology, &[], constraint, strict()).unwrap();

    assert_eq!(triangles.len(), original.len());
    assert!(triangulation_has_edge(&triangles, EdgeKey::new(constraint.from, constraint.to)));
    assert!(triangles.iter().any(|triangle| triangle.contains(&2)));
    validate_constrained_topology(&points, &[constraint], &triangles, strict()).unwrap();
}

#[test]
fn cavity_side_prunes_straight_chains_before_emitting_ears() {
    // A narrow, exactly integral polygon whose long straight boundary chain
    // exposes another collinear vertex only after an ear has been emitted.
    let points = vec![
        p(131, 40),
        p(136, 48),
        p(142, 58),
        p(162, 92),
        p(182, 126),
        p(202, 160),
        p(222, 194),
        p(242, 228),
        p(262, 262),
        p(148, 68),
        p(134, 44),
        p(140, 54),
        p(132, 40),
    ];

    let mut triangles = triangulate_cavity_side(&points, (0..points.len()).collect(), Sign::Negative, strict()).unwrap();
    let mut topology = None;
    for vertex in 0..points.len() {
        if !triangles.iter().any(|triangle| triangle.contains(&vertex)) {
            insert_point(&points, &mut triangles, vertex, &mut topology, strict()).unwrap();
        }
    }

    assert_eq!(triangles.len(), points.len() - 2);
    assert!(triangulation_has_edge(&triangles, EdgeKey::new(0, points.len() - 1)));
    assert!((0..points.len()).all(|vertex| triangles.iter().any(|triangle| triangle.contains(&vertex))));
}

#[test]
fn exact_corridor_preserves_a_non_crossed_protected_chord() {
    // The target walks every face in order, but the same-side boundary folds
    // back across protected edge 5--6; the ordered half-hole chains keep the
    // backtracking edge and both incident faces.
    let points = vec![
        p(5209, 6308),
        p(-1052, -12323),
        p(651, 10036),
        p(5378, 6100),
        p(5445, 6017),
        p(7329, 3690),
        p(5502, 5229),
        p(2267, 7287),
        p(5167, 2265),
        p(304, -3637),
        p(-502, -7436),
        p(5228, 676),
        p(3872, -4221),
    ];
    let original = vec![
        [3, 0, 2],
        [4, 3, 2],
        [5, 4, 2],
        [5, 2, 6],
        [6, 2, 7],
        [5, 6, 7],
        [7, 8, 5],
        [7, 9, 8],
        [9, 5, 8],
        [10, 5, 9],
        [5, 10, 11],
        [10, 12, 11],
        [1, 12, 10],
    ];
    let protected = Constraint::new(5, 6);
    let target = Constraint::new(0, 1);
    let protected_edges = [EdgeKey::new(protected.from, protected.to)];

    let mut triangles = original.clone();
    let mut topology = TriangleTopology::new(&triangles, points.len()).unwrap();
    recover_constraint(&points, &mut triangles, &mut topology, &protected_edges, target, strict()).unwrap();

    assert_eq!(triangles.len(), original.len());
    assert!(triangulation_has_edge(&triangles, protected_edges[0]));
    assert!(triangulation_has_edge(&triangles, EdgeKey::new(target.from, target.to)));
    TriangleTopology::new(&triangles, points.len()).unwrap();
    validate_constrained_topology(&points, &[protected, target], &triangles, strict()).unwrap();
}

#[test]
fn exact_corridor_absorbs_an_unprotected_enclosed_face() {
    // The target's dual walk surrounds triangle 6--5--7 without crossing it;
    // the closure path absorbs that unconstrained face into one cavity.
    let points = vec![
        p(35, 28),
        p(36, 28),
        p(70, 70),
        p(12, 0),
        p(42, 35),
        p(22, 12),
        p(32, 24),
        p(34, 26),
        p(42, 36),
        p(40, 34),
        p(50, 46),
        p(60, 58),
    ];
    let original = vec![
        [2, 3, 5],
        [0, 3, 9],
        [2, 5, 6],
        [5, 4, 7],
        [4, 6, 7],
        [1, 4, 5],
        [2, 6, 8],
        [6, 4, 8],
        [2, 11, 3],
        [10, 9, 3],
        [11, 10, 3],
        [6, 5, 7],
    ];
    let target = Constraint::new(0, 1);

    let mut triangles = original.clone();
    let mut topology = TriangleTopology::new(&triangles, points.len()).unwrap();
    recover_constraint(&points, &mut triangles, &mut topology, &[], target, strict()).unwrap();

    assert_eq!(triangles.len(), original.len());
    assert!(triangulation_has_edge(&triangles, EdgeKey::new(target.from, target.to)));
    TriangleTopology::new(&triangles, points.len()).unwrap();
    validate_constrained_topology(&points, &[target], &triangles, strict()).unwrap();
}

fn canonical(mut triangles: Vec<Triangle>) -> Vec<Triangle> {
    for triangle in &mut triangles {
        triangle.sort_unstable();
    }
    triangles.sort_unstable();
    triangles
}

#[test]
fn lexicographic_topology_is_independent_of_the_initial_convex_fan() {
    let points = vec![p(0, 0), p(2, 0), p(3, 1), p(2, 2), p(0, 2), p(-1, 1)];
    let first = [[0, 1, 2], [0, 2, 3], [0, 3, 4], [0, 4, 5]];
    let second = [[3, 4, 5], [3, 5, 0], [3, 0, 1], [3, 1, 2]];
    let orient = |triangles: &[Triangle]| {
        triangles
            .iter()
            .copied()
            .map(|triangle| make_oriented(&points, triangle, strict()))
            .collect::<Result<Vec<_>, Error>>()
    };
    let mut first = orient(&first).unwrap();
    let mut second = orient(&second).unwrap();
    let mut retained_first = first.clone();
    let mut retained_second = second.clone();
    let first_topology = TriangleTopology::new(&first, points.len()).unwrap();
    let second_topology = TriangleTopology::new(&second, points.len()).unwrap();

    canonicalize_unconstrained_edges(&points, &mut first, &[], None, strict()).unwrap();
    canonicalize_unconstrained_edges(&points, &mut second, &[], None, strict()).unwrap();
    canonicalize_unconstrained_edges(&points, &mut retained_first, &[], Some(first_topology), strict()).unwrap();
    canonicalize_unconstrained_edges(&points, &mut retained_second, &[], Some(second_topology), strict()).unwrap();

    let first = canonical(first);
    assert_eq!(first, canonical(retained_first));
    assert_eq!(first, canonical(second));
    assert_eq!(first, canonical(retained_second));
}

#[test]
fn canonical_fan_keeps_the_smallest_diagonals() {
    // The square's two fans choose diagonal 0-2 or 1-3; the canonical choice
    // is the lexicographically smaller 0-2.
    let points = vec![p(0, 0), p(2, 0), p(2, 2), p(0, 2)];
    let mut triangles = vec![[1, 2, 3], [1, 3, 0]];
    canonicalize_unconstrained_edges(&points, &mut triangles, &[], None, strict()).unwrap();
    assert!(triangulation_has_edge(&triangles, EdgeKey::new(0, 2)));
    assert!(!triangulation_has_edge(&triangles, EdgeKey::new(1, 3)));

    let mut protected = vec![[1, 2, 3], [1, 3, 0]];
    canonicalize_unconstrained_edges(&points, &mut protected, &[EdgeKey::new(1, 3)], None, strict()).unwrap();
    assert!(triangulation_has_edge(&protected, EdgeKey::new(1, 3)));
}

#[test]
fn flip_recovers_a_single_crossed_diagonal() {
    let points = vec![p(0, 0), p(2, 0), p(2, 2), p(0, 2)];
    let mut triangles = vec![[0, 1, 2], [0, 2, 3]];
    let mut topology = TriangleTopology::new(&triangles, points.len()).unwrap();
    recover_constraint(&points, &mut triangles, &mut topology, &[], Constraint::new(1, 3), strict()).unwrap();
    assert_eq!(triangles.len(), 2);
    assert!(triangulation_has_edge(&triangles, EdgeKey::new(1, 3)));
    assert!(!triangulation_has_edge(&triangles, EdgeKey::new(0, 2)));
}

#[test]
fn recovery_refuses_to_cross_a_protected_edge_and_leaves_the_mesh() {
    let points = vec![p(0, 0), p(2, 0), p(2, 2), p(0, 2)];
    let original = vec![[0, 1, 2], [0, 2, 3]];
    let mut triangles = original.clone();
    let mut topology = TriangleTopology::new(&triangles, points.len()).unwrap();
    let error = recover_constraint(&points, &mut triangles, &mut topology, &[EdgeKey::new(0, 2)], Constraint::new(1, 3), strict())
        .unwrap_err();
    assert_eq!(error, Error::InvalidInput { reason: "constraint crosses an existing constrained edge" });
    assert_eq!(triangles, original);
}

#[test]
fn crossing_sides_and_flippability_are_exact() {
    let points = vec![p(0, 0), p(2, 0), p(2, 2), p(0, 2), p(4, 4)];
    assert_eq!(
        edge_proper_crossing_sides(&points, EdgeKey::new(1, 3), Constraint::new(0, 2), strict()).unwrap(),
        Some([Sign::Negative, Sign::Positive])
    );
    assert_eq!(edge_proper_crossing_sides(&points, EdgeKey::new(1, 3), Constraint::new(2, 4), strict()).unwrap(), None);
    assert_eq!(edge_proper_crossing_sides(&points, EdgeKey::new(0, 1), Constraint::new(0, 2), strict()).unwrap(), None);
    assert!(edge_is_flippable(&points, EdgeKey::new(0, 2), 1, 3, strict()).unwrap());
    assert!(!edge_is_flippable(&points, EdgeKey::new(0, 2), 1, 4, strict()).unwrap());
    assert!(!edge_is_flippable(&points, EdgeKey::new(0, 2), 1, 1, strict()).unwrap());
}

#[test]
fn inserting_constraints_recovers_every_segment() {
    let points = vec![p(0, 0), p(4, 0), p(4, 4), p(0, 4), p(1, 2), p(3, 2), p(2, 3)];
    let base = triangulate_point_set(&points, strict()).unwrap();
    let count = base.triangles.len();
    let constraints = [Constraint::new(4, 5), Constraint::new(3, 6), Constraint::new(1, 2)];
    let result = insert_constraints_topology(&points, base.triangles, &constraints, base.topology, strict()).unwrap();
    assert_eq!(result.len(), count);
    for constraint in constraints {
        assert!(triangulation_has_edge(&result, EdgeKey::new(constraint.from, constraint.to)));
    }
    validate_constrained_topology(&points, &constraints, &result, strict()).unwrap();
}

#[test]
fn cavity_side_drops_straight_vertices_before_clipping() {
    let points = vec![p(0, 0), p(2, 0), p(4, 0), p(4, 4), p(0, 4)];
    let triangles = triangulate_cavity_side(&points, vec![0, 1, 2, 3, 4], Sign::Positive, strict()).unwrap();
    assert_eq!(triangles.len(), 2);
    assert!(triangles.iter().all(|triangle| !triangle.contains(&1)));
}
