use hypertri::cdt_validate::triangulates_convex_hull;
use hypertri::point_set::{
    classify_point_triangle, insert_point, make_oriented, prove_enclosing_prefix_triangle, triangle_if_not_degenerate,
    triangulate_from_enclosing_prefix_triangle, triangulate_point_set,
};
use hypertri::topology::{triangle_neighbors, TriangleTopology};
use hypertri::{Error, Point2, PredicatePolicy, Real, Triangle, TriangleLocation};

fn p(x: i64, y: i64) -> Point2 {
    Point2::new(Real::from_int(x), Real::from_int(y))
}

fn strict() -> PredicatePolicy {
    PredicatePolicy::strict()
}

fn insert_with_retained_adjacency(points: &[Point2], mut triangles: Vec<Triangle>, point: usize) -> Vec<Triangle> {
    let mut topology = Some(Box::new(TriangleTopology::new(&triangles, points.len()).unwrap()));
    insert_point(points, &mut triangles, point, &mut topology, strict()).unwrap();
    assert_eq!(topology.expect("retained topology remains initialized").neighbors(), triangle_neighbors(&triangles).unwrap());
    triangles
}

#[test]
fn retained_adjacency_matches_complete_rebuild_for_every_point_split() {
    let interior = [p(0, 0), p(8, 0), p(0, 8), p(1, 1)];
    let interior_triangles = insert_with_retained_adjacency(&interior, vec![[0, 1, 2]], 3);
    assert_eq!(interior_triangles.len(), 3);

    let boundary = [p(0, 0), p(8, 0), p(0, 8), p(4, 0)];
    let boundary_triangles = insert_with_retained_adjacency(&boundary, vec![[0, 1, 2]], 3);
    assert_eq!(boundary_triangles.len(), 2);

    let shared_edge = [p(0, 0), p(8, 0), p(8, 8), p(0, 8), p(4, 4)];
    let shared_triangles = insert_with_retained_adjacency(&shared_edge, vec![[0, 1, 2], [0, 2, 3]], 4);
    assert_eq!(shared_triangles.len(), 4);
    assert!(triangulates_convex_hull(&shared_edge, &shared_triangles, strict()).unwrap());
}

#[test]
fn retained_point_set_topology_matches_complete_adjacency() {
    let points = vec![
        p(0, 0),
        p(64, 0),
        p(0, 64),
        p(1, 1),
        p(8, 0),
        p(0, 8),
        p(8, 8),
        p(16, 4),
        p(4, 16),
        p(16, 16),
        p(24, 8),
        p(8, 24),
        p(24, 24),
        p(32, 4),
        p(4, 32),
        p(32, 16),
        p(16, 32),
        p(32, 24),
        p(24, 32),
        p(40, 8),
        p(8, 40),
        p(40, 16),
        p(16, 40),
        p(40, 20),
        p(20, 40),
    ];
    let triangulation = triangulate_point_set(&points, strict()).unwrap();
    let topology = triangulation.topology.expect("the nontrivial point set retains its checked topology");

    assert_eq!(topology.neighbors(), triangle_neighbors(&triangulation.triangles).unwrap());
    assert!(triangulates_convex_hull(&points, &triangulation.triangles, strict()).unwrap());
}

#[test]
fn enclosing_prefix_triangle_is_a_complete_exact_schedule() {
    for points in [
        [p(0, 0), p(6, 0), p(0, 6), p(1, 1), p(3, 0), p(0, 3)],
        [p(0, 0), p(0, 6), p(6, 0), p(3, 0), p(1, 1), p(0, 3)],
    ] {
        let triangulation = triangulate_from_enclosing_prefix_triangle(&points, strict())
            .unwrap()
            .expect("the prefix triangle exactly encloses every other point");

        assert!(triangulates_convex_hull(&points, &triangulation.triangles, strict()).unwrap());
    }
}

#[test]
fn nonenclosing_prefix_declines_to_general_hull_discovery() {
    let points = [p(0, 0), p(1, 0), p(0, 1), p(2, 2)];

    assert_eq!(
        triangulate_from_enclosing_prefix_triangle(&points, strict()).unwrap().map(|triangulation| triangulation.triangles),
        None,
    );
    assert_eq!(triangulate_point_set(&points, strict()).unwrap().triangles.len(), 2);
}

#[test]
fn degenerate_prefix_declines_to_general_hull_discovery() {
    let points = [p(0, 0), p(1, 0), p(2, 0), p(0, 1)];

    assert_eq!(
        triangulate_from_enclosing_prefix_triangle(&points, strict()).unwrap().map(|triangulation| triangulation.triangles),
        None,
    );
    assert_eq!(triangulate_point_set(&points, strict()).unwrap().triangles.len(), 2);
}

#[test]
fn small_point_sets_and_collinear_sets() {
    assert!(triangulate_point_set(&[], strict()).unwrap().triangles.is_empty());
    assert!(triangulate_point_set(&[p(0, 0), p(1, 1)], strict()).unwrap().triangles.is_empty());
    assert_eq!(triangulate_point_set(&[p(0, 0), p(0, 1), p(1, 0)], strict()).unwrap().triangles, vec![[0, 2, 1]]);
    assert_eq!(
        triangulate_point_set(&[p(0, 0), p(1, 1), p(2, 2)], strict()).unwrap_err(),
        Error::InvalidInput { reason: "point set is collinear" }
    );
    assert_eq!(
        triangulate_point_set(&[p(0, 0), p(1, 1), p(2, 2), p(3, 3)], strict()).unwrap_err(),
        Error::InvalidInput { reason: "point set is collinear" }
    );
}

#[test]
fn general_point_set_covers_its_hull() {
    let points = vec![p(5, 5), p(0, 0), p(10, 0), p(10, 10), p(0, 10), p(3, 7), p(5, 0), p(8, 2)];
    let triangulation = triangulate_point_set(&points, strict()).unwrap();
    assert!(triangulates_convex_hull(&points, &triangulation.triangles, strict()).unwrap());
    assert_eq!(triangulation.triangles.len(), 2 * points.len() - 5 - 2);
}

#[test]
fn orientation_helpers_reorder_and_classify() {
    let points = [p(0, 0), p(4, 0), p(0, 4), p(1, 1), p(2, 0), p(5, 5), p(2, 2)];
    assert_eq!(make_oriented(&points, [0, 2, 1], strict()), Ok([0, 1, 2]));
    assert_eq!(make_oriented(&points, [0, 1, 2], strict()), Ok([0, 1, 2]));
    assert_eq!(make_oriented(&points, [0, 3, 5], strict()), Err(Error::InvalidInput { reason: "degenerate triangle" }));
    assert_eq!(triangle_if_not_degenerate(&points, [0, 3, 5], strict()), Ok(None));
    assert_eq!(classify_point_triangle(&points, 0, 1, 2, 3, strict()), Ok(TriangleLocation::Inside));
    assert_eq!(classify_point_triangle(&points, 0, 1, 2, 4, strict()), Ok(TriangleLocation::OnEdge));
    assert_eq!(classify_point_triangle(&points, 0, 1, 2, 6, strict()), Ok(TriangleLocation::OnEdge));
    assert_eq!(classify_point_triangle(&points, 0, 1, 2, 5, strict()), Ok(TriangleLocation::Outside));
    assert_eq!(classify_point_triangle(&points, 0, 1, 2, 0, strict()), Ok(TriangleLocation::OnVertex));
    assert_eq!(classify_point_triangle(&points, 0, 3, 5, 1, strict()), Ok(TriangleLocation::Degenerate));
}

#[test]
fn enclosing_prefix_proof_reports_the_seed_and_first_edge() {
    let points = [p(2, 2), p(0, 0), p(4, 0), p(0, 4), p(4, 4), p(0, 2)];
    assert_eq!(prove_enclosing_prefix_triangle(&points).unwrap(), None);
    let enclosed = [p(0, 0), p(6, 0), p(0, 6), p(3, 0), p(1, 1)];
    assert_eq!(prove_enclosing_prefix_triangle(&enclosed).unwrap(), Some(([0, 1, 2], Some([0, 1, 2]))));
    let reversed = [p(0, 0), p(0, 6), p(6, 0), p(1, 1)];
    assert_eq!(prove_enclosing_prefix_triangle(&reversed).unwrap(), Some(([0, 2, 1], None)));
}

#[test]
fn interior_point_replaces_its_triangle_by_the_fan() {
    let points = [p(0, 0), p(3, 0), p(0, 3), p(1, 1)];
    let mut triangles: Vec<Triangle> = vec![[0, 1, 2]];
    let mut topology: Option<Box<TriangleTopology>> = None;
    insert_point(&points, &mut triangles, 3, &mut topology, strict()).unwrap();
    assert_eq!(triangles, vec![[0, 1, 3], [1, 2, 3], [2, 0, 3]]);
}

#[test]
fn edge_point_splits_both_triangles_on_the_edge() {
    let points = [p(0, 0), p(8, 0), p(8, 8), p(0, 8), p(4, 4)];
    let mut triangles: Vec<Triangle> = vec![[0, 1, 2], [0, 2, 3]];
    let mut topology: Option<Box<TriangleTopology>> = None;
    insert_point(&points, &mut triangles, 4, &mut topology, strict()).unwrap();
    assert_eq!(triangles, vec![[2, 4, 1], [2, 3, 4], [4, 0, 1], [4, 3, 0]]);
}
