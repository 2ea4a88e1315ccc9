use hypertri::cdt::{constrained_delaunay, DelaunayTriangulation};
use hypertri::delaunay::{brio_insertion_order, delaunay, delaunay_spatial, splitmix64};
use hypertri::topology::{triangulation_has_edge, EdgeKey};
use hypertri::{Constraint, Error, ExactPoint, Point2, PredicatePolicy, Real, TriangulationCertainty, TriangulationContext};

fn context() -> TriangulationContext {
    TriangulationContext::new(PredicatePolicy::strict())
}

fn p(x: i64, y: i64) -> ExactPoint {
    Point2::new(Real::from_int(x), Real::from_int(y))
}

fn strict_delaunay(points: &[ExactPoint]) -> Result<DelaunayTriangulation, Error> {
    delaunay(&context(), points).map(|outcome| outcome.value)
}

#[test]
fn delaunay_returns_single_exact_triangle() {
    let points = vec![p(0, 0), p(2, 0), p(0, 2)];

    let triangulation = strict_delaunay(&points).unwrap();

    assert_eq!(triangulation.triangles(), &[[0, 1, 2]]);
}

#[test]
fn delaunay_rejects_numeric_duplicates_with_distinct_representations() {
    let left = Real::fraction(1, 2).unwrap();
    let right = Real::fraction(2, 4).unwrap();
    assert_ne!((left.numerator(), left.denominator()), (right.numerator(), right.denominator()));

    let points = vec![Point2::new(left, Real::zero()), Point2::new(right, Real::zero()), p(0, 1)];
    assert!(matches!(
        strict_delaunay(&points),
        Err(Error::InvalidInput { reason: "duplicate points are not supported" })
    ));
}

#[test]
fn delaunay_rejects_collinear_triangle() {
    let points = vec![p(0, 0), p(1, 1), p(2, 2)];

    let triangulation = strict_delaunay(&points).unwrap();

    assert!(triangulation.triangles().is_empty());
}

#[test]
fn delaunay_rejects_duplicate_points() {
    let points = vec![p(0, 0), p(1, 0), p(1, 0), p(0, 1)];

    let error = strict_delaunay(&points).unwrap_err();

    assert_eq!(error, Error::InvalidInput { reason: "duplicate points are not supported" });
}

#[test]
fn delaunay_triangulates_convex_quad_with_one_diagonal() {
    let points = vec![p(0, 0), p(1, 0), p(1, 1), p(0, 1)];

    let triangulation = strict_delaunay(&points).unwrap();

    assert_eq!(triangulation.triangles().len(), 2);
    assert!(triangulation
        .triangles()
        .iter()
        .all(|triangle| triangle[0] != triangle[1] && triangle[1] != triangle[2] && triangle[0] != triangle[2]));
}

#[test]
fn delaunay_triangulates_square_with_center_point() {
    let points = vec![p(0, 0), p(4, 0), p(4, 4), p(0, 4), p(2, 2)];

    let triangulation = strict_delaunay(&points).unwrap();

    assert_eq!(triangulation.triangles().len(), 4);
    assert!(triangulation.triangles().iter().all(|triangle| triangle.contains(&4)));
}

#[test]
fn delaunay_triangulates_larger_non_cocircular_set() {
    let points = vec![p(0, 0), p(3, 0), p(5, 2), p(4, 5), p(1, 4), p(2, 2)];

    let triangulation = strict_delaunay(&points).unwrap();

    assert_eq!(triangulation.triangles().len(), 5);
    assert!(triangulation.triangles().iter().flatten().all(|&index| index < points.len()));
}

#[test]
fn located_cavity_triangulates_and_validates_large_exact_set() {
    let points = (0..400_i64)
        .map(|index| p((index % 20) * 100 + (index * 17) % 31, (index / 20) * 100 + (index * 29) % 37))
        .collect::<Vec<_>>();

    let triangulation = strict_delaunay(&points).unwrap();

    triangulation.validate(&context()).unwrap();
    for index in 0..points.len() {
        assert!(triangulation.triangles().iter().any(|triangle| triangle.contains(&index)));
    }
}

#[test]
fn nearly_collinear_hull_expands_super_triangle_until_complete() {
    let points = vec![p(-905, 756), p(-1490, 702), p(-1611, 691), p(-2273, -576), p(-385, -1400)];
    let outcome = delaunay(&context(), &points).unwrap();

    assert_eq!(outcome.certainty, TriangulationCertainty::Certified);
    assert_eq!(outcome.value.triangles().len(), 4);
    assert!(triangulation_has_edge(outcome.value.triangles(), EdgeKey::new(0, 2)));
    outcome.value.validate(&context()).unwrap();

    let constrained = constrained_delaunay(&context(), &points, &[Constraint::new(0, 2)]).unwrap();
    assert_eq!(constrained.certainty, TriangulationCertainty::Certified);
    constrained.value.validate(&context()).unwrap();
}

#[test]
fn delaunay_of_two_points_is_empty_and_keeps_the_points() {
    let points = vec![p(0, 0), p(5, 1)];

    let triangulation = strict_delaunay(&points).unwrap();

    assert!(triangulation.triangles().is_empty());
    assert_eq!(triangulation.points().len(), 2);
}

#[test]
fn delaunay_orients_a_clockwise_triangle() {
    let points = vec![p(0, 0), p(0, 2), p(2, 0)];

    let triangulation = strict_delaunay(&points).unwrap();

    assert_eq!(triangulation.triangles(), &[[0, 2, 1]]);
}

#[test]
fn delaunay_of_four_collinear_points_is_degenerate() {
    let points = vec![p(0, 0), p(1, 1), p(2, 2), p(3, 3)];

    assert_eq!(
        strict_delaunay(&points).unwrap_err(),
        Error::InvalidInput { reason: "four-point set is degenerate" }
    );
}

#[test]
fn delaunay_splits_a_triangle_at_a_point_on_its_edge() {
    let points = vec![p(0, 0), p(4, 0), p(0, 4), p(2, 0)];

    let triangulation = strict_delaunay(&points).unwrap();

    assert_eq!(triangulation.triangles().len(), 2);
    assert!(triangulation.triangles().iter().all(|triangle| triangle.contains(&3)));
    triangulation.validate(&context()).unwrap();
}

#[test]
fn delaunay_picks_the_empty_circle_diagonal_of_a_kite() {
    let points = vec![p(5, 1), p(5, -1), p(0, 0), p(10, 0)];

    let triangulation = strict_delaunay(&points).unwrap();

    assert!(triangulation_has_edge(triangulation.triangles(), EdgeKey::new(0, 1)));
    assert!(!triangulation_has_edge(triangulation.triangles(), EdgeKey::new(2, 3)));
    triangulation.validate(&context()).unwrap();
}

#[test]
fn four_point_construction_only_tries_diagonals_from_the_first_point() {
    let points = vec![p(0, 0), p(10, 0), p(5, 1), p(5, -1)];

    assert_eq!(
        strict_delaunay(&points).unwrap_err(),
        Error::InvalidInput { reason: "four-point set is degenerate" }
    );
}

#[test]
fn delaunay_of_collinear_larger_set_cannot_cover_a_hull() {
    let points = vec![p(0, 0), p(1, 1), p(2, 2), p(3, 3), p(4, 4)];

    let triangulation = strict_delaunay(&points).unwrap();

    assert!(triangulation.triangles().is_empty());
}

#[test]
fn delaunay_reports_coordinates_beyond_the_enclosing_range() {
    let far = i64::MAX / 4;
    let points = vec![p(-far, -far), p(far, -far), p(far, far), p(-far, far), p(0, 1)];

    assert_eq!(
        strict_delaunay(&points).unwrap_err(),
        Error::UnsupportedFeature { feature: "super-triangle coordinates beyond the coordinate range" }
    );
}

#[test]
fn spatial_delaunay_preserves_indices_and_unique_topology() {
    let points = vec![p(0, 0), p(7, 1), p(2, 6), p(9, 8), p(4, 3), p(1, 9), p(8, 4), p(5, 10), p(11, 2)];
    let ordinary = strict_delaunay(&points).unwrap();
    let spatial = delaunay_spatial(&context(), &points).unwrap().value;

    ordinary.validate(&context()).unwrap();
    spatial.validate(&context()).unwrap();
    assert_eq!(spatial.points().len(), points.len());
    for (kept, given) in spatial.points().iter().zip(&points) {
        assert_eq!(
            (kept.x.numerator(), kept.x.denominator(), kept.y.numerator(), kept.y.denominator()),
            (given.x.numerator(), given.x.denominator(), given.y.numerator(), given.y.denominator())
        );
    }

    let canonical = |triangulation: &DelaunayTriangulation| {
        let mut triangles = triangulation.triangles().to_vec();
        for triangle in &mut triangles {
            triangle.sort_unstable();
        }
        triangles.sort_unstable();
        triangles
    };
    assert_eq!(canonical(&ordinary), canonical(&spatial));
}

#[test]
fn brio_order_is_deterministic_permutation() {
    let points = (0..80).map(|index| p((index * 17) % 83, (index * 29) % 89)).collect::<Vec<_>>();
    let first = brio_insertion_order(&points);
    let second = brio_insertion_order(&points);
    let mut sorted = first.clone();
    sorted.sort_unstable();

    assert_eq!(first, second);
    assert_eq!(sorted, (0..points.len()).collect::<Vec<_>>());
}

#[test]
fn splitmix_matches_the_reference_finalizer() {
    assert_eq!(splitmix64(0), 0xe220_a839_7b1d_cdaf);
    assert_eq!(splitmix64(1), 0x910a_2dec_8902_5cc1);
}

#[test]
fn spatial_delaunay_handles_small_sets_directly() {
    let points = vec![p(0, 0), p(2, 0), p(0, 2)];

    let triangulation = delaunay_spatial(&context(), &points).unwrap().value;

    assert_eq!(triangulation.triangles(), &[[0, 1, 2]]);
}

#[test]
fn spatial_delaunay_covers_a_large_grid() {
    let points = (0..120_i64)
        .map(|index| p((index % 12) * 50 + (index * 7) % 13, (index / 12) * 50 + (index * 11) % 17))
        .collect::<Vec<_>>();

    let triangulation = delaunay_spatial(&context(), &points).unwrap().value;

    triangulation.validate(&context()).unwrap();
}
