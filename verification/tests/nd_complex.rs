use hypertri::nd::{delaunay_complex, BistellarFlipD, DelaunayComplex, PointD, Simplex};
use hypertri::{Error, PredicatePolicy, Real, TriangulationCertainty, TriangulationContext};

fn context() -> TriangulationContext {
    TriangulationContext::new(PredicatePolicy::strict())
}

fn complex_of(points: &[PointD]) -> Result<DelaunayComplex, Error> {
    delaunay_complex(&context(), points).map(|outcome| outcome.into_value())
}

fn p(coords: &[i64]) -> PointD {
    PointD::new(coords.iter().copied().map(Real::from_int).collect())
}

fn q(numerator: i64, denominator: u64) -> Real {
    Real::fraction(numerator, denominator).unwrap()
}

#[test]
fn tetrahedron_forms_one_exact_3d_cell() {
    let points = vec![p(&[0, 0, 0]), p(&[1, 0, 0]), p(&[0, 1, 0]), p(&[0, 0, 1])];

    let complex = complex_of(&points).unwrap();

    assert_eq!(complex.dimension(), 3);
    assert_eq!(complex.cells().len(), 1);
    assert_eq!(complex.cells()[0].indices(), &[0, 1, 2, 3]);
    complex.validate(&context()).unwrap();
}

#[test]
fn four_dimensional_simplex_forms_one_cell() {
    let points = vec![
        p(&[0, 0, 0, 0]),
        p(&[1, 0, 0, 0]),
        p(&[0, 1, 0, 0]),
        p(&[0, 0, 1, 0]),
        p(&[0, 0, 0, 1]),
    ];

    let complex = complex_of(&points).unwrap();

    assert_eq!(complex.dimension(), 4);
    assert_eq!(complex.cells().len(), 1);
    complex.validate(&context()).unwrap();
}

#[test]
fn tetrahedron_with_exact_interior_point_forms_four_star_cells() {
    let points = vec![
        p(&[0, 0, 0]),
        p(&[1, 0, 0]),
        p(&[0, 1, 0]),
        p(&[0, 0, 1]),
        PointD::new(vec![q(1, 4), q(1, 4), q(1, 4)]),
    ];

    let complex = complex_of(&points).unwrap();

    assert_eq!(complex.dimension(), 3);
    assert_eq!(complex.cells().len(), 4);
    assert!(
        complex.cells().iter().all(|cell| cell.indices().contains(&4)),
        "interior point should star the original tetrahedron"
    );
    complex.validate(&context()).unwrap();
}

#[test]
fn duplicate_nd_points_are_rejected() {
    let error = complex_of(&[p(&[0, 0, 0]), p(&[0, 0, 0])]).unwrap_err();

    assert_eq!(
        error,
        Error::InvalidInput {
            reason: "duplicate D-dimensional points are not supported"
        }
    );
}

#[test]
fn numeric_duplicate_nd_points_with_distinct_representations_are_rejected() {
    // One half written as 1/2 and as 2/4: equal numbers, distinct storage.
    let left = q(1, 2);
    let right = q(2, 4);
    assert_ne!(left.numerator(), right.numerator());

    let error = complex_of(&[
        PointD::new(vec![left, Real::zero()]),
        PointD::new(vec![right, Real::zero()]),
        p(&[0, 1]),
    ])
    .unwrap_err();

    assert_eq!(
        error,
        Error::InvalidInput {
            reason: "duplicate D-dimensional points are not supported"
        }
    );
}

#[test]
fn mixed_dimension_points_are_rejected() {
    let error = complex_of(&[p(&[0, 0]), p(&[1, 0, 0])]).unwrap_err();

    assert_eq!(
        error,
        Error::InvalidInput {
            reason: "D-dimensional points must share one ambient dimension"
        }
    );
}

#[test]
fn empty_input_and_zero_dimension_are_rejected() {
    assert_eq!(
        complex_of(&[]).unwrap_err(),
        Error::InvalidInput {
            reason: "D-dimensional Delaunay input must contain at least one point"
        }
    );
    assert_eq!(
        complex_of(&[PointD::new(vec![])]).unwrap_err(),
        Error::InvalidInput {
            reason: "D-dimensional points must have at least one coordinate"
        }
    );
}

#[test]
fn too_few_points_give_no_cells_and_the_outcome_is_certified() {
    let outcome = delaunay_complex(&context(), &[p(&[0, 0]), p(&[1, 0])]).unwrap();
    assert_eq!(outcome.certainty, TriangulationCertainty::Certified);
    assert_eq!(outcome.value.dimension(), 2);
    assert!(outcome.value.cells().is_empty());
    assert_eq!(outcome.value.points().len(), 2);
}

#[test]
fn square_gives_two_cospherical_triangulations_and_flip_swaps_the_diagonal() {
    // Four cocircular points: every triangle has an empty circumcircle.
    let points = vec![p(&[0, 0]), p(&[1, 0]), p(&[1, 1]), p(&[0, 1])];
    let complex = complex_of(&points).unwrap();
    assert_eq!(complex.cells().len(), 4);

    // A 2-2 flip on the square circuit: remove the diagonal 0-2 side.
    let diagonal = DelaunayComplex::from_parts(
        2,
        points.clone(),
        vec![Simplex::new(vec![0, 1, 2]), Simplex::new(vec![0, 2, 3])],
    );
    diagonal.validate(&context()).unwrap();
    let flip = BistellarFlipD::new(vec![3, 2, 1, 0], vec![3, 1]);
    let report = diagonal.validate_bistellar_flip(&context(), &flip).value;
    assert!(report.is_valid());
    assert_eq!(report.p(), 2);
    assert_eq!(report.q(), 2);
    assert_eq!(report.removed_cells()[0].indices(), &[0, 2, 3]);
    assert_eq!(report.removed_cells()[1].indices(), &[0, 1, 2]);
    assert_eq!(report.inserted_cells()[0].indices(), &[1, 2, 3]);
    assert_eq!(report.inserted_cells()[1].indices(), &[0, 1, 3]);

    let applied = diagonal.flip_oracle(&context(), &flip).unwrap().value;
    let cells: Vec<Vec<usize>> = applied.result().cells().iter().map(|c| c.indices().to_vec()).collect();
    assert_eq!(cells, vec![vec![0, 1, 3], vec![1, 2, 3]]);
    assert!(applied.validation().is_valid());
}

#[test]
fn flip_with_wrong_arity_reports_the_reason() {
    let points = vec![p(&[0, 0]), p(&[1, 0]), p(&[0, 1])];
    let complex = complex_of(&points).unwrap();
    let report = complex
        .validate_bistellar_flip(&context(), &BistellarFlipD::new(vec![0, 1, 2], vec![0]))
        .value;
    assert!(!report.is_valid());
    assert_eq!(report.reason(), Some("D-dimensional flip circuit has wrong arity"));
    assert_eq!(report.undecided_predicate(), None);
    assert_eq!(report.p(), 1);
    assert_eq!(report.q(), 2);
    assert!(complex
        .flip_oracle(&context(), &BistellarFlipD::new(vec![0, 1, 2], vec![0]))
        .is_err());
}

#[test]
fn flip_onto_a_non_delaunay_diagonal_is_blocked() {
    // A kite whose 0-2 diagonal is Delaunay; flipping to 1-3 is illegal.
    let points = vec![p(&[0, 0]), p(&[2, -1]), p(&[4, 0]), p(&[2, 1])];
    let complex = complex_of(&points).unwrap();
    let cells: Vec<Vec<usize>> = complex.cells().iter().map(|c| c.indices().to_vec()).collect();
    assert_eq!(cells, vec![vec![0, 1, 3], vec![1, 2, 3]]);
    let flip = BistellarFlipD::new(vec![0, 1, 2, 3], vec![0, 2]);
    let report = complex.validate_bistellar_flip(&context(), &flip).value;
    assert!(report.blocks_delaunay());
    assert!(!report.is_valid());
    assert_eq!(
        complex.flip_oracle(&context(), &flip).unwrap_err(),
        Error::InvalidInput {
            reason: "D-dimensional flip is blocked by exact Delaunay legality"
        }
    );
}

#[test]
fn inserting_the_centroid_stars_the_triangle() {
    let points = vec![p(&[0, 0]), p(&[3, 0]), p(&[0, 3])];
    let complex = complex_of(&points).unwrap();
    let report = complex
        .insert_point_oracle(&context(), PointD::new(vec![Real::from_int(1), Real::from_int(1)]))
        .unwrap()
        .value;
    assert_eq!(report.inserted_vertex(), 3);
    assert_eq!(report.old_cell_count(), 1);
    assert_eq!(report.new_cell_count(), 3);
    assert_eq!(report.conflict_cells().len(), 1);
    assert_eq!(report.boundary_facets(), &[vec![0, 1], vec![0, 2], vec![1, 2]]);
    assert_eq!(report.result().points().len(), 4);
    assert!(report.result().cells().iter().all(|cell| cell.indices().contains(&3)));
}

#[test]
fn inserting_an_existing_point_is_rejected() {
    let points = vec![p(&[0, 0]), p(&[3, 0]), p(&[0, 3])];
    let complex = complex_of(&points).unwrap();
    assert_eq!(
        complex
            .insert_point_oracle(&context(), PointD::new(vec![q(6, 2), q(0, 5)]))
            .unwrap_err(),
        Error::InvalidInput {
            reason: "duplicate D-dimensional points are not supported"
        }
    );
    assert_eq!(
        complex.insert_point_oracle(&context(), p(&[1, 1, 1])).unwrap_err(),
        Error::InvalidInput {
            reason: "D-dimensional points must share one ambient dimension"
        }
    );
}

#[test]
fn validation_rejects_bad_cells() {
    let points = vec![p(&[0, 0]), p(&[1, 0]), p(&[0, 1]), p(&[1, 1])];
    let check = |cells: Vec<Simplex>| {
        DelaunayComplex::from_parts(2, points.clone(), cells)
            .validate(&context())
            .unwrap_err()
    };
    assert_eq!(
        check(vec![Simplex::new(vec![0, 1])]),
        Error::InvalidInput { reason: "D-dimensional simplex has wrong arity" }
    );
    assert_eq!(
        check(vec![Simplex::new(vec![0, 1, 9])]),
        Error::InvalidInput { reason: "D-dimensional simplex index out of bounds" }
    );
    assert_eq!(
        check(vec![Simplex::new(vec![0, 1, 1])]),
        Error::InvalidInput { reason: "D-dimensional simplex repeats a point index" }
    );
    let collinear = vec![p(&[0, 0]), p(&[1, 1]), p(&[2, 2])];
    assert_eq!(
        DelaunayComplex::from_parts(2, collinear, vec![Simplex::new(vec![0, 1, 2])])
            .validate(&context())
            .unwrap_err(),
        Error::InvalidInput { reason: "D-dimensional simplex is affinely dependent" }
    );
    let wide = vec![p(&[0, 0]), p(&[4, 0]), p(&[2, 1]), p(&[2, -1])];
    assert_eq!(
        DelaunayComplex::from_parts(2, wide, vec![Simplex::new(vec![0, 1, 2])])
            .validate(&context())
            .unwrap_err(),
        Error::InvalidInput { reason: "D-dimensional simplex violates empty-sphere legality" }
    );
}

#[test]
fn flip_circuit_vertices_are_stored_sorted() {
    let flip = BistellarFlipD::new(vec![3, 1, 2, 0], vec![1, 3]);
    assert_eq!(flip.vertices(), &[0, 1, 2, 3]);
    assert_eq!(flip.removed_opposite_vertices(), &[1, 3]);
}
