use hypertri::constraint_polygon::{
    exterior_ring_index, insert_hole_sorted, order_polygon_rings, polygon_from_closed_constraints, ring_is_inside_any_other_hole,
};
use hypertri::{Constraint, Point2, PredicatePolicy, Real};

fn strict() -> PredicatePolicy {
    PredicatePolicy::strict()
}

fn point(x: i64, y: i64) -> Point2 {
    Point2::new(Real::from_int(x), Real::from_int(y))
}

fn cycle(indices: &[usize]) -> Vec<Constraint> {
    (0..indices.len())
        .map(|index| Constraint::new(indices[index], indices[(index + 1) % indices.len()]))
        .collect()
}

#[test]
fn ring_ordering_finds_exterior_and_sorts_holes_lexicographically() {
    let points = vec![
        point(0, 0),
        point(12, 0),
        point(12, 12),
        point(0, 12),
        point(8, 4),
        point(10, 4),
        point(10, 6),
        point(8, 6),
        point(4, 6),
        point(2, 6),
        point(2, 4),
        point(4, 4),
    ];
    let rings = vec![vec![4, 5, 6, 7], vec![8, 9, 10, 11], vec![0, 1, 2, 3]];
    let polygon = order_polygon_rings(&points, rings, strict()).unwrap().unwrap();

    assert_eq!(polygon.rings()[0], vec![0, 1, 2, 3]);
    assert_eq!(polygon.rings()[1], vec![8, 9, 10, 11]);
    assert_eq!(polygon.rings()[2], vec![4, 5, 6, 7]);

    let (flat, hole_indices, source_indices) = polygon.to_flat_polygon(&points);
    assert_eq!(flat.len(), 12);
    assert_eq!(hole_indices, vec![4, 8]);
    assert_eq!(source_indices, vec![0, 1, 2, 3, 8, 9, 10, 11, 4, 5, 6, 7]);
}

#[test]
fn private_hole_helpers_cover_prepend_and_nested_detection() {
    let points = vec![
        point(0, 0),
        point(12, 0),
        point(12, 12),
        point(0, 12),
        point(6, 6),
        point(8, 4),
        point(10, 4),
        point(10, 8),
        point(8, 8),
        point(9, 5),
    ];
    let mut holes = vec![vec![5, 6, 7, 8]];
    insert_hole_sorted(&points, &mut holes, vec![4]);
    assert_eq!(holes, vec![vec![4], vec![5, 6, 7, 8]]);

    let rings = vec![vec![0, 1, 2, 3], vec![5, 6, 7, 8], vec![9]];
    assert!(ring_is_inside_any_other_hole(&points, &rings, 0, 2, strict()).unwrap());
}

#[test]
fn ring_ordering_rejects_disjoint_nested_and_ambiguous_exteriors() {
    let disjoint = vec![point(0, 0), point(2, 0), point(0, 2), point(5, 0), point(7, 0), point(5, 2)];
    assert_eq!(order_polygon_rings(&disjoint, vec![vec![0, 1, 2], vec![3, 4, 5]], strict()).unwrap(), None);

    let nested = vec![
        point(0, 0),
        point(10, 0),
        point(10, 10),
        point(0, 10),
        point(2, 2),
        point(8, 2),
        point(8, 8),
        point(2, 8),
        point(3, 3),
        point(4, 3),
        point(4, 4),
        point(3, 4),
    ];
    assert_eq!(
        order_polygon_rings(&nested, vec![vec![0, 1, 2, 3], vec![4, 5, 6, 7], vec![8, 9, 10, 11]], strict()).unwrap(),
        None
    );

    let duplicate = vec![point(0, 0), point(4, 0), point(0, 4), point(0, 0), point(4, 0), point(0, 4)];
    assert_eq!(exterior_ring_index(&duplicate, &[vec![0, 1, 2], vec![3, 4, 5]], strict()).unwrap(), None);
}

#[test]
fn public_recognizer_distinguishes_cycle_graphs_from_general_pslgs() {
    let points = vec![point(0, 0), point(4, 0), point(0, 4), point(2, 2)];
    let polygon = polygon_from_closed_constraints(&points, &cycle(&[0, 1, 2]), strict()).unwrap();
    assert!(polygon.is_some());

    let open = [Constraint::new(0, 1), Constraint::new(1, 2)];
    assert_eq!(polygon_from_closed_constraints(&points, &open, strict()).unwrap(), None);
}

#[test]
fn exterior_is_found_in_any_position_and_holes_keep_a_single_ring() {
    let points = vec![point(0, 0), point(9, 0), point(9, 9), point(0, 9), point(3, 3), point(6, 3), point(3, 6)];
    assert_eq!(exterior_ring_index(&points, &[vec![4, 5, 6], vec![0, 1, 2, 3]], strict()).unwrap(), Some(1));
    assert_eq!(exterior_ring_index(&points, &[vec![0, 1, 2, 3], vec![4, 5, 6]], strict()).unwrap(), Some(0));

    let single = order_polygon_rings(&points, vec![vec![4, 5, 6]], strict()).unwrap().unwrap();
    assert_eq!(single.rings(), &[vec![4, 5, 6]]);
    let (_, hole_indices, sources) = single.to_flat_polygon(&points);
    assert!(hole_indices.is_empty());
    assert_eq!(sources, vec![4, 5, 6]);

    let mut constraints = cycle(&[4, 5, 6]);
    constraints.extend(cycle(&[0, 1, 2, 3]));
    let polygon = polygon_from_closed_constraints(&points, &constraints, strict()).unwrap().unwrap();
    assert_eq!(polygon.rings(), &[vec![0, 1, 2, 3], vec![4, 5, 6]]);
}
