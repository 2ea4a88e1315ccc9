use hypertri::{Point2, PolygonInput, PolygonInputFacts, Real, RingInputFacts};

fn p(x: i64, y: i64) -> Point2 {
    Point2::new(Real::from_int(x), Real::from_int(y))
}

#[test]
fn polygon_input_facts_carry_exact_coordinate_summary() {
    let input = PolygonInput::new(vec![p(0, 0), p(4, 0), p(4, 3), p(0, 3)], Vec::new());
    let facts = input.facts();

    assert_eq!(facts.vertex_count, 4);
    assert_eq!(facts.exact_rational_coordinates, 8);
    assert!(facts.all_coordinates_exact_rational());
    assert!(facts.all_coordinates_dyadic());
    assert_eq!(facts.coordinate_exact.exact_integer_count, 8);
    assert_eq!(facts.symbolic_dependencies, 0);
    assert_eq!(facts.rings[0].known_axis_aligned_edges, 4);
}

#[test]
fn ring_facts_count_collapsed_and_axis_aligned_edges() {
    let vertices = vec![p(0, 0), p(2, 0), p(2, 0), p(3, 1), p(0, 2)];
    let ring = RingInputFacts::from_range(&vertices, 0, 5);
    assert_eq!(ring.known_degenerate_edges, 1);
    assert_eq!(ring.known_axis_aligned_edges, 2);
    assert_eq!(ring.unknown_edge_zero_status, 0);
    assert_eq!(ring.len(), 5);
    assert!(!ring.is_empty());
    let short = RingInputFacts::from_range(&vertices, 4, 5);
    assert_eq!(short.known_degenerate_edges, 0);
    assert_eq!(short.known_axis_aligned_edges, 0);
}

#[test]
fn polygon_facts_split_rings_at_hole_starts_and_summarize_coordinates() {
    let half = Real::fraction(1, 2).unwrap();
    let third = Real::fraction(1, 3).unwrap();
    let vertices = vec![p(0, 0), p(4, 0), p(4, 4), p(0, 4), Point2::new(half, half), Point2::new(third, half), Point2::new(half, third)];
    let facts = PolygonInputFacts::from_parts(&vertices, &[4]);
    assert_eq!(facts.ring_count, 2);
    assert!(facts.has_holes);
    assert_eq!((facts.rings[0].start, facts.rings[0].end), (0, 4));
    assert_eq!((facts.rings[1].start, facts.rings[1].end), (4, 7));
    assert_eq!(facts.known_degenerate_edge_count(), 0);
    assert_eq!(facts.unknown_edge_zero_status_count(), 0);
    assert!(facts.all_coordinates_exact_rational());
    assert!(!facts.all_coordinates_dyadic());
    assert!(!facts.has_shared_denominator_schedule());
    assert_eq!(facts.coordinate_exact.exact_integer_count, 8);

    let input = PolygonInput::new(vertices.clone(), vec![4]);
    let (back, holes) = input.into_parts();
    assert_eq!(back.len(), vertices.len());
    assert_eq!(holes, vec![4]);
}
