use hypertri::constraints::extract_closed_rings;
use hypertri::Constraint;

fn cycle(indices: &[usize]) -> Vec<Constraint> {
    (0..indices.len())
        .map(|index| Constraint::new(indices[index], indices[(index + 1) % indices.len()]))
        .collect()
}

#[test]
fn closed_ring_extraction_rejects_noncycles_and_keeps_all_cycles() {
    assert_eq!(extract_closed_rings(0, &[]), None);
    assert_eq!(extract_closed_rings(2, &[Constraint::new(0, 1)]), None);
    assert_eq!(extract_closed_rings(3, &[Constraint::new(0, 1)]), None);
    assert_eq!(extract_closed_rings(3, &[Constraint::new(0, 0)]), None);
    assert_eq!(
        extract_closed_rings(3, &[Constraint::new(0, 1), Constraint::new(0, 1)]),
        None
    );

    let mut constraints = cycle(&[0, 1, 2]);
    constraints.extend(cycle(&[3, 4, 5, 6]));
    let rings = extract_closed_rings(7, &constraints).unwrap();
    assert_eq!(rings.len(), 2);
    assert_eq!(rings[0], vec![0, 1, 2]);
    assert_eq!(rings[1], vec![3, 4, 5, 6]);
}

#[test]
fn closed_ring_extraction_follows_reversed_and_shuffled_constraints() {
    // The ring 0-1-2-3 listed out of order, with one constraint reversed.
    let constraints = [
        Constraint::new(2, 3),
        Constraint::new(1, 0),
        Constraint::new(3, 0),
        Constraint::new(1, 2),
    ];
    let rings = extract_closed_rings(4, &constraints).unwrap();
    assert_eq!(rings, vec![vec![2, 3, 0, 1]]);
}

#[test]
fn closed_ring_extraction_rejects_shared_vertices_and_open_chains() {
    // Two triangles sharing vertex 0: degree four.
    let mut constraints = cycle(&[0, 1, 2]);
    constraints.extend(cycle(&[0, 3, 4]));
    assert_eq!(extract_closed_rings(5, &constraints), None);
    // An open chain: endpoints of degree one.
    assert_eq!(
        extract_closed_rings(4, &[Constraint::new(0, 1), Constraint::new(1, 2)]),
        None
    );
}
