use hypertri::topology::{
    adjacent_triangles, oriented_triangle, replacement_local_index, triangle_edge_slot,
    triangle_neighbors, AdjacentTriangle, EdgeKey, TopologyEdges, TriangleTopology,
};
use hypertri::{Error, Sign, Triangle};

#[test]
fn sparse_triangle_adjacency_matches_shared_half_edges() {
    assert_eq!(
        triangle_neighbors(&[[0, 1, 2], [1, 0, 3]]).unwrap(),
        vec![[Some(1), None, None], [Some(0), None, None]]
    );
}

#[test]
fn sparse_triangle_adjacency_rejects_non_manifold_edges() {
    assert_eq!(
        triangle_neighbors(&[[0, 1, 2], [1, 0, 3], [0, 1, 4]]),
        Err(Error::InvalidInput {
            reason: "Delaunay edge has more than two incident faces",
        })
    );
}

#[test]
fn sorted_topology_edges_retain_owners_and_reject_malformed_incidence() {
    let triangles = [[0, 1, 2], [1, 0, 3]];
    let edges = TopologyEdges::new(&triangles).unwrap().collect_edges().unwrap();
    let (_, owners) = edges
        .iter()
        .find(|(edge, _)| *edge == EdgeKey::new(0, 1))
        .copied()
        .unwrap();
    assert_eq!(owners, Some([0, 1]));
    assert_eq!(
        adjacent_triangles(&triangles, EdgeKey::new(0, 1), owners.unwrap()).unwrap(),
        [
            AdjacentTriangle {
                triangle: 0,
                opposite: 2,
            },
            AdjacentTriangle {
                triangle: 1,
                opposite: 3,
            },
        ]
    );

    assert!(matches!(
        TopologyEdges::new(&[[0, 0, 1]]),
        Err(Error::InvalidInput {
            reason: "triangle edge has no opposite vertex"
        })
    ));
    let nonmanifold = TopologyEdges::new(&[[0, 1, 2], [1, 0, 3], [0, 1, 4]])
        .unwrap()
        .collect_edges();
    assert_eq!(
        nonmanifold,
        Err(Error::InvalidInput {
            reason: "triangulation edge has more than two adjacent triangles",
        })
    );
}

#[test]
fn retained_topology_rejects_a_changed_boundary_atomically() {
    let original = vec![[0, 1, 2]];
    let mut triangles = original.clone();
    let mut topology = TriangleTopology::new(&triangles, 4).unwrap();
    let neighbors = topology.neighbors.clone();
    let vertex_triangles = topology.vertex_triangles.clone();

    assert_eq!(
        topology.replace_region(&mut triangles, &[0], &[[0, 1, 3]], None),
        Err(Error::InvalidInput {
            reason: "topology replacement changes the region boundary",
        })
    );
    assert_eq!(triangles, original);
    assert_eq!(topology.neighbors, neighbors);
    assert_eq!(topology.vertex_triangles, vertex_triangles);
}

fn replacement_error(
    original: &[Triangle],
    point_count: usize,
    indices: &[usize],
    replacement: &[Triangle],
    split: Option<(EdgeKey, usize)>,
) -> Error {
    let mut triangles = original.to_vec();
    let mut topology = TriangleTopology::new(&triangles, point_count).unwrap();
    let error = topology
        .replace_region(&mut triangles, indices, replacement, split)
        .unwrap_err();
    assert_eq!(triangles, original);
    error
}

#[test]
fn retained_topology_rejects_malformed_local_replacements_before_mutation() {
    let one = [[0, 1, 2]];
    assert_eq!(
        replacement_error(&one, 5, &[], &[[0, 1, 2]], None),
        Error::InvalidInput {
            reason: "topology replacement has mismatched triangle slots"
        }
    );
    assert_eq!(
        replacement_error(&one, 5, &[0], &[], None),
        Error::InvalidInput {
            reason: "topology replacement has mismatched triangle slots"
        }
    );
    assert_eq!(
        replacement_error(&one, 5, &[0, 0], &[[0, 1, 2], [0, 1, 2]], None),
        Error::InvalidInput {
            reason: "topology replacement triangle slots are not unique and sorted"
        }
    );
    assert_eq!(
        replacement_error(&one, 5, &[1], &[[0, 1, 2]], None),
        Error::InvalidInput {
            reason: "topology replacement references an absent triangle"
        }
    );
    assert_eq!(
        replacement_error(&one, 5, &[0], &[[0, 0, 2]], None),
        Error::InvalidInput {
            reason: "topology replacement contains an invalid triangle"
        }
    );
    assert_eq!(
        replacement_error(&one, 3, &[0], &[[0, 1, 3]], None),
        Error::InvalidInput {
            reason: "topology replacement contains an invalid triangle"
        }
    );
    assert_eq!(
        replacement_error(&one, 5, &[0], &[[0, 1, 2]], Some((EdgeKey::new(0, 1), 0)),),
        Error::InvalidInput {
            reason: "topology replacement does not split an edge interior"
        }
    );
    assert_eq!(
        replacement_error(&one, 5, &[0], &[[0, 1, 2]], Some((EdgeKey::new(3, 4), 2)),),
        Error::InvalidInput {
            reason: "split edge has invalid topology incidence"
        }
    );

    let mut triangles = one.to_vec();
    let mut topology = TriangleTopology::new(&triangles, 6).unwrap();
    assert_eq!(
        topology.replace_point_region(&mut triangles, &[0, 1, 2], &[[0, 1, 2]], None,),
        Err(Error::InvalidInput {
            reason: "point insertion exceeds its local topology bound"
        })
    );
    assert_eq!(
        topology.replace_point_region(
            &mut triangles,
            &[0],
            &[[0, 1, 2], [0, 2, 3], [0, 3, 4], [0, 4, 5], [0, 5, 1],],
            None,
        ),
        Err(Error::InvalidInput {
            reason: "point insertion exceeds its local topology bound"
        })
    );
}

#[test]
fn retained_topology_detects_corrupted_split_and_boundary_adjacency() {
    let mesh = [[0, 1, 2], [0, 2, 3]];
    let split = EdgeKey::new(0, 2);

    let mut triangles = mesh.to_vec();
    let mut topology = TriangleTopology::new(&triangles, 5).unwrap();
    assert_eq!(
        topology.replace_region(
            &mut triangles,
            &[0],
            &[[0, 1, 4], [1, 2, 4], [2, 0, 4]],
            Some((split, 4)),
        ),
        Err(Error::InvalidInput {
            reason: "split edge omitted an adjacent triangle"
        })
    );

    let mut triangles = mesh.to_vec();
    let mut topology = TriangleTopology::new(&triangles, 5).unwrap();
    topology.neighbors.fill([None; 3]);
    assert_eq!(
        topology.replace_region(
            &mut triangles,
            &[0, 1],
            &[[0, 1, 4], [1, 2, 4], [2, 3, 4], [3, 0, 4]],
            Some((split, 4)),
        ),
        Err(Error::InvalidInput {
            reason: "interior split edge remained on the topology boundary"
        })
    );

    let duplicate_mesh = [[0, 1, 2], [0, 1, 2]];
    let mut triangles = duplicate_mesh.to_vec();
    let mut topology = TriangleTopology::new(&triangles, 3).unwrap();
    topology.neighbors.fill([None; 3]);
    assert_eq!(
        topology.replace_region(&mut triangles, &[0, 1], &[[0, 1, 2], [0, 1, 2]], None,),
        Err(Error::InvalidInput {
            reason: "topology replacement boundary contains a duplicate edge"
        })
    );

    for bad_backlink in [None, Some(1)] {
        let mut triangles = mesh.to_vec();
        let mut topology = TriangleTopology::new(&triangles, 4).unwrap();
        let outside_slot = triangle_edge_slot(mesh[1], split).unwrap();
        topology.neighbors[1][outside_slot] = bad_backlink;
        assert_eq!(
            topology.replace_region(&mut triangles, &[0], &[mesh[0]], None),
            Err(Error::InvalidInput {
                reason: "triangle adjacency is not reciprocal"
            })
        );
    }
}

#[test]
fn retained_topology_rejects_nonmanifold_replacement_and_bad_lookup_slots() {
    let mut triangles = vec![[0, 1, 2]];
    let mut topology = TriangleTopology::new(&triangles, 5).unwrap();
    assert_eq!(
        topology.replace_region(
            &mut triangles,
            &[0],
            &[[0, 1, 2], [0, 1, 3], [0, 1, 4]],
            None,
        ),
        Err(Error::InvalidInput {
            reason: "topology replacement contains a non-manifold edge"
        })
    );

    assert_eq!(
        replacement_local_index(&[1], 3, 1, 0),
        Err(Error::InvalidInput {
            reason: "topology replacement edge has no triangle slot"
        })
    );
    assert_eq!(
        replacement_local_index(&[0], 1, 1, 2),
        Err(Error::InvalidInput {
            reason: "topology replacement edge has no appended slot"
        })
    );

    let topology = TriangleTopology::new(&[[0, 1, 2]], 3).unwrap();
    assert!(topology
        .neighbor_across(&[[0, 1, 2]], 9, EdgeKey::new(0, 1))
        .is_err());
    assert!(topology
        .neighbor_across(&[[0, 1, 2]], 0, EdgeKey::new(0, 9))
        .is_err());

    assert!(TriangleTopology::new(&[[0, 0, 1]], 2).is_err());
    assert!(TriangleTopology::new(&[[0, 1, 3]], 3).is_err());
    assert!(adjacent_triangles(&[[0, 1, 0]], EdgeKey::new(0, 1), [0, 0]).is_err());
    assert_eq!(
        oriented_triangle(Sign::Zero, [0, 1, 2]),
        Err(Error::InvalidInput {
            reason: "degenerate triangle"
        })
    );
}

#[test]
fn retained_topology_splits_a_hull_edge_and_relinks_neighbors() {
    // Split hull edge 0-1 of the square's first triangle at new vertex 4.
    let mut triangles = vec![[0, 1, 2], [0, 2, 3]];
    let mut topology = TriangleTopology::new(&triangles, 5).unwrap();
    topology
        .replace_point_region(&mut triangles, &[0], &[[0, 4, 2], [4, 1, 2]], Some((0, 1, 4)))
        .unwrap();
    assert_eq!(triangles, vec![[0, 4, 2], [0, 2, 3], [4, 1, 2]]);
    assert_eq!(topology.neighbors.len(), 3);
    assert_eq!(topology.vertex_triangle(4), Some(2));
    assert_eq!(topology.vertex_triangle(0), Some(0));
    assert_eq!(topology.vertex_triangle(1), Some(2));
    assert_eq!(topology.vertex_triangle(3), Some(1));
    assert_eq!(topology.neighbor_across_vertices(&triangles, 0, 4, 2), Ok(Some(2)));
    assert_eq!(topology.neighbor_across_vertices(&triangles, 2, 2, 4), Ok(Some(0)));
    assert_eq!(topology.neighbor_across_vertices(&triangles, 0, 2, 0), Ok(Some(1)));
    assert_eq!(topology.neighbor_across_vertices(&triangles, 1, 0, 2), Ok(Some(0)));
    assert_eq!(topology.neighbor_across_vertices(&triangles, 2, 4, 1), Ok(None));
    assert_eq!(topology.neighbor_across_vertices(&triangles, 0, 0, 4), Ok(None));
}

#[test]
fn retained_topology_flips_a_diagonal_and_keeps_adjacency_reciprocal() {
    let mut triangles = vec![[0, 1, 2], [0, 2, 3]];
    let mut topology = TriangleTopology::new(&triangles, 4).unwrap();
    topology
        .replace_region(&mut triangles, &[0, 1], &[[0, 1, 3], [1, 2, 3]], None)
        .unwrap();
    assert_eq!(triangles, vec![[0, 1, 3], [1, 2, 3]]);
    assert_eq!(topology.neighbor_across_vertices(&triangles, 0, 1, 3), Ok(Some(1)));
    assert_eq!(topology.neighbor_across_vertices(&triangles, 1, 3, 1), Ok(Some(0)));
    assert_eq!(topology.vertex_triangle(0), Some(0));
    assert_eq!(topology.vertex_triangle(2), Some(1));
}

#[test]
fn edge_key_is_order_independent() {
    assert_eq!(EdgeKey::new(3, 1), EdgeKey::new(1, 3));
    assert!(EdgeKey::new(3, 1).contains(1));
    assert!(!EdgeKey::new(3, 1).contains(2));
}

#[test]
fn empty_triangle_list_has_no_neighbors() {
    assert_eq!(triangle_neighbors(&[]), Ok(vec![]));
}
