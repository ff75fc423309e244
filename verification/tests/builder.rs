use johnson_clique::graphs::build_johnson_graph_complement;
use johnson_clique::ostergard::Ostergard;

#[test]
fn johnson_2_1_0_vertices_and_edges() {
    let graph = build_johnson_graph_complement(2, 1, 0, Vec::new());
    assert_eq!(graph.vertices.len(), 4);
    assert_eq!(graph.vertices[0], vec![1i8, 0]);
    assert_eq!(graph.vertices[1], vec![-1i8, 0]);
    assert_eq!(graph.vertices[2], vec![0i8, 1]);
    assert_eq!(graph.vertices[3], vec![0i8, -1]);
    // Two vertices are adjacent exactly when their inner product is not 0.
    assert!(graph.neighbours[0].contains(1));
    assert!(graph.neighbours[1].contains(0));
    assert!(graph.neighbours[2].contains(3));
    assert!(!graph.neighbours[0].contains(2));
    assert!(!graph.neighbours[0].contains(3));
    assert!(!graph.neighbours[1].contains(2));
    assert!(!graph.neighbours[0].contains(0));
    let mut solver = Ostergard::new(&graph);
    solver.compute();
    assert_eq!(solver.max_clique_size, 2);
}

#[test]
fn johnson_2_1_minus_1_is_a_four_cycle() {
    let graph = build_johnson_graph_complement(2, 1, -1, Vec::new());
    assert_eq!(graph.vertices.len(), 4);
    // The pairs with inner product -1 lose their edge; the rest keep it.
    assert!(!graph.neighbours[0].contains(1));
    assert!(!graph.neighbours[2].contains(3));
    assert!(graph.neighbours[0].contains(2));
    assert!(graph.neighbours[0].contains(3));
    assert!(graph.neighbours[1].contains(2));
    assert!(graph.neighbours[1].contains(3));
    let mut solver = Ostergard::new(&graph);
    solver.compute();
    assert_eq!(solver.max_clique_size, 2);
}

#[test]
fn johnson_4_2_0_vertex_count_and_supports() {
    let graph = build_johnson_graph_complement(4, 2, 0, Vec::new());
    // C(4, 2) supports, each with 2^2 sign patterns.
    assert_eq!(graph.vertices.len(), 24);
    for vertex in graph.vertices.iter() {
        assert_eq!(vertex.len(), 4);
        let nonzero = vertex.iter().filter(|&&x| x != 0).count();
        assert_eq!(nonzero, 2);
    }
}

#[test]
fn johnson_fixed_vertex_isolates_its_neighbours() {
    let graph = build_johnson_graph_complement(2, 1, 0, vec![0]);
    assert_eq!(graph.vertices.len(), 4);
    // Vertices 2 and 3 meet the fixed vertex at the threshold: every edge of
    // theirs is excluded.
    for other in 0..4 {
        assert!(!graph.neighbours[2].contains(other));
        assert!(!graph.neighbours[3].contains(other));
    }
    assert!(graph.neighbours[0].contains(1));
    assert!(graph.neighbours[1].contains(0));
    let mut solver = Ostergard::new(&graph);
    solver.compute();
    assert_eq!(solver.max_clique_size, 2);
}

#[test]
fn johnson_k_zero_single_vertex() {
    let graph = build_johnson_graph_complement(3, 0, 5, Vec::new());
    assert_eq!(graph.vertices.len(), 1);
    assert_eq!(graph.vertices[0], vec![0i8, 0, 0]);
    let mut solver = Ostergard::new(&graph);
    solver.compute();
    assert_eq!(solver.max_clique_size, 1);
}
