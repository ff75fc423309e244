use itertools::Itertools;
use johnson_clique::bitset::VertexSet;
use johnson_clique::graphs::Graph;
use johnson_clique::ostergard::Ostergard;

fn build_graph_form_mask(vertices_num: usize, mut mask: u32) -> Graph<usize> {
    let vertices: Vec<usize> = (0..vertices_num).collect();

    let mut neighbours: Vec<VertexSet> = Vec::new();
    for _ in 0..vertices_num {
        neighbours.push(VertexSet::new());
    }
    for vertex_1 in 0..vertices_num {
        for vertex_2 in (vertex_1 + 1)..vertices_num {
            if mask & 1 == 1 {
                neighbours[vertex_1].insert(vertex_2);
                neighbours[vertex_2].insert(vertex_1);
            }
            mask >>= 1;
        }
    }

    Graph {
        vertices,
        neighbours,
    }
}

fn compute_naive_max_clique_size<T>(graph: &Graph<T>) -> usize {
    let n = graph.vertices.len();

    let mut max_clique_size = 0;
    for mask in 0..(1 << n) {
        let clique: Vec<usize> = (0..n)
            .into_iter()
            .filter(|x| (mask >> x) & 1 == 1)
            .collect();
        if clique.len() <= max_clique_size {
            continue;
        }

        let mut found_antiedge = false;
        for (&vertex_1, &vertex_2) in clique.iter().tuple_combinations() {
            if !graph.neighbours[vertex_1].contains(vertex_2) {
                found_antiedge = true;
                break;
            }
        }
        if !found_antiedge {
            max_clique_size = clique.len();
        }
    }

    max_clique_size
}

#[test]
fn test_ostergard() {
    for n in 1..=5 {
        for mask in 0..(1 << n * (n - 1) / 2) {
            let graph = build_graph_form_mask(n, mask);

            let naive_clique_size = compute_naive_max_clique_size(&graph);

            let mut ostergard = Ostergard::new(&graph);
            ostergard.compute();

            assert_eq!(ostergard.max_clique_size, naive_clique_size);
        }
    }
}

fn graph_from_edges(vertices_num: usize, edges: &[(usize, usize)]) -> Graph<usize> {
    let vertices: Vec<usize> = (0..vertices_num).collect();
    let mut neighbours: Vec<VertexSet> = Vec::new();
    for _ in 0..vertices_num {
        neighbours.push(VertexSet::new());
    }
    for &(a, b) in edges {
        neighbours[a].insert(b);
        neighbours[b].insert(a);
    }
    Graph {
        vertices,
        neighbours,
    }
}

#[test]
fn zero_vertices() {
    let graph = graph_from_edges(0, &[]);
    let mut solver = Ostergard::new(&graph);
    solver.compute();
    assert_eq!(solver.max_clique_size, 0);
}

#[test]
fn single_vertex() {
    let graph = graph_from_edges(1, &[]);
    let mut solver = Ostergard::new(&graph);
    solver.compute();
    assert_eq!(solver.max_clique_size, 1);
}

#[test]
fn edgeless_graph_of_any_size() {
    for n in 1..=6 {
        let graph = graph_from_edges(n, &[]);
        let mut solver = Ostergard::new(&graph);
        solver.compute();
        assert_eq!(solver.max_clique_size, 1);
    }
}

#[test]
fn four_vertices_no_edges() {
    let graph = graph_from_edges(4, &[]);
    let mut solver = Ostergard::new(&graph);
    solver.compute();
    assert_eq!(solver.max_clique_size, 1);
}

#[test]
fn four_vertex_complete_graph() {
    let graph = graph_from_edges(4, &[(0, 1), (0, 2), (0, 3), (1, 2), (1, 3), (2, 3)]);
    let mut solver = Ostergard::new(&graph);
    solver.compute();
    assert_eq!(solver.max_clique_size, 4);
}

#[test]
fn five_cycle() {
    let graph = graph_from_edges(5, &[(0, 1), (1, 2), (2, 3), (3, 4), (4, 0)]);
    let mut solver = Ostergard::new(&graph);
    solver.compute();
    assert_eq!(solver.max_clique_size, 2);
}

#[test]
fn triangle_with_two_isolated_vertices() {
    let graph = graph_from_edges(5, &[(0, 1), (0, 2), (1, 2)]);
    let mut solver = Ostergard::new(&graph);
    solver.compute();
    assert_eq!(solver.max_clique_size, 3);
}

#[test]
fn suffix_bounds_are_monotone() {
    for n in 1..=5 {
        for mask in 0..(1 << n * (n - 1) / 2) {
            let graph = build_graph_form_mask(n, mask);
            let mut solver = Ostergard::new(&graph);
            solver.compute();
            let bounds = solver.suffix_bounds();
            assert_eq!(bounds.len(), n);
            for i in 0..(n - 1) {
                assert!(bounds[i] >= bounds[i + 1]);
            }
            assert_eq!(bounds[0], solver.max_clique_size);
        }
    }
}

#[test]
fn isomorphic_graphs_agree() {
    // A triangle with a pendant vertex, labelled two different ways.
    let g1 = graph_from_edges(4, &[(0, 1), (1, 2), (0, 2), (2, 3)]);
    let g2 = graph_from_edges(4, &[(3, 2), (2, 1), (3, 1), (1, 0)]);
    let mut s1 = Ostergard::new(&g1);
    s1.compute();
    let mut s2 = Ostergard::new(&g2);
    s2.compute();
    assert_eq!(s1.max_clique_size, s2.max_clique_size);
    assert_eq!(s1.max_clique_size, 3);
}

fn naive_max_clique_on_suffix<T>(graph: &Graph<T>, lo: usize) -> usize {
    let n = graph.vertices.len();
    let mut best = 0;
    for mask in 0..(1u32 << (n - lo)) {
        let clique: Vec<usize> = (lo..n)
            .filter(|x| (mask >> (x - lo)) & 1 == 1)
            .collect();
        if clique.len() <= best {
            continue;
        }
        let mut found_antiedge = false;
        for a in 0..clique.len() {
            for b in (a + 1)..clique.len() {
                if !graph.neighbours[clique[a]].contains(clique[b]) {
                    found_antiedge = true;
                }
            }
        }
        if !found_antiedge {
            best = clique.len();
        }
    }
    best
}

#[test]
fn suffix_bounds_match_suffix_brute_force() {
    for n in 1..=4 {
        for mask in 0..(1 << n * (n - 1) / 2) {
            let graph = build_graph_form_mask(n, mask);
            let mut solver = Ostergard::new(&graph);
            solver.compute();
            let bounds = solver.suffix_bounds();
            for i in 0..n {
                assert_eq!(bounds[i], naive_max_clique_on_suffix(&graph, i));
            }
        }
    }
}
