use gossip::Graph;

fn graph_with(vertices: &[u128], edges: &[(u128, u128)]) -> Graph {
    let mut g = Graph::new();
    for v in vertices {
        g.add_vertex(*v);
    }
    for (a, b) in edges {
        assert!(g.connect(*a, *b));
    }
    g
}

#[test]
fn empty_graph_is_not_spanning() {
    let mut g = Graph::new();
    assert!(!g.recompute_spanning());
    assert!(!g.is_spanning());
}

#[test]
fn single_vertex_is_spanning() {
    let mut g = graph_with(&[1], &[]);
    assert!(g.recompute_spanning());
    assert!(g.is_spanning());
}

#[test]
fn line_is_spanning() {
    let mut g = graph_with(&[1, 2, 3], &[(1, 2), (2, 3)]);
    assert!(g.recompute_spanning());
}

#[test]
fn star_is_spanning() {
    let mut g = graph_with(&[1, 2, 3, 4], &[(1, 2), (1, 3), (1, 4)]);
    assert!(g.recompute_spanning());
}

#[test]
fn cycle_is_not_spanning() {
    // connected, but one edge too many: a cycle, not a tree
    let mut g = graph_with(&[1, 2, 3], &[(1, 2), (2, 3), (3, 1)]);
    assert!(!g.recompute_spanning());
}

#[test]
fn disconnected_graph_is_not_spanning() {
    // the edge count matches |V| - 1, yet vertex 4 is unreachable
    let mut g = graph_with(&[1, 2, 3, 4], &[(1, 2), (2, 3), (1, 3)]);
    assert!(!g.recompute_spanning());
}

#[test]
fn too_few_edges_is_not_spanning() {
    let mut g = graph_with(&[1, 2, 3], &[(1, 2)]);
    assert!(!g.recompute_spanning());
}

#[test]
fn spanning_recovers_after_removal() {
    let mut g = graph_with(&[1, 2, 3], &[(1, 2), (2, 3), (3, 1)]);
    assert!(!g.recompute_spanning());
    assert!(g.disconnect(3, 1));
    assert!(g.recompute_spanning());
    // removing a middle vertex cuts its edges with it
    g.remove_vertex(2);
    assert!(!g.recompute_spanning());
}

#[test]
fn edges_are_symmetric() {
    let mut g = graph_with(&[1, 2], &[(1, 2)]);
    // the reverse orientation is the same edge
    assert!(!g.connect(2, 1));
    assert!(g.disconnect(2, 1));
    assert_eq!(g.edge_count(), 0);
}

#[test]
fn connect_needs_two_distinct_existing_vertices() {
    let mut g = graph_with(&[1, 2], &[]);
    assert!(!g.connect(1, 1));
    assert!(!g.connect(1, 9));
    assert!(g.connect(1, 2));
    assert_eq!(g.edge_count(), 1);
}

#[test]
fn remove_vertex_drops_incident_edges() {
    let mut g = graph_with(&[1, 2, 3], &[(1, 2), (2, 3)]);
    assert!(g.remove_vertex(2));
    assert_eq!(g.edge_count(), 0);
    assert_eq!(g.vertex_count(), 2);
    assert!(!g.remove_vertex(2));
}
