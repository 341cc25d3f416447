use graph_chains::Graph;

#[test]
fn view_reports_bound_count_and_identifiers() {
    let mut g = Graph::new(5);
    g.add_node(1);
    g.add_node(3);
    assert_eq!(g.node_bound(), 5);
    assert_eq!(g.node_count(), 2);
    assert_eq!(g.node_identifiers(), vec![1, 3]);
}

#[test]
fn add_edge_records_row_and_in_degree() {
    let mut g = Graph::new(4);
    g.add_node(1);
    g.add_node(3);
    g.add_edge(1, 3);
    g.add_edge(1, 3);
    assert_eq!(g.adj[1], vec![3, 3]);
    assert_eq!(g.in_deg[3], 2);
    assert_eq!(g.in_deg[1], 0);
}

#[test]
fn empty_graph_has_no_identifiers() {
    let g = Graph::new(3);
    assert_eq!(g.node_count(), 0);
    assert!(g.node_identifiers().is_empty());
}
