use graph_chains::lazy_layers;
use graph_chains::Graph;
use graph_chains::GraphError;

fn digraph(bound: usize, nodes: &[usize], edges: &[(usize, usize)]) -> Graph {
    let mut g = Graph::new(bound);
    for &n in nodes {
        g.add_node(n);
    }
    for &(a, b) in edges {
        g.add_edge(a, b);
    }
    g
}

#[test]
fn diamond_layers() {
    // directed edges A->B, A->C, B->D, C->D with A=0, B=1, C=2, D=3 and
    // first layer [A]: first advance holds B and C once each, the second
    // holds D, the third is the exhausted signal
    let g = digraph(4, &[0, 1, 2, 3], &[(0, 1), (0, 2), (1, 3), (2, 3)]);
    let mut it = lazy_layers(&g, vec![0]).unwrap();
    let l1 = it.advance(&g).unwrap().unwrap();
    assert_eq!(l1.len(), 2);
    assert!(l1.contains(&1));
    assert!(l1.contains(&2));
    assert_eq!(it.advance(&g).unwrap(), Some(vec![3]));
    assert_eq!(it.advance(&g).unwrap(), None);
    // the exhausted state is terminal
    assert_eq!(it.advance(&g).unwrap(), None);
}

#[test]
fn first_layer_is_never_yielded() {
    let g = digraph(3, &[0, 1, 2], &[(0, 1), (1, 2)]);
    let mut it = lazy_layers(&g, vec![0]).unwrap();
    let mut seen = Vec::new();
    while let Some(layer) = it.advance(&g).unwrap() {
        seen.extend(layer);
    }
    assert!(!seen.contains(&0));
    assert_eq!(seen, vec![1, 2]);
}

#[test]
fn layering_partitions_reachable_nodes() {
    // 0 -> {1,2} -> 3 -> 4: each reachable node appears in exactly the
    // layer of its discharge depth
    let g = digraph(5, &[0, 1, 2, 3, 4], &[(0, 1), (0, 2), (1, 3), (2, 3), (3, 4)]);
    let mut it = lazy_layers(&g, vec![0]).unwrap();
    let mut all = vec![0];
    let mut layers = Vec::new();
    while let Some(layer) = it.advance(&g).unwrap() {
        all.extend(layer.iter().copied());
        layers.push(layer);
    }
    assert_eq!(layers.len(), 3);
    assert_eq!(layers[1], vec![3]);
    assert_eq!(layers[2], vec![4]);
    all.sort();
    assert_eq!(all, vec![0, 1, 2, 3, 4]);
}

#[test]
fn undischarged_predecessor_blocks_emission() {
    // 1 has a second predecessor the frontier never discharges, so 1 is
    // silently never emitted
    let g = digraph(3, &[0, 1, 2], &[(0, 1), (2, 1)]);
    let mut it = lazy_layers(&g, vec![0]).unwrap();
    assert_eq!(it.advance(&g).unwrap(), None);
}

#[test]
fn absent_frontier_member_is_node_not_found() {
    let g = digraph(3, &[0, 1], &[(0, 1)]);
    assert!(matches!(lazy_layers(&g, vec![0, 2]), Err(GraphError::NodeNotFound)));
    assert!(matches!(lazy_layers(&g, vec![9]), Err(GraphError::NodeNotFound)));
}

#[test]
fn changed_bound_is_invalid_state() {
    let g1 = digraph(2, &[0, 1], &[(0, 1)]);
    let mut it = lazy_layers(&g1, vec![0]).unwrap();
    let g2 = Graph::new(3);
    assert!(matches!(it.advance(&g2), Err(GraphError::InvalidState)));
}

#[test]
fn dangling_edge_is_invalid_edge_on_advance() {
    let g = Graph { present: vec![true], adj: vec![vec![7]], in_deg: vec![0] };
    let mut it = lazy_layers(&g, vec![0]).unwrap();
    assert!(matches!(it.advance(&g), Err(GraphError::InvalidEdge)));
}
