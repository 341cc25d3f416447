use graph_chains::chain_decomposition;
use graph_chains::Graph;
use graph_chains::GraphError;

fn ungraph(bound: usize, nodes: &[usize], edges: &[(usize, usize)]) -> Graph {
    let mut g = Graph::new(bound);
    for &n in nodes {
        g.add_node(n);
    }
    for &(a, b) in edges {
        g.add_edge(a, b);
        g.add_edge(b, a);
    }
    g
}

fn normalized_edges(chains: &Vec<Vec<(usize, usize)>>) -> Vec<(usize, usize)> {
    let mut out = Vec::new();
    for ch in chains {
        for &(a, b) in ch {
            out.push(if a <= b { (a, b) } else { (b, a) });
        }
    }
    out
}

#[test]
fn four_cycle_single_chain() {
    // undirected 4-cycle 1-2, 2-3, 3-4, 4-1 rooted at 1: one chain holding
    // every edge of the cycle
    let g = ungraph(5, &[1, 2, 3, 4], &[(1, 2), (2, 3), (3, 4), (4, 1)]);
    let chains = chain_decomposition(&g, Some(1)).unwrap();
    assert_eq!(chains.len(), 1);
    assert_eq!(chains[0].len(), 4);
    // the first chain from a root is a closed walk
    let first = chains[0][0];
    let last = chains[0][chains[0].len() - 1];
    assert_eq!(first.0, last.1);
    // consecutive edges share an endpoint
    for w in chains[0].windows(2) {
        assert_eq!(w[0].1, w[1].0);
    }
    // each cycle edge appears exactly once
    let mut es = normalized_edges(&chains);
    es.sort();
    assert_eq!(es, vec![(1, 2), (1, 4), (2, 3), (3, 4)]);
}

#[test]
fn path_has_no_chains() {
    // 1-2, 2-3 is a tree: no back edges, so no chain is emitted and both
    // edges are bridges
    let g = ungraph(4, &[1, 2, 3], &[(1, 2), (2, 3)]);
    let chains = chain_decomposition(&g, Some(1)).unwrap();
    assert!(chains.is_empty());
}

#[test]
fn forest_has_no_chains() {
    let g = ungraph(7, &[0, 1, 2, 3, 4, 5, 6], &[(0, 1), (0, 2), (3, 4), (5, 6)]);
    let chains = chain_decomposition(&g, None).unwrap();
    assert!(chains.is_empty());
}

#[test]
fn figure_eight_covers_all_edges() {
    // two triangles sharing node 0: every edge lands on exactly one of the
    // two chains
    let g = ungraph(
        5,
        &[0, 1, 2, 3, 4],
        &[(0, 1), (1, 2), (2, 0), (0, 3), (3, 4), (4, 0)],
    );
    let chains = chain_decomposition(&g, Some(0)).unwrap();
    assert_eq!(chains.len(), 2);
    let mut es = normalized_edges(&chains);
    es.sort();
    assert_eq!(es, vec![(0, 1), (0, 2), (0, 3), (0, 4), (1, 2), (3, 4)]);
}

#[test]
fn bridge_stays_off_chains() {
    // triangle 0-1-2 with node 3 hung on 2 by a bridge: the bridge is the
    // one edge on no chain
    let g = ungraph(4, &[0, 1, 2, 3], &[(0, 1), (1, 2), (2, 0), (2, 3)]);
    let chains = chain_decomposition(&g, Some(0)).unwrap();
    assert_eq!(chains.len(), 1);
    assert_eq!(chains[0].len(), 3);
    let es = normalized_edges(&chains);
    assert!(!es.contains(&(2, 3)));
}

#[test]
fn all_roots_cover_disconnected_components() {
    // two disjoint triangles, no explicit source: both cycles come out
    let g = ungraph(
        6,
        &[0, 1, 2, 3, 4, 5],
        &[(0, 1), (1, 2), (2, 0), (3, 4), (4, 5), (5, 3)],
    );
    let chains = chain_decomposition(&g, None).unwrap();
    assert_eq!(chains.len(), 2);
    let mut es = normalized_edges(&chains);
    es.sort();
    assert_eq!(es, vec![(0, 1), (0, 2), (1, 2), (3, 4), (3, 5), (4, 5)]);
}

#[test]
fn self_loop_forms_its_own_chain() {
    let mut g = Graph::new(2);
    g.add_node(0);
    g.add_node(1);
    // a self-loop occupies one adjacency slot, not two
    g.add_edge(0, 0);
    g.add_edge(0, 1);
    g.add_edge(1, 0);
    let chains = chain_decomposition(&g, Some(0)).unwrap();
    assert_eq!(chains, vec![vec![(0, 0)]]);
}

#[test]
fn parallel_tree_edges_make_no_chain() {
    // two parallel edges between 0 and 1: the second occurrence is the
    // tree edge seen again and is not treated as a back edge
    let g = ungraph(2, &[0, 1], &[(0, 1), (0, 1)]);
    let chains = chain_decomposition(&g, Some(0)).unwrap();
    assert!(chains.is_empty());
}

#[test]
fn out_of_bound_source_is_node_not_found() {
    let g = ungraph(3, &[0, 1], &[(0, 1)]);
    assert_eq!(chain_decomposition(&g, Some(7)), Err(GraphError::NodeNotFound));
}

#[test]
fn absent_source_is_node_not_found() {
    let g = ungraph(3, &[0, 1], &[(0, 1)]);
    assert_eq!(chain_decomposition(&g, Some(2)), Err(GraphError::NodeNotFound));
}

#[test]
fn dangling_edge_is_invalid_edge() {
    let g = Graph { present: vec![true], adj: vec![vec![5]], in_deg: vec![0] };
    assert_eq!(chain_decomposition(&g, Some(0)), Err(GraphError::InvalidEdge));
}
