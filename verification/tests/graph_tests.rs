use socnet::records::Adjacency;
use socnet::NetError;
use socnet::SimpleNetwork;

fn path_graph(n: u64) -> SimpleNetwork<u64> {
    let mut g: SimpleNetwork<u64> = SimpleNetwork::from_node_vec((0..n).collect());
    for i in 0..n.saturating_sub(1) {
        g.add_edge(i, i + 1).unwrap();
    }
    g
}

fn triangle(ids: [u64; 3], g: &mut SimpleNetwork<u64>) {
    g.add_edge(ids[0], ids[1]).unwrap();
    g.add_edge(ids[1], ids[2]).unwrap();
    g.add_edge(ids[0], ids[2]).unwrap();
}

#[test]
fn add_edge_counts_each_edge_twice() {
    let mut g: SimpleNetwork<u64> = SimpleNetwork::from_node_vec(vec![1, 2, 3]);
    assert_eq!(g.total_edges, 0);
    g.add_edge(1, 2).unwrap();
    assert_eq!(g.total_edges, 2);
    // repeated insertion changes nothing
    g.add_edge(2, 1).unwrap();
    assert_eq!(g.total_edges, 2);
    assert!(g.edge_between(1, 2));
    assert!(g.edge_between(2, 1));
    assert!(!g.edge_between(1, 3));
}

#[test]
fn add_edge_rejects_missing_node_and_self_loop() {
    let mut g: SimpleNetwork<u64> = SimpleNetwork::from_node_vec(vec![1, 2]);
    assert_eq!(g.add_edge(1, 9), Err(NetError::NodeNotFound));
    assert_eq!(g.add_edge(9, 1), Err(NetError::NodeNotFound));
    assert_eq!(g.add_edge(1, 1), Err(NetError::SelfLoop));
    assert_eq!(g.total_edges, 0);
}

#[test]
fn remove_edge_restores_counts() {
    let mut g: SimpleNetwork<u64> = SimpleNetwork::from_node_vec(vec![1, 2, 3]);
    g.add_edge(1, 2).unwrap();
    g.add_edge(2, 3).unwrap();
    assert_eq!(g.total_edges, 4);
    g.remove_edge(1, 2).unwrap();
    assert_eq!(g.total_edges, 2);
    assert!(!g.edge_between(1, 2));
    // removing an absent edge is a no-op
    g.remove_edge(1, 2).unwrap();
    assert_eq!(g.total_edges, 2);
    assert_eq!(g.remove_edge(1, 9), Err(NetError::NodeNotFound));
}

#[test]
fn sssp_on_path_graph() {
    let g = path_graph(4);
    let d = g.sssp(0);
    assert_eq!(d.len(), 4);
    assert_eq!(d[&0], 0);
    assert_eq!(d[&1], 1);
    assert_eq!(d[&2], 2);
    assert_eq!(d[&3], 3);
}

#[test]
fn sssp_omits_unreachable_nodes() {
    let mut g: SimpleNetwork<u64> = SimpleNetwork::from_node_vec(vec![0, 1, 2]);
    g.add_edge(0, 1).unwrap();
    let d = g.sssp(0);
    assert_eq!(d.len(), 2);
    assert!(!d.contains_key(&2));
}

#[test]
fn largest_component_of_two_triangles() {
    let mut g: SimpleNetwork<u64> = SimpleNetwork::from_node_vec((0..6).collect());
    triangle([0, 1, 2], &mut g);
    triangle([3, 4, 5], &mut g);
    let c = g.largest_component();
    assert_eq!(c.len(), 3);
    let first: Vec<u64> = vec![0, 1, 2];
    let second: Vec<u64> = vec![3, 4, 5];
    let is_first = first.iter().all(|x| c.contains(x));
    let is_second = second.iter().all(|x| c.contains(x));
    assert!(is_first || is_second);
}

#[test]
fn mgd_diameter_of_two_triangles() {
    let mut g: SimpleNetwork<u64> = SimpleNetwork::from_node_vec((0..6).collect());
    triangle([0, 1, 2], &mut g);
    triangle([3, 4, 5], &mut g);
    let (sum, diameter, size) = g.mgd_diameter();
    assert_eq!(size, 3);
    assert_eq!(diameter, 1);
    // 6 ordered pairs at distance 1 each; mgd = 6 / (3 * 2) = 1
    assert_eq!(sum, 6);
}

#[test]
fn mgd_diameter_of_path() {
    let g = path_graph(4);
    let (sum, diameter, size) = g.mgd_diameter();
    assert_eq!(size, 4);
    assert_eq!(diameter, 3);
    // ordered pair distances: 6*1 + 4*2 + 2*3 = 20
    assert_eq!(sum, 20);
}

#[test]
fn cluster_coeff_triangle_is_one() {
    let mut g: SimpleNetwork<u64> = SimpleNetwork::from_node_vec(vec![0, 1, 2]);
    triangle([0, 1, 2], &mut g);
    let (triangles, triads) = g.cluster_coeff();
    assert_eq!(triangles, 6);
    assert_eq!(triads, 6);
}

#[test]
fn cluster_coeff_star_is_zero() {
    let mut g: SimpleNetwork<u64> = SimpleNetwork::from_node_vec(vec![0, 1, 2, 3]);
    g.add_edge(0, 1).unwrap();
    g.add_edge(0, 2).unwrap();
    g.add_edge(0, 3).unwrap();
    let (triangles, triads) = g.cluster_coeff();
    assert_eq!(triangles, 0);
    assert_eq!(triads, 6);
}

#[test]
fn double_edge_swap_preserves_degrees() {
    let mut g: SimpleNetwork<u64> = SimpleNetwork::from_node_vec(vec![0, 1, 2, 3]);
    g.add_edge(0, 1).unwrap();
    g.add_edge(2, 3).unwrap();
    let degrees_before: Vec<usize> = (0..4).map(|i| g.get_adjs(i).unwrap().len()).collect();
    g.double_edge_swap().unwrap();
    let degrees_after: Vec<usize> = (0..4).map(|i| g.get_adjs(i).unwrap().len()).collect();
    assert_eq!(degrees_before, degrees_after);
    assert_eq!(g.total_edges, 4);
    // still a simple graph: no self loops, symmetric adjacency
    for i in 0..4u64 {
        assert!(!g.edge_between(i, i));
        for j in 0..4u64 {
            assert_eq!(g.edge_between(i, j), g.edge_between(j, i));
        }
    }
}

#[test]
fn double_edge_swap_fails_on_triangle() {
    let mut g: SimpleNetwork<u64> = SimpleNetwork::from_node_vec(vec![0, 1, 2]);
    triangle([0, 1, 2], &mut g);
    // every pair of edges shares a node or would duplicate an edge
    assert_eq!(g.double_edge_swap(), Err(NetError::NoValidSwapFound));
    assert_eq!(g.total_edges, 6);
}

#[test]
fn rewire_edge_moves_to_the_only_candidate() {
    let mut g: SimpleNetwork<u64> = SimpleNetwork::from_node_vec(vec![0, 1, 2]);
    g.add_edge(0, 1).unwrap();
    g.rewire_edge(0, 1).unwrap();
    assert!(g.edge_between(0, 2));
    assert!(!g.edge_between(0, 1));
    assert_eq!(g.total_edges, 2);
}

#[test]
fn rewire_edge_error_cases() {
    let mut g: SimpleNetwork<u64> = SimpleNetwork::from_node_vec(vec![0, 1]);
    g.add_edge(0, 1).unwrap();
    // the only other node is the edge's own source
    assert_eq!(g.rewire_edge(0, 1), Err(NetError::NoValidSwapFound));
    assert_eq!(g.rewire_edge(0, 9), Err(NetError::NodeNotFound));
    // absent edge: nothing to do
    let mut h: SimpleNetwork<u64> = SimpleNetwork::from_node_vec(vec![0, 1, 2]);
    h.add_edge(0, 1).unwrap();
    h.rewire_edge(0, 2).unwrap();
    assert!(h.edge_between(0, 1));
    assert_eq!(h.total_edges, 2);
}

#[test]
fn from_adj_list_builds_declared_graph() {
    let records = vec![
        Adjacency {
            node_id: 0u64,
            name: "a".to_string(),
            id_again: 0u64,
            degree: 1,
            edges: vec![1u64],
        },
        Adjacency {
            node_id: 1u64,
            name: "b".to_string(),
            id_again: 1u64,
            degree: 2,
            edges: vec![0u64, 2u64],
        },
        Adjacency {
            node_id: 2u64,
            name: "c".to_string(),
            id_again: 2u64,
            degree: 1,
            edges: vec![1u64],
        },
    ];
    let g = SimpleNetwork::from_adj_list(records);
    assert_eq!(g.total_edges, 4);
    assert!(g.edge_between(0, 1));
    assert!(g.edge_between(1, 2));
    assert!(!g.edge_between(0, 2));
    let d = g.sssp(0u64);
    assert_eq!(d[&2], 2);
}

#[test]
fn sssp_verbose_reconstructs_paths() {
    let g = path_graph(4);
    let paths = g.sssp_verbose(0);
    assert_eq!(paths.len(), 4);
    assert_eq!(paths[&0], Vec::<u64>::new());
    assert_eq!(paths[&1], vec![0]);
    assert_eq!(paths[&2], vec![0, 1]);
    assert_eq!(paths[&3], vec![0, 1, 2]);
}

#[test]
fn betweenness_centrality_of_path() {
    let g = path_graph(3);
    let b = g.betweenness_centrality();
    assert_eq!(b.len(), 3);
    assert_eq!(b[&0], 2);
    assert_eq!(b[&1], 4);
    assert_eq!(b[&2], 2);
}

#[test]
fn apsp_marks_unreachable_pairs() {
    let mut g: SimpleNetwork<u64> = SimpleNetwork::from_node_vec(vec![0, 1, 2]);
    g.add_edge(0, 1).unwrap();
    let m = g.apsp();
    assert_eq!(m[0][0], 0);
    assert_eq!(m[0][1], 1);
    assert_eq!(m[1][0], 1);
    assert_eq!(m[0][2], -1);
    assert_eq!(m[2][1], -1);
    assert_eq!(m[2][2], 0);
}

#[test]
fn edgelist_lists_both_directions() {
    let mut g: SimpleNetwork<u64> = SimpleNetwork::from_node_vec(vec![0, 1]);
    g.add_edge(0, 1).unwrap();
    let e = g.edgelist();
    assert_eq!(e.len(), 2);
    assert!(e.contains(&(0, 1)));
    assert!(e.contains(&(1, 0)));
}

#[test]
fn get_nonedges_of_path() {
    let g = path_graph(3);
    let p = g.get_nonedges();
    assert_eq!(p, vec![(0, 2)]);
}

#[test]
fn get_adjs_reports_neighbors() {
    let g = path_graph(3);
    let n1 = g.get_adjs(1).unwrap();
    assert_eq!(n1.len(), 2);
    assert!(n1.contains(&0));
    assert!(n1.contains(&2));
    assert!(g.get_adjs(9).is_none());
}

#[test]
fn sum_square_degrees_of_triangle() {
    let mut g: SimpleNetwork<u64> = SimpleNetwork::from_node_vec(vec![0, 1, 2]);
    triangle([0, 1, 2], &mut g);
    assert_eq!(g.sum_square_degrees(), 12);
}

#[test]
fn edge_count_matches_adjacency_sizes_after_mutations() {
    let mut g: SimpleNetwork<u64> = SimpleNetwork::from_node_vec((0..5).collect());
    g.add_edge(0, 1).unwrap();
    g.add_edge(1, 2).unwrap();
    g.add_edge(2, 3).unwrap();
    g.add_edge(3, 4).unwrap();
    g.remove_edge(1, 2).unwrap();
    let _ = g.double_edge_swap();
    // the count invariant: total_edges equals the sum of the adjacency sizes
    let size_sum: usize = (0..5).map(|i| g.get_adjs(i).unwrap().len()).collect::<Vec<_>>().iter().sum();
    assert_eq!(g.total_edges as usize, size_sum);
    // symmetry, no self-loops, no duplicate entries
    for i in 0..5u64 {
        let adj = g.get_adjs(i).unwrap();
        assert!(!adj.contains(&i));
        let mut sorted = adj.clone();
        sorted.sort();
        sorted.dedup();
        assert_eq!(sorted.len(), adj.len());
        for &j in &adj {
            assert!(g.get_adjs(j).unwrap().contains(&i));
        }
    }
}

#[test]
fn empty_and_singleton_graphs() {
    let empty: SimpleNetwork<u64> = SimpleNetwork::from_node_vec(Vec::new());
    assert_eq!(empty.total_edges, 0);
    assert_eq!(empty.largest_component().len(), 0);
    assert_eq!(empty.mgd_diameter(), (0, 0, 0));
    let (triangles, triads) = empty.cluster_coeff();
    assert_eq!((triangles, triads), (0, 0));

    let one: SimpleNetwork<u64> = SimpleNetwork::from_node_vec(vec![7]);
    let d = one.sssp(7);
    assert_eq!(d.len(), 1);
    assert_eq!(d[&7], 0);
    let (sum, diameter, size) = one.mgd_diameter();
    assert_eq!((sum, diameter, size), (0, 0, 1));
    assert_eq!(one.largest_component().len(), 1);
    assert_eq!(one.get_nonedges(), Vec::<(u64, u64)>::new());
}
