use socnet::node::AttrNode;
use socnet::partition::apply_move;
use socnet::partition::compute_mixing_matrix;
use socnet::partition::group_degrees;
use socnet::partition::random_partition;
use socnet::partition::unfreeze_all;
use socnet::partition::unfrozen_moves;
use socnet::records::Edge;
use socnet::statistic::dp_scores;
use socnet::statistic::infer_attrs;
use socnet::statistic::jaccard_scores;
use socnet::statistic::remove_attrs;
use socnet::statistic::remove_edges;
use socnet::statistic::roc;
use socnet::statistic::sp_scores;
use socnet::SimpleNetwork;

fn an(id: u64, attr: i32) -> AttrNode {
    AttrNode { node_id: id, attr }
}

fn attr_path(attrs: &[i32]) -> SimpleNetwork<AttrNode> {
    let nodes: Vec<AttrNode> = attrs
        .iter()
        .enumerate()
        .map(|(i, &a)| an(i as u64, a))
        .collect();
    let mut g = SimpleNetwork::from_node_vec(nodes.clone());
    for w in 0..attrs.len().saturating_sub(1) {
        g.add_edge(nodes[w], nodes[w + 1]).unwrap();
    }
    g
}

#[test]
fn roc_counts_accumulate_from_origin() {
    let (curve, t, f) = roc(vec![true, false, true]);
    assert_eq!(curve, vec![(0, 0), (1, 0), (1, 1), (2, 1)]);
    assert_eq!(t, 2);
    assert_eq!(f, 1);
    // both coordinates are non-decreasing
    for w in curve.windows(2) {
        assert!(w[0].0 <= w[1].0);
        assert!(w[0].1 <= w[1].1);
    }
}

#[test]
fn roc_of_empty_ranking() {
    let (curve, t, f) = roc(Vec::new());
    assert_eq!(curve, vec![(0, 0)]);
    assert_eq!(t, 0);
    assert_eq!(f, 0);
}

#[test]
fn jaccard_scores_of_path() {
    // path 0-1-2-3: nonedges (0,2), (0,3), (1,3)
    let g = attr_path(&[1, 1, 1, 1]);
    let scores = jaccard_scores(g);
    assert_eq!(scores.len(), 3);
    for &((u, v), (inter, union)) in &scores {
        assert!(inter <= union);
        match (u, v) {
            (0, 2) => assert_eq!((inter, union), (1, 2)),
            (0, 3) => assert_eq!((inter, union), (0, 2)),
            (1, 3) => assert_eq!((inter, union), (1, 2)),
            _ => panic!("unexpected pair"),
        }
    }
}

#[test]
fn dp_scores_of_path() {
    let g = attr_path(&[1, 1, 1, 1]);
    let scores = dp_scores(g);
    assert_eq!(scores.len(), 3);
    for &((u, v), s) in &scores {
        match (u, v) {
            (0, 2) => assert_eq!(s, 2),
            (0, 3) => assert_eq!(s, 1),
            (1, 3) => assert_eq!(s, 2),
            _ => panic!("unexpected pair"),
        }
    }
}

#[test]
fn sp_scores_of_path_and_disconnected() {
    let mut g = attr_path(&[1, 1, 1, 1]);
    // break the path into 0-1-2 and 3
    let n2 = an(2, 1);
    let n3 = an(3, 1);
    g.remove_edge(n2, n3).unwrap();
    let scores = sp_scores(g);
    // nonedges now: (0,2), (0,3), (1,3), (2,3)
    assert_eq!(scores.len(), 4);
    for &((u, v), d) in &scores {
        match (u, v) {
            (0, 2) => assert_eq!(d, 2),
            (0, 3) => assert_eq!(d, -1),
            (1, 3) => assert_eq!(d, -1),
            (2, 3) => assert_eq!(d, -1),
            _ => panic!("unexpected pair"),
        }
    }
}

#[test]
fn remove_attrs_extremes() {
    let nodes = vec![an(0, 4), an(1, 5), an(2, 6)];
    let all = remove_attrs(nodes.clone(), 3);
    assert_eq!(all, nodes);
    let none = remove_attrs(nodes.clone(), 0);
    assert_eq!(none, vec![an(0, -1), an(1, -1), an(2, -1)]);
    let some = remove_attrs(nodes.clone(), 2);
    assert_eq!(some.len(), 3);
    let kept = some.iter().filter(|n| n.attr != -1).count();
    assert_eq!(kept, 2);
    for (a, b) in some.iter().zip(nodes.iter()) {
        assert_eq!(a.node_id, b.node_id);
        assert!(a.attr == b.attr || a.attr == -1);
    }
}

#[test]
fn remove_edges_keeps_a_subset() {
    let edges = vec![
        Edge { from: 0, to: 1 },
        Edge { from: 1, to: 2 },
        Edge { from: 2, to: 3 },
    ];
    let all = remove_edges(edges.clone(), 3);
    assert_eq!(all, edges);
    let none = remove_edges(edges.clone(), 0);
    assert!(none.is_empty());
    let two = remove_edges(edges.clone(), 2);
    assert_eq!(two.len(), 2);
    for e in &two {
        assert!(edges.contains(e));
    }
    assert_ne!(two[0], two[1]);
}

#[test]
fn infer_attrs_majority_vote() {
    // star: center 0 redacted, leaves labeled 5, 5, 9
    let nodes = vec![an(0, -1), an(1, 5), an(2, 5), an(3, 9)];
    let mut g = SimpleNetwork::from_node_vec(nodes.clone());
    g.add_edge(nodes[0], nodes[1]).unwrap();
    g.add_edge(nodes[0], nodes[2]).unwrap();
    g.add_edge(nodes[0], nodes[3]).unwrap();
    let out = infer_attrs(g, vec![7]);
    assert_eq!(out.len(), 4);
    assert_eq!(out[0].attr, 5);
    // labeled nodes are untouched
    assert_eq!(out[1], nodes[1]);
    assert_eq!(out[2], nodes[2]);
    assert_eq!(out[3], nodes[3]);
}

#[test]
fn infer_attrs_tie_and_baseline() {
    // node 0 redacted with neighbors labeled 5 and 6; node 3 isolated and
    // redacted, so it draws from the baseline
    let nodes = vec![an(0, -1), an(1, 5), an(2, 6), an(3, -1)];
    let mut g = SimpleNetwork::from_node_vec(nodes.clone());
    g.add_edge(nodes[0], nodes[1]).unwrap();
    g.add_edge(nodes[0], nodes[2]).unwrap();
    let out = infer_attrs(g, vec![7]);
    assert!(out[0].attr == 5 || out[0].attr == 6);
    assert_eq!(out[3].attr, 7);
}

#[test]
fn mixing_matrix_of_triangle() {
    let mut g: SimpleNetwork<u64> = SimpleNetwork::from_node_vec(vec![0, 1, 2]);
    g.add_edge(0u64, 1u64).unwrap();
    g.add_edge(1u64, 2u64).unwrap();
    g.add_edge(0u64, 2u64).unwrap();
    // nodes 0 and 1 in group 0, node 2 in group 1
    let partition = vec![(0usize, false), (0usize, false), (1usize, false)];
    let m = compute_mixing_matrix(&g, 2, &partition);
    assert_eq!(m, vec![vec![2, 2], vec![2, 0]]);
    let deg = group_degrees(&m);
    assert_eq!(deg, vec![4, 2]);
}

#[test]
fn partition_phase_bookkeeping() {
    let p0 = random_partition(5, 3);
    assert_eq!(p0.len(), 5);
    for &(g, frozen) in &p0 {
        assert!(g < 3);
        assert!(!frozen);
    }
    let mut p = vec![(0usize, false), (1usize, true)];
    let moves = unfrozen_moves(&p, 2);
    // only node 0 is unfrozen, and only group 1 differs from its own
    assert_eq!(moves, vec![(0, 1)]);
    apply_move(&mut p, 0, 1);
    assert_eq!(p[0], (1, true));
    unfreeze_all(&mut p);
    assert_eq!(p, vec![(1, false), (1, false)]);
}
