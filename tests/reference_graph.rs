use std::collections::{BTreeSet, HashMap};

use congressional_graph::disjoint::DisjointSets;
use congressional_graph::episode::{slug_from_num_str, sort_episodes, Episode};
use congressional_graph::graph::analyze;
use congressional_graph::network::{networks, Network, Subnetworks};
use congressional_graph::reduce::{adjacency_reduced_edges, GraphError};

use daggy::petgraph::adj::List;
use daggy::petgraph::visit::{EdgeRef, IntoEdgeReferences};
use daggy::{Dag, NodeIndex};

fn links(spec: &[(usize, &[usize])]) -> Vec<(usize, Vec<usize>)> {
    spec.iter().map(|(n, refs)| (*n, refs.to_vec())).collect()
}

fn edge_set(edges: &[(usize, usize)]) -> BTreeSet<(usize, usize)> {
    edges.iter().copied().collect()
}

fn node_set(net: &Network) -> BTreeSet<usize> {
    net.nodes.iter().copied().collect()
}

fn closure(edges: &[(usize, usize)]) -> BTreeSet<(usize, usize)> {
    let mut reach: BTreeSet<(usize, usize)> = edge_set(edges);
    loop {
        let mut grown = reach.clone();
        for &(a, b) in &reach {
            for &(c, d) in &reach {
                if b == c {
                    grown.insert((a, d));
                }
            }
        }
        if grown.len() == reach.len() {
            return reach;
        }
        reach = grown;
    }
}

fn all_references(links: &[(usize, Vec<usize>)]) -> Vec<(usize, usize)> {
    links
        .iter()
        .flat_map(|(n, refs)| refs.iter().map(move |r| (*r, *n)))
        .collect()
}

/// The same reduction computed with daggy and petgraph's transitive reduction.
fn reduced_by_petgraph(sorted: &[(usize, Vec<usize>)]) -> BTreeSet<(usize, usize)> {
    let mut dag = Dag::<(), usize, usize>::new();
    let mut index: HashMap<usize, NodeIndex<usize>> = HashMap::new();
    for (number, refs) in sorted {
        let node = dag.add_node(());
        index.insert(*number, node);
        for r in refs {
            dag.add_edge(index[r], node, 1).unwrap();
        }
    }
    let topo: Vec<NodeIndex<usize>> = sorted.iter().map(|(n, _)| index[n]).collect();
    let (intermediate, _) =
        daggy::petgraph::algo::tred::dag_to_toposorted_adjacency_list::<_, usize>(&dag, &topo);
    let (tred, _): (List<(), usize>, List<(), usize>) =
        daggy::petgraph::algo::tred::dag_transitive_reduction_closure(&intermediate);
    let numbers: HashMap<NodeIndex<usize>, usize> = index.into_iter().map(|(k, v)| (v, k)).collect();
    tred.edge_references()
        .map(|e| (numbers[&NodeIndex::new(e.source())], numbers[&NodeIndex::new(e.target())]))
        .collect()
}

fn episode(number: usize) -> Episode {
    Episode {
        slug: format!("CD-{}", number),
        number,
        published_at: 1_600_000_000_000 + number as i64,
        title: format!("Episode {}", number),
        preview: None,
    }
}

#[test]
fn scenario_two_children_of_one_episode() {
    let input = links(&[(1, &[]), (2, &[1]), (3, &[1])]);
    let edges = adjacency_reduced_edges(&input).unwrap();
    assert_eq!(edge_set(&edges), edge_set(&[(1, 2), (1, 3)]));
    let nets = networks(edges);
    assert_eq!(nets.len(), 1);
    assert_eq!(node_set(&nets[0]), [1, 2, 3].into_iter().collect());
    assert_eq!(edge_set(&nets[0].edges), edge_set(&[(1, 2), (1, 3)]));
}

#[test]
fn scenario_implied_edge_is_dropped() {
    let input = links(&[(1, &[]), (2, &[1]), (3, &[1, 2])]);
    let edges = adjacency_reduced_edges(&input).unwrap();
    assert_eq!(edge_set(&edges), edge_set(&[(1, 2), (2, 3)]));
    let nets = networks(edges);
    assert_eq!(nets.len(), 1);
    assert_eq!(node_set(&nets[0]), [1, 2, 3].into_iter().collect());
}

#[test]
fn scenario_two_separate_networks() {
    let input = links(&[(1, &[]), (2, &[1]), (3, &[]), (4, &[3])]);
    let edges = adjacency_reduced_edges(&input).unwrap();
    assert_eq!(edge_set(&edges), edge_set(&[(1, 2), (3, 4)]));
    let nets = networks(edges);
    assert_eq!(nets.len(), 2);
    let mut found: Vec<(BTreeSet<usize>, BTreeSet<(usize, usize)>)> =
        nets.iter().map(|n| (node_set(n), edge_set(&n.edges))).collect();
    found.sort();
    assert_eq!(
        found,
        vec![
            ([1, 2].into_iter().collect(), edge_set(&[(1, 2)])),
            ([3, 4].into_iter().collect(), edge_set(&[(3, 4)])),
        ]
    );
}

#[test]
fn scenario_reference_to_later_episode_fails() {
    let input = links(&[(1, &[]), (2, &[5]), (5, &[])]);
    assert_eq!(
        adjacency_reduced_edges(&input),
        Err(GraphError::OutOfOrderReference { episode: 2, reference: 5 })
    );
    let result = analyze(vec![episode(1), episode(2), episode(5)], input);
    assert!(matches!(
        result,
        Err(GraphError::OutOfOrderReference { episode: 2, reference: 5 })
    ));
}

#[test]
fn reference_to_unknown_episode_fails() {
    let input = links(&[(1, &[]), (2, &[1]), (3, &[2, 9])]);
    assert_eq!(
        adjacency_reduced_edges(&input),
        Err(GraphError::OutOfOrderReference { episode: 3, reference: 9 })
    );
}

#[test]
fn no_references_leave_nothing() {
    let input = links(&[(1, &[]), (2, &[]), (3, &[])]);
    let edges = adjacency_reduced_edges(&input).unwrap();
    assert!(edges.is_empty());
    assert!(networks(edges).is_empty());
}

#[test]
fn empty_input_leaves_nothing() {
    let edges = adjacency_reduced_edges(&Vec::new()).unwrap();
    assert!(edges.is_empty());
    assert!(networks(edges).is_empty());
}

#[test]
fn reduction_keeps_reach_and_is_minimal() {
    let input = links(&[
        (1, &[]),
        (2, &[1]),
        (3, &[1, 2]),
        (4, &[1, 3]),
        (5, &[2]),
        (6, &[5, 4, 1]),
        (7, &[]),
        (8, &[7, 6]),
    ]);
    let edges = adjacency_reduced_edges(&input).unwrap();
    assert_eq!(closure(&edges), closure(&all_references(&input)));
    for (i, _) in edges.iter().enumerate() {
        let mut rest = edges.clone();
        let removed = rest.remove(i);
        assert!(!closure(&rest).contains(&removed));
    }
    assert_eq!(
        edge_set(&edges),
        edge_set(&[(1, 2), (2, 3), (3, 4), (2, 5), (5, 6), (4, 6), (7, 8), (6, 8)])
    );
}

#[test]
fn reduction_agrees_with_petgraph() {
    let input = links(&[
        (10, &[]),
        (11, &[10]),
        (12, &[10, 11]),
        (13, &[12, 10]),
        (14, &[]),
        (15, &[14, 13, 11]),
        (16, &[15, 10, 14]),
        (17, &[16, 12]),
    ]);
    let edges = adjacency_reduced_edges(&input).unwrap();
    assert_eq!(edge_set(&edges), reduced_by_petgraph(&input));
}

#[test]
fn duplicate_reference_counts_once() {
    let input = links(&[(1, &[]), (2, &[1, 1])]);
    let edges = adjacency_reduced_edges(&input).unwrap();
    assert_eq!(edges, vec![(1, 2)]);
}

#[test]
fn same_input_same_result() {
    let input = links(&[(1, &[]), (2, &[1]), (3, &[1, 2]), (4, &[]), (5, &[4])]);
    let first = adjacency_reduced_edges(&input).unwrap();
    let second = adjacency_reduced_edges(&input).unwrap();
    assert_eq!(first, second);
    let a: Vec<_> = networks(first).iter().map(|n| (node_set(n), edge_set(&n.edges))).collect();
    let b: Vec<_> = networks(second).iter().map(|n| (node_set(n), edge_set(&n.edges))).collect();
    assert_eq!(a, b);
}

#[test]
fn bridging_edge_merges_two_networks() {
    // (1,2) and (3,4) start apart; (2,4) joins them, then (5,3) hangs on.
    let edges = vec![(1, 2), (3, 4), (2, 4), (5, 3), (6, 7)];
    let nets = networks(edges.clone());
    assert_eq!(nets.len(), 2);
    let mut all: BTreeSet<(usize, usize)> = BTreeSet::new();
    for n in &nets {
        all.extend(n.edges.iter().copied());
    }
    assert_eq!(all, edge_set(&edges));
    let big = nets.iter().find(|n| n.nodes.contains(&1)).unwrap();
    assert_eq!(node_set(big), [1, 2, 3, 4, 5].into_iter().collect());
    let small = nets.iter().find(|n| n.nodes.contains(&6)).unwrap();
    assert_eq!(node_set(small), [6, 7].into_iter().collect());
}

#[test]
fn partition_covers_every_edge_once() {
    let input = links(&[
        (1, &[]),
        (2, &[1]),
        (3, &[]),
        (4, &[3, 2]),
        (5, &[]),
        (6, &[5]),
        (7, &[6, 1]),
        (8, &[]),
    ]);
    let edges = adjacency_reduced_edges(&input).unwrap();
    let nets = networks(edges.clone());
    let mut seen: Vec<(usize, usize)> = Vec::new();
    for n in &nets {
        seen.extend(n.edges.iter().copied());
    }
    seen.sort();
    let mut expected = edges.clone();
    expected.sort();
    assert_eq!(seen, expected);
    for x in 1..=8 {
        let holders = nets.iter().filter(|n| n.nodes.contains(&x)).count();
        let touched = edges.iter().any(|&(a, b)| a == x || b == x);
        assert_eq!(holders, if touched { 1 } else { 0 });
    }
}

#[test]
fn subnetworks_from_edges_matches_networks() {
    let edges = vec![(1, 2), (2, 3), (4, 5)];
    let sub = Subnetworks::from_edges(&edges);
    assert_eq!(sub.networks.len(), 2);
    let wrapped = Subnetworks::new(networks(edges));
    assert_eq!(wrapped.networks.len(), 2);
    assert!(Network::new().nodes.is_empty());
    assert!(Network::new().edges.is_empty());
}

#[test]
fn analyze_sorts_episodes_and_reduces() {
    let eps = vec![episode(3), episode(1), episode(2)];
    let graph = analyze(eps, links(&[(1, &[]), (2, &[1]), (3, &[1, 2])])).unwrap();
    let numbers: Vec<usize> = graph.episodes.iter().map(|e| e.number).collect();
    assert_eq!(numbers, vec![1, 2, 3]);
    assert_eq!(graph.episodes[0].title, "Episode 1");
    assert_eq!(edge_set(&graph.adjacency_reduced_edges), edge_set(&[(1, 2), (2, 3)]));
    assert_eq!(graph.networks.len(), 1);
}

#[test]
fn sort_keeps_every_episode() {
    let sorted = sort_episodes(vec![episode(9), episode(4), episode(7), episode(4)]);
    let numbers: Vec<usize> = sorted.iter().map(|e| e.number).collect();
    assert_eq!(numbers, vec![4, 4, 7, 9]);
    assert!(sort_episodes(Vec::new()).is_empty());
}

#[test]
fn slug_prefixes_number() {
    assert_eq!(slug_from_num_str("412"), "CD-412");
    assert_eq!(slug_from_num_str(""), "CD-");
}

#[test]
fn disjoint_sets_merge_and_find() {
    let mut sets = DisjointSets::new(6);
    for i in 0..6 {
        assert_eq!(sets.find(i), i);
    }
    let _ = sets.union(0, 1);
    let _ = sets.union(2, 3);
    let _ = sets.union(1, 3);
    let _ = sets.union(4, 4);
    let root = sets.find(0);
    assert_eq!(sets.find(1), root);
    assert_eq!(sets.find(2), root);
    assert_eq!(sets.find(3), root);
    assert_ne!(sets.find(4), root);
    assert_eq!(sets.find(4), 4);
    assert_eq!(sets.find(5), 5);
    for i in 0..4 {
        assert_eq!(sets.parent[i], root);
    }
}
