use krabmaga::graph::Edge;
use krabmaga::hypergraph::Hypergraph;
use krabmaga::network::Network;

fn edge<'a>(e: Option<&'a Edge<u32, &'static str>>) -> Option<(u64, u64, u32, &'static str)> {
    e.map(|e| (e.from, e.to, e.weight, e.label))
}

#[test]
fn directed_network_lists_successors_only() {
    let mut n: Network<u32, &'static str> = Network::new(true);
    assert!(n.is_directed());
    n.add_edge(1, 2, 10, "a");
    n.add_edge(1, 3, 20, "b");
    n.add_edge(3, 1, 30, "c");
    assert_eq!(n.staged_len(), 3);
    assert_eq!(n.neighbors(1), Vec::<u64>::new());
    assert_eq!(edge(n.edge_between(1, 2)), None);
    assert!(!n.has_node(1));
    n.commit();
    assert_eq!(n.staged_len(), 0);
    assert_eq!(n.neighbors(1), vec![2, 3]);
    assert_eq!(n.neighbors(2), Vec::<u64>::new());
    assert_eq!(n.neighbors(3), vec![1]);
    assert_eq!(edge(n.edge_between(1, 2)), Some((1, 2, 10, "a")));
    assert_eq!(edge(n.edge_between(2, 1)), None);
    assert_eq!(edge(n.edge_between(3, 1)), Some((3, 1, 30, "c")));
    assert_eq!(edge(n.edge_between(1, 3)), Some((1, 3, 20, "b")));
    assert!(n.has_node(1) && n.has_node(2) && n.has_node(3));
    assert!(!n.has_node(4));
}

#[test]
fn undirected_network_lists_both_ends() {
    let mut n: Network<u32, &'static str> = Network::new(false);
    assert!(!n.is_directed());
    n.add_edge(5, 2, 10, "a");
    n.add_edge(2, 7, 20, "b");
    n.commit();
    assert_eq!(n.neighbors(5), vec![2]);
    assert_eq!(n.neighbors(2), vec![5, 7]);
    assert_eq!(n.neighbors(7), vec![2]);
    assert_eq!(edge(n.edge_between(5, 2)), Some((5, 2, 10, "a")));
    assert_eq!(edge(n.edge_between(2, 5)), Some((5, 2, 10, "a")));
    assert_eq!(edge(n.edge_between(7, 2)), Some((2, 7, 20, "b")));
    assert_eq!(edge(n.edge_between(5, 7)), None);
}

#[test]
fn network_changes_show_at_commit_only() {
    let mut n: Network<u32, &'static str> = Network::new(false);
    n.add_edge(1, 2, 1, "x");
    n.commit();
    n.remove_edge(2, 1);
    n.add_edge(1, 3, 2, "y");
    n.add_node(9);
    assert_eq!(n.neighbors(1), vec![2]);
    assert_eq!(edge(n.edge_between(1, 2)), Some((1, 2, 1, "x")));
    assert!(!n.has_node(9));
    n.commit();
    assert_eq!(n.neighbors(1), vec![3]);
    assert_eq!(n.neighbors(2), Vec::<u64>::new());
    assert_eq!(edge(n.edge_between(1, 2)), None);
    assert!(n.has_node(9));
    assert!(n.has_node(2));
    assert_eq!(n.neighbors(9), Vec::<u64>::new());
}

#[test]
fn network_last_staged_edge_wins() {
    let mut n: Network<u32, &'static str> = Network::new(true);
    n.add_edge(1, 2, 1, "first");
    n.add_edge(1, 2, 2, "second");
    n.commit();
    assert_eq!(edge(n.edge_between(1, 2)), Some((1, 2, 2, "second")));
    assert_eq!(n.neighbors(1), vec![2]);
    n.add_edge(1, 2, 3, "third");
    n.remove_edge(1, 2);
    n.commit();
    assert_eq!(edge(n.edge_between(1, 2)), None);
    assert_eq!(n.neighbors(1), Vec::<u64>::new());
    n.remove_edge(1, 2);
    n.add_edge(1, 2, 4, "fourth");
    n.commit();
    assert_eq!(edge(n.edge_between(1, 2)), Some((1, 2, 4, "fourth")));
    assert_eq!(n.neighbors(1), vec![2]);
}

#[test]
fn network_self_loop_and_far_apart_nodes() {
    let mut n: Network<u32, &'static str> = Network::new(false);
    n.add_edge(4, 4, 1, "loop");
    n.add_edge(u64::MAX, 0, 2, "far");
    n.add_edge(0, u64::MAX - 1, 3, "near");
    n.commit();
    assert_eq!(n.neighbors(4), vec![4]);
    assert_eq!(n.neighbors(u64::MAX), vec![0]);
    assert_eq!(n.neighbors(0), vec![u64::MAX, u64::MAX - 1]);
    assert_eq!(edge(n.edge_between(0, u64::MAX)), Some((u64::MAX, 0, 2, "far")));
    assert_eq!(edge(n.edge_between(u64::MAX - 1, 0)), Some((0, u64::MAX - 1, 3, "near")));
    assert_eq!(edge(n.edge_between(u64::MAX, u64::MAX - 1)), None);
    n.remove_edge(4, 4);
    n.commit();
    assert_eq!(n.neighbors(4), Vec::<u64>::new());
}

#[test]
fn hyperedge_joins_all_its_nodes() {
    let mut g: Hypergraph<u32, &'static str> = Hypergraph::new();
    assert_eq!(g.add_hyperedge(vec![1, 2, 3], 10, "abc"), Some(0));
    assert_eq!(g.add_hyperedge(vec![3, 4], 20, "cd"), Some(1));
    assert_eq!(g.next_id(), 2);
    assert_eq!(g.staged_len(), 2);
    assert_eq!(g.neighbors(3), Vec::<u64>::new());
    assert!(g.edge(0).is_none());
    g.commit();
    assert_eq!(g.neighbors(1), vec![2, 3]);
    assert_eq!(g.neighbors(3), vec![1, 2, 4]);
    assert_eq!(g.neighbors(4), vec![3]);
    assert_eq!(g.neighbors(5), Vec::<u64>::new());
    assert_eq!(g.edges_of(3), vec![0, 1]);
    let e = g.edge(0).unwrap();
    assert_eq!((e.id, e.nodes.clone(), e.weight, e.label), (0, vec![1, 2, 3], 10, "abc"));
    assert_eq!(g.edge_between(1, 3).map(|e| e.id), Some(0));
    assert_eq!(g.edge_between(4, 3).map(|e| e.id), Some(1));
    assert_eq!(g.edge_between(1, 4).map(|e| e.id), None);
    assert_eq!(g.edge_between(3, 3).map(|e| e.id), Some(0));
}

#[test]
fn hyperedge_needs_a_node_and_counts_each_once() {
    let mut g: Hypergraph<u32, &'static str> = Hypergraph::new();
    assert_eq!(g.add_hyperedge(Vec::new(), 0, "none"), None);
    assert_eq!(g.next_id(), 0);
    assert_eq!(g.staged_len(), 0);
    assert_eq!(g.add_hyperedge(vec![7, 8, 7, 7, 9, 8], 1, "dup"), Some(0));
    assert_eq!(g.add_hyperedge(vec![5], 2, "one"), Some(1));
    g.commit();
    assert_eq!(g.edge(0).unwrap().nodes, vec![7, 8, 9]);
    assert_eq!(g.neighbors(7), vec![8, 9]);
    assert_eq!(g.edges_of(7), vec![0]);
    assert_eq!(g.neighbors(5), Vec::<u64>::new());
    assert_eq!(g.edge_between(5, 5).map(|e| e.id), Some(1));
}

#[test]
fn hypergraph_removal_and_oldest_edge() {
    let mut g: Hypergraph<u32, &'static str> = Hypergraph::new();
    let a = g.add_hyperedge(vec![1, 2], 1, "a").unwrap();
    let b = g.add_hyperedge(vec![2, 1, 3], 2, "b").unwrap();
    g.commit();
    assert_eq!(g.edge_between(1, 2).map(|e| e.label), Some("a"));
    assert_eq!(g.edge_between(2, 1).map(|e| e.label), Some("a"));
    assert_eq!(g.neighbors(1), vec![2, 3]);
    g.remove_edge(a);
    assert_eq!(g.edge_between(1, 2).map(|e| e.label), Some("a"));
    g.commit();
    assert!(g.edge(a).is_none());
    assert_eq!(g.edge_between(1, 2).map(|e| e.label), Some("b"));
    assert_eq!(g.neighbors(1), vec![2, 3]);
    assert_eq!(g.edges_of(1), vec![b]);
    g.remove_edge(b);
    g.remove_edge(77);
    g.commit();
    assert_eq!(g.neighbors(1), Vec::<u64>::new());
    assert_eq!(g.neighbors(2), Vec::<u64>::new());
    assert_eq!(g.edge_between(1, 2).map(|e| e.label), None);
}

#[test]
fn hyperedge_staged_and_removed_in_one_tick_never_shows() {
    let mut g: Hypergraph<u32, &'static str> = Hypergraph::new();
    let a = g.add_hyperedge(vec![1, 2], 1, "a").unwrap();
    g.remove_edge(a);
    let b = g.add_hyperedge(vec![2, 3], 2, "b").unwrap();
    g.commit();
    assert!(g.edge(a).is_none());
    assert_eq!(g.edge(b).map(|e| e.label), Some("b"));
    assert_eq!(g.neighbors(2), vec![3]);
    assert_eq!(g.neighbors(1), Vec::<u64>::new());
}
