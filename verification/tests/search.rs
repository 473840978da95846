use separation::collections::AdjacencyList;
use separation::separation_deg::{bfs, build_sample_network, farthest};

fn cycle(n: i32) -> AdjacencyList {
    let mut adj = AdjacencyList::new();
    for i in 0..n {
        adj.add_edge(i, (i + 1) % n);
    }
    adj
}

#[test]
fn bfs_on_sample_network_from_an_end() {
    let adj = build_sample_network();
    let distances = bfs(&adj, 1).expect("node 1 has an entry");
    assert_eq!(distances.len(), 3);
    assert_eq!(distances.distance_to(1), Some(0));
    assert_eq!(distances.distance_to(2), Some(1));
    assert_eq!(distances.distance_to(3), Some(2));
    assert_eq!(distances.distance_to(4), None);
}

#[test]
fn bfs_on_sample_network_from_the_middle() {
    let adj = build_sample_network();
    let distances = bfs(&adj, 2).expect("node 2 has an entry");
    assert_eq!(distances.len(), 3);
    assert_eq!(distances.distance_to(1), Some(1));
    assert_eq!(distances.distance_to(2), Some(0));
    assert_eq!(distances.distance_to(3), Some(1));
}

#[test]
fn bfs_from_a_node_without_entry_is_none() {
    let adj = build_sample_network();
    assert!(bfs(&adj, 7).is_none());
    assert!(bfs(&AdjacencyList::new(), 0).is_none());
}

#[test]
fn bfs_leaves_out_unreachable_nodes() {
    let mut adj = AdjacencyList::new();
    adj.add_edge(1, 2);
    adj.add_edge(10, 11);
    adj.add_edge(11, 12);
    let from_one = bfs(&adj, 1).unwrap();
    assert_eq!(from_one.len(), 2);
    assert_eq!(from_one.distance_to(2), Some(1));
    assert_eq!(from_one.distance_to(10), None);
    let from_ten = bfs(&adj, 10).unwrap();
    assert_eq!(from_ten.len(), 3);
    assert_eq!(from_ten.distance_to(12), Some(2));
    assert_eq!(from_ten.distance_to(1), None);
}

#[test]
fn bfs_takes_the_shortest_way_round_a_cycle() {
    let adj = cycle(6);
    let distances = bfs(&adj, 0).unwrap();
    assert_eq!(distances.len(), 6);
    let expected = [0u32, 1, 2, 3, 2, 1];
    for (node, hops) in expected.iter().enumerate() {
        assert_eq!(distances.distance_to(node as i32), Some(*hops));
    }
}

#[test]
fn bfs_in_a_connected_graph_holds_every_node() {
    let adj = cycle(9);
    for source in 0..9 {
        let distances = bfs(&adj, source).unwrap();
        assert_eq!(distances.len(), 9);
        assert_eq!(distances.distance_to(source), Some(0));
        for node in 0..9 {
            assert!(distances.distance_to(node).is_some());
        }
    }
}

#[test]
fn bfs_distances_are_symmetric() {
    let mut adj = cycle(7);
    adj.add_edge(0, 20);
    adj.add_edge(20, 21);
    adj.add_edge(3, 21);
    let nodes = [0, 1, 2, 3, 4, 5, 6, 20, 21];
    for &u in nodes.iter() {
        let from_u = bfs(&adj, u).unwrap();
        for &v in nodes.iter() {
            let from_v = bfs(&adj, v).unwrap();
            assert_eq!(from_u.distance_to(v), from_v.distance_to(u));
        }
    }
}

#[test]
fn bfs_follows_a_self_loop_nowhere() {
    let mut adj = AdjacencyList::new();
    adj.add_edge(5, 5);
    let distances = bfs(&adj, 5).unwrap();
    assert_eq!(distances.len(), 1);
    assert_eq!(distances.distance_to(5), Some(0));
}

#[test]
fn bfs_handles_extreme_node_identifiers() {
    let mut adj = AdjacencyList::new();
    adj.add_edge(i32::MIN, i32::MAX);
    adj.add_edge(i32::MAX, 0);
    let distances = bfs(&adj, i32::MIN).unwrap();
    assert_eq!(distances.distance_to(i32::MAX), Some(1));
    assert_eq!(distances.distance_to(0), Some(2));
}

#[test]
fn farthest_is_the_greatest_hop_count() {
    let adj = build_sample_network();
    assert_eq!(farthest(&bfs(&adj, 1).unwrap()), 2);
    assert_eq!(farthest(&bfs(&adj, 2).unwrap()), 1);
    assert_eq!(farthest(&bfs(&adj, 3).unwrap()), 2);
    let mut lone = AdjacencyList::new();
    lone.add_node(4);
    assert_eq!(farthest(&bfs(&lone, 4).unwrap()), 0);
}
