use separation::collections::AdjacencyList;
use separation::separation_deg::{
    build_sample_network, calculate_average_max_degree, calculate_average_shortest_path_length,
    calculate_connected_components, calculate_max_degree_of_separation,
    calculate_mean_and_std_dev, calculate_normalized_separation_distribution, Ratio,
};

fn value(ratio: Ratio) -> f64 {
    ratio.numerator as f64 / ratio.denominator as f64
}

fn ring(n: i32) -> AdjacencyList {
    let mut adj = AdjacencyList::new();
    for i in 0..n {
        adj.add_edge(i, (i + 1) % n);
    }
    adj
}

fn assert_ratio(ratio: Ratio, numerator: u128, denominator: u64) {
    assert_eq!((ratio.numerator, ratio.denominator), (numerator, denominator));
}

#[test]
fn test_separation_distribution_sums_to_one() {
    let adjacency_list = build_sample_network();
    let distribution = calculate_normalized_separation_distribution(&adjacency_list);
    let sum_of_percentages: f64 = distribution
        .counts
        .entries()
        .iter()
        .map(|&(_, count)| count as f64 / distribution.total as f64)
        .sum();
    assert!((sum_of_percentages - 1.0).abs() < f64::EPSILON);
}

#[test]
fn sample_network_max_degree_of_separation() {
    assert_eq!(calculate_max_degree_of_separation(&build_sample_network()), 2);
}

#[test]
fn sample_network_average_max_degree() {
    let average = calculate_average_max_degree(&build_sample_network());
    assert_ratio(average, 5, 3);
    assert!((value(average) - 5.0 / 3.0).abs() < 1e-12);
}

#[test]
fn sample_network_connected_components() {
    assert_eq!(calculate_connected_components(&build_sample_network()), 2);
}

#[test]
fn sample_network_average_shortest_path_length() {
    let average = calculate_average_shortest_path_length(&build_sample_network());
    assert_ratio(average, 8, 6);
    assert!((value(average) - 8.0 / 6.0).abs() < 1e-12);
}

#[test]
fn sample_network_mean_and_spread() {
    let spread = calculate_mean_and_std_dev(&build_sample_network());
    assert_ratio(spread.mean, 8, 6);
    assert_ratio(spread.mean_of_squares, 12, 6);
    let mean = value(spread.mean);
    let variance = value(spread.mean_of_squares) - mean * mean;
    assert!((mean - 8.0 / 6.0).abs() < 1e-12);
    assert!((variance - 2.0 / 9.0).abs() < 1e-12);
    assert!((variance.sqrt() - 0.471_404_520_791_031_7).abs() < 1e-12);
}

#[test]
fn sample_network_distribution() {
    let distribution = calculate_normalized_separation_distribution(&build_sample_network());
    assert_eq!(distribution.total, 6);
    assert_eq!(distribution.counts.count(0), 0);
    assert_eq!(distribution.counts.count(1), 4);
    assert_eq!(distribution.counts.count(2), 2);
    assert_eq!(distribution.counts.count(3), 0);
    let mut entries = distribution.counts.entries();
    entries.sort();
    assert_eq!(entries, vec![(1, 4), (2, 2)]);
    assert_eq!(distribution.mode, 1);
    assert_eq!(distribution.mode_count, 4);
}

#[test]
fn distribution_tallies_add_up_to_total() {
    let mut adj = ring(11);
    adj.add_edge(3, 40);
    adj.add_edge(40, 41);
    adj.add_edge(100, 101);
    let distribution = calculate_normalized_separation_distribution(&adj);
    let sum: u64 = distribution.counts.entries().iter().map(|&(_, count)| count).sum();
    assert_eq!(sum, distribution.total);
    let shares: f64 = distribution
        .counts
        .entries()
        .iter()
        .map(|&(_, count)| count as f64 / distribution.total as f64)
        .sum();
    assert!((shares - 1.0).abs() < 1e-9);
}

#[test]
fn distribution_mode_tie_goes_to_the_smaller_length() {
    let distribution = calculate_normalized_separation_distribution(&ring(5));
    assert_eq!(distribution.total, 20);
    assert_eq!(distribution.counts.count(1), 10);
    assert_eq!(distribution.counts.count(2), 10);
    assert_eq!(distribution.mode, 1);
    assert_eq!(distribution.mode_count, 10);
}

#[test]
fn distribution_mode_is_the_most_frequent_length() {
    let mut adj = AdjacencyList::new();
    for leaf in 1..=4 {
        adj.add_edge(0, leaf);
    }
    let distribution = calculate_normalized_separation_distribution(&adj);
    assert_eq!(distribution.total, 20);
    assert_eq!(distribution.counts.count(1), 8);
    assert_eq!(distribution.counts.count(2), 12);
    assert_eq!(distribution.mode, 2);
    assert_eq!(distribution.mode_count, 12);
}

#[test]
fn empty_graph_has_zero_statistics() {
    let adj = AdjacencyList::new();
    assert_eq!(calculate_max_degree_of_separation(&adj), 0);
    assert_ratio(calculate_average_max_degree(&adj), 0, 1);
    assert_eq!(calculate_connected_components(&adj), 0);
    assert_ratio(calculate_average_shortest_path_length(&adj), 0, 1);
    let spread = calculate_mean_and_std_dev(&adj);
    assert_ratio(spread.mean, 0, 1);
    assert_ratio(spread.mean_of_squares, 0, 1);
    let distribution = calculate_normalized_separation_distribution(&adj);
    assert_eq!(distribution.total, 0);
    assert!(distribution.counts.entries().is_empty());
    assert_eq!((distribution.mode, distribution.mode_count), (0, 0));
}

#[test]
fn single_isolated_node_has_no_paths() {
    let mut adj = AdjacencyList::new();
    adj.add_node(9);
    assert_eq!(calculate_max_degree_of_separation(&adj), 0);
    assert_ratio(calculate_average_max_degree(&adj), 0, 1);
    assert_eq!(calculate_connected_components(&adj), 1);
    assert_ratio(calculate_average_shortest_path_length(&adj), 0, 1);
    let spread = calculate_mean_and_std_dev(&adj);
    assert_ratio(spread.mean, 0, 1);
    assert_ratio(spread.mean_of_squares, 0, 1);
    let distribution = calculate_normalized_separation_distribution(&adj);
    assert_eq!(distribution.total, 0);
    assert!(distribution.counts.entries().is_empty());
    assert_eq!((distribution.mode, distribution.mode_count), (0, 0));
}

#[test]
fn edgeless_graph_has_separation_zero_and_one_eccentricity() {
    let mut adj = AdjacencyList::new();
    adj.add_node(1);
    adj.add_node(2);
    adj.add_node(3);
    assert_eq!(calculate_max_degree_of_separation(&adj), 0);
    assert_eq!(calculate_connected_components(&adj), 1);
    assert_ratio(calculate_average_max_degree(&adj), 0, 3);
    assert_ratio(calculate_average_shortest_path_length(&adj), 0, 1);
}

#[test]
fn disconnected_graph_with_isolated_node_absent() {
    let mut adj = AdjacencyList::new();
    adj.add_edge(1, 2);
    assert!(!adj.contains_node(3));
    assert!(separation::separation_deg::bfs(&adj, 3).is_none());
    assert_eq!(calculate_max_degree_of_separation(&adj), 1);
    assert_ratio(calculate_average_max_degree(&adj), 2, 2);
    assert_eq!(calculate_connected_components(&adj), 1);
    assert_ratio(calculate_average_shortest_path_length(&adj), 2, 2);
    let distribution = calculate_normalized_separation_distribution(&adj);
    assert_eq!(distribution.total, 2);
    assert_eq!(distribution.counts.count(1), 2);
}

#[test]
fn disconnected_graph_with_isolated_node_present() {
    let mut adj = AdjacencyList::new();
    adj.add_edge(1, 2);
    adj.add_node(3);
    assert!(adj.contains_node(3));
    let alone = separation::separation_deg::bfs(&adj, 3).unwrap();
    assert_eq!(alone.len(), 1);
    assert_eq!(alone.distance_to(3), Some(0));
    assert_eq!(calculate_max_degree_of_separation(&adj), 1);
    assert_ratio(calculate_average_max_degree(&adj), 2, 3);
    assert_eq!(calculate_connected_components(&adj), 2);
    assert_ratio(calculate_average_shortest_path_length(&adj), 2, 2);
    let spread = calculate_mean_and_std_dev(&adj);
    assert_ratio(spread.mean, 2, 2);
    assert_ratio(spread.mean_of_squares, 2, 2);
    let distribution = calculate_normalized_separation_distribution(&adj);
    assert_eq!(distribution.total, 2);
    assert_eq!(distribution.counts.count(1), 2);
    assert_eq!((distribution.mode, distribution.mode_count), (1, 2));
}

#[test]
fn components_with_equal_eccentricities_count_once() {
    let mut adj = AdjacencyList::new();
    adj.add_edge(1, 2);
    adj.add_edge(10, 11);
    adj.add_edge(20, 21);
    assert_eq!(calculate_connected_components(&adj), 1);
    adj.add_edge(21, 22);
    assert_eq!(calculate_connected_components(&adj), 2);
}

#[test]
fn variance_is_zero_when_all_paths_are_equally_long() {
    let mut adj = AdjacencyList::new();
    for a in 0..4 {
        for b in (a + 1)..4 {
            adj.add_edge(a, b);
        }
    }
    let spread = calculate_mean_and_std_dev(&adj);
    assert_ratio(spread.mean, 12, 12);
    assert_ratio(spread.mean_of_squares, 12, 12);
    let n = spread.mean.denominator as u128;
    assert_eq!(spread.mean_of_squares.numerator * n, spread.mean.numerator * spread.mean.numerator);
}

#[test]
fn variance_is_positive_when_path_lengths_differ() {
    let spread = calculate_mean_and_std_dev(&ring(6));
    assert_ratio(spread.mean, 54, 30);
    assert_ratio(spread.mean_of_squares, 114, 30);
    let n = spread.mean.denominator as u128;
    assert!(spread.mean_of_squares.numerator * n > spread.mean.numerator * spread.mean.numerator);
}

#[test]
fn ring_statistics() {
    let adj = ring(8);
    assert_eq!(calculate_max_degree_of_separation(&adj), 4);
    assert_ratio(calculate_average_max_degree(&adj), 32, 8);
    assert_eq!(calculate_connected_components(&adj), 1);
    assert_ratio(calculate_average_shortest_path_length(&adj), 128, 56);
}
