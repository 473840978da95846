//! Breadth-first search and the separation statistics of a graph.

use vstd::prelude::*;
use std::collections::VecDeque;
use crate::collections::{
    AdjacencyList, DistanceMap, LengthCounts, adjacency_of, distances_of, members_of, lengths_of,
    counts_of, adjacency_has_node, adjacency_neighbors, adjacency_nodes, node_set_new,
    node_set_insert, distance_map_new, distance_map_insert, distance_map_entries,
    length_set_new, length_set_insert, length_set_len, length_counts_new, length_counts_get,
    length_counts_insert, length_counts_entries, distance_map_get,
};
use crate::data_reading::{edge_graph, lemma_edge_graph_push, lemma_edge_graph_symmetric};
use crate::graph::{has_edge, is_distance_map, is_symmetric, lemma_node_set_bounded};
use crate::measures::{
    eccentricity, eccentricities, eccentricity_term, total_eccentricity, max_separation,
    is_greatest_value, is_greatest_eccentricity, lemma_greatest_value_eccentricity,
    lemma_max_separation, lemma_length_set_finite, path_length, squared_length, is_path,
    has_length, entry_weight, source_weight, map_sum, sum_from, total_path_count,
    total_path_length, total_squared_length, paths_of_length, count_at, count_total, is_mode,
    lemma_map_sum_from, lemma_map_path_count, lemma_count_total_bump, lemma_count_at_bounded,
};
use crate::spread::{paths_equally_long, scaled_variance, lemma_variance};
use crate::sums::{
    set_sum, prefix_set, lemma_set_sum_empty, lemma_set_sum_insert, lemma_prefix_set_start,
    lemma_prefix_set_step, lemma_prefix_set_whole,
};
use crate::search::{
    between_nodes, within_node, lemma_search_start, lemma_search_pop, lemma_search_skip,
    lemma_search_push, lemma_search_next, lemma_search_done,
};

verus! {

/// A fraction of two counts. The library never returns one with denominator
/// 0: a mean over nothing is reported as 0/1.
#[derive(Clone, Copy, Debug)]
pub struct Ratio {
    pub numerator: u128,
    pub denominator: u64,
}

/// Breadth-first search from `start_node`.
///
/// Returns `None` exactly when `start_node` has no entry in the adjacency
/// list. Otherwise the result holds every node reachable from `start_node`,
/// and no other, each with the least number of edges on a walk to it; the
/// start node itself is at distance 0. A neighbour without an entry of its
/// own is reached, and nothing is reached through it; a symmetric adjacency
/// list has no such neighbour.
pub fn bfs(adj_list: &AdjacencyList, start_node: i32) -> (result: Option<DistanceMap>)
    ensures
        result is Some <==> adjacency_of(*adj_list).dom().contains(start_node),
        result matches Some(distances) ==> is_distance_map(
            adjacency_of(*adj_list),
            start_node,
            distances_of(distances),
        ),
{
    if !adjacency_has_node(adj_list, start_node) {
        return None;
    }
    let ghost g = adjacency_of(*adj_list);
    let mut visited = node_set_new();
    let mut queue: VecDeque<(i32, u32)> = VecDeque::new();
    let mut distances = distance_map_new();

    let _ = node_set_insert(&mut visited, start_node);
    queue.push_back((start_node, 0));
    proof {
        lemma_search_start(g, start_node);
        assert(queue@ =~= seq![(start_node, 0u32)]);
        lemma_node_set_bounded(members_of(visited));
    }

    loop
        invariant
            g == adjacency_of(*adj_list),
            between_nodes(g, start_node, members_of(visited), distances_of(distances), queue@),
            members_of(visited).len() <= 0x1_0000_0000,
        ensures
            between_nodes(g, start_node, members_of(visited), distances_of(distances), queue@),
            queue@.len() == 0,
        decreases 0x1_0000_0000 - members_of(visited).len() + queue@.len(),
    {
        let ghost before = queue@;
        let ghost measure = 0x1_0000_0000 - members_of(visited).len() + queue@.len();
        let (current_node, distance) = match queue.pop_front() {
            Some(entry) => entry,
            None => {
                break ;
            },
        };
        proof {
            lemma_search_pop(g, start_node, members_of(visited), distances_of(distances), before);
        }
        distance_map_insert(&mut distances, current_node, distance);

        let ghost mut seen: Set<i32> = Set::empty();
        match adjacency_neighbors(adj_list, current_node) {
            Some(neighbors) => {
                let mut i: usize = 0;
                while i < neighbors.len()
                    invariant
                        g == adjacency_of(*adj_list),
                        i <= neighbors.len(),
                        g.dom().contains(current_node),
                        forall|w: i32| neighbors@.contains(w) <==> g[current_node].contains(w),
                        forall|k: int| 0 <= k < i ==> seen.contains(#[trigger] neighbors@[k]),
                        within_node(
                            g,
                            start_node,
                            members_of(visited),
                            distances_of(distances),
                            queue@,
                            current_node,
                            distance,
                            seen,
                        ),
                        members_of(visited).len() <= 0x1_0000_0000,
                        0x1_0000_0000 - members_of(visited).len() + queue@.len() == measure - 1,
                    decreases neighbors.len() - i,
                {
                    let neighbor = neighbors[i];
                    let ghost vis = members_of(visited);
                    proof {
                        assert(neighbors@.contains(neighbor));
                        assert(has_edge(g, current_node, neighbor));
                    }
                    if node_set_insert(&mut visited, neighbor) {
                        proof {
                            lemma_search_push(
                                g,
                                start_node,
                                vis,
                                distances_of(distances),
                                queue@,
                                current_node,
                                distance,
                                seen,
                                neighbor,
                            );
                            lemma_node_set_bounded(vis.insert(neighbor));
                        }
                        queue.push_back((neighbor, distance + 1));
                    } else {
                        proof {
                            lemma_search_skip(
                                g,
                                start_node,
                                vis,
                                distances_of(distances),
                                queue@,
                                current_node,
                                distance,
                                seen,
                                neighbor,
                            );
                            assert(vis.insert(neighbor) =~= vis);
                        }
                    }
                    proof {
                        seen = seen.insert(neighbor);
                    }
                    i += 1;
                }
                proof {
                    assert forall|w: i32| #[trigger] has_edge(g, current_node, w) implies seen.contains(w) by {
                        assert(neighbors@.contains(w));
                        let k = choose|k: int| 0 <= k < neighbors@.len() && neighbors@[k] == w;
                        assert(seen.contains(neighbors@[k]));
                    }
                }
            },
            None => {},
        }
        proof {
            lemma_search_next(
                g,
                start_node,
                members_of(visited),
                distances_of(distances),
                queue@,
                current_node,
                distance,
                seen,
            );
        }
    }
    proof {
        assert(queue@ =~= Seq::<(i32, u32)>::empty());
        lemma_search_done(g, start_node, members_of(visited), distances_of(distances));
    }
    Some(distances)
}

/// The mean and the mean square of the distances between different nodes.
/// The variance is `mean_of_squares` less the square of `mean`, and the
/// standard deviation its square root.
#[derive(Clone, Copy, Debug)]
pub struct SeparationSpread {
    pub mean: Ratio,
    pub mean_of_squares: Ratio,
}

impl SeparationSpread {
    /// The variance, times the square of the number of paths.
    pub open spec fn scaled_variance(self) -> int {
        self.mean_of_squares.numerator * self.mean.denominator - self.mean.numerator
            * self.mean.numerator
    }
}

/// How often each path length occurs among the pairs of different nodes.
/// The share of a length is its tally over `total`.
pub struct SeparationDistribution {
    pub counts: LengthCounts,
    pub total: u64,
    pub mode: u32,
    pub mode_count: u64,
}

impl DistanceMap {
    /// The hop count recorded for `node`, if there is one.
    pub fn distance_to(&self, node: i32) -> (hops: Option<u32>)
        ensures
            hops == if distances_of(*self).dom().contains(node) {
                Some(distances_of(*self)[node])
            } else {
                None
            },
    {
        distance_map_get(self, node)
    }

    /// The number of nodes with a hop count.
    pub fn len(&self) -> (n: usize)
        ensures
            n == distances_of(*self).dom().len(),
    {
        let entries = distance_map_entries(self);
        proof {
            let nodes = entry_nodes(entries@);
            lemma_entry_nodes(distances_of(*self), entries@);
            nodes.unique_seq_to_set();
            assert(nodes.to_set() =~= distances_of(*self).dom());
        }
        entries.len()
    }
}

impl LengthCounts {
    /// The number of pairs recorded at the given path length.
    pub fn count(&self, length: u32) -> (tally: u64)
        ensures
            tally == count_at(counts_of(*self), length),
    {
        match length_counts_get(self, length) {
            Some(tally) => tally,
            None => 0,
        }
    }

    /// Every recorded path length with its tally, each once, in no
    /// particular order.
    pub fn entries(&self) -> (entries: Vec<(u32, u64)>)
        ensures
            forall|i: int, j: int|
                0 <= i < j < entries@.len() ==> (#[trigger] entries@[i]).0 != (#[trigger] entries@[j]).0,
            forall|i: int|
                0 <= i < entries@.len() ==> counts_of(*self).contains_pair(
                    (#[trigger] entries@[i]).0,
                    entries@[i].1,
                ),
            forall|k: u32|
                counts_of(*self).dom().contains(k) ==> exists|i: int|
                    0 <= i < entries@.len() && (#[trigger] entries@[i]).0 == k,
    {
        length_counts_entries(self)
    }
}

/// What one distance map adds to the sums over all pairs.
struct PathTally {
    paths: u64,
    length: u64,
    squares: u128,
}

/// The greatest hop count in a distance map, and 0 for a map without
/// entries.
pub fn farthest(distances: &DistanceMap) -> (r: u32)
    ensures
        is_greatest_value(distances_of(*distances), r),
{
    let entries = distance_map_entries(distances);
    let ghost m = distances_of(*distances);
    let mut best: u32 = 0;
    let mut i: usize = 0;
    while i < entries.len()
        invariant
            i <= entries.len(),
            forall|k: int| 0 <= k < entries@.len() ==> m.contains_pair((#[trigger] entries@[k]).0, entries@[k].1),
            i == 0 ==> best == 0,
            i > 0 ==> exists|k: int| 0 <= k < i && (#[trigger] entries@[k]).1 == best,
            forall|k: int| 0 <= k < i ==> (#[trigger] entries@[k]).1 <= best,
        decreases entries.len() - i,
    {
        let hops = entries[i].1;
        if hops > best {
            best = hops;
        }
        proof {
            if best != hops {
                let k = choose|k: int| 0 <= k < i && (#[trigger] entries@[k]).1 == best;
                assert(entries@[k].1 == best);
            }
        }
        i += 1;
    }
    proof {
        if m.dom().is_empty() {
            if entries@.len() > 0 {
                assert(m.contains_pair(entries@[0].0, entries@[0].1));
            }
        } else {
            let v0 = choose|v: i32| m.dom().contains(v);
            assert(m.dom().contains(v0));
            let k = choose|k: int| 0 <= k < i && (#[trigger] entries@[k]).1 == best;
            assert(m.contains_pair(entries@[k].0, entries@[k].1));
            assert(m.dom().contains(entries@[k].0) && m[entries@[k].0] == best);
            assert forall|v: i32| m.dom().contains(v) implies #[trigger] m[v] <= best by {
                let j = choose|j: int| 0 <= j < entries@.len() && (#[trigger] entries@[j]).0 == v;
                assert(m.contains_pair(entries@[j].0, entries@[j].1));
            }
        }
    }
    best
}

/// The eccentricity of a node with an entry.
fn eccentricity_of(adjacency_list: &AdjacencyList, node: i32) -> (r: u32)
    requires
        adjacency_of(*adjacency_list).dom().contains(node),
    ensures
        r == eccentricity(adjacency_of(*adjacency_list), node),
{
    match bfs(adjacency_list, node) {
        Some(distances) => {
            let r = farthest(&distances);
            proof {
                lemma_greatest_value_eccentricity(
                    adjacency_of(*adjacency_list),
                    node,
                    distances_of(distances),
                    r,
                );
            }
            r
        },
        None => 0,
    }
}

/// The maximum degree of separation: the greatest eccentricity among the
/// nodes of the graph, and 0 for a graph without nodes.
pub fn calculate_max_degree_of_separation(adjacency_list: &AdjacencyList) -> (r: u32)
    ensures
        r == max_separation(adjacency_of(*adjacency_list)),
{
    let ghost g = adjacency_of(*adjacency_list);
    let nodes = adjacency_nodes(adjacency_list);
    let mut best: u32 = 0;
    let mut i: usize = 0;
    while i < nodes.len()
        invariant
            g == adjacency_of(*adjacency_list),
            i <= nodes.len(),
            forall|v: i32| nodes@.contains(v) <==> g.dom().contains(v),
            i == 0 ==> best == 0,
            i > 0 ==> exists|k: int| 0 <= k < i && #[trigger] eccentricity(g, nodes@[k]) == best,
            forall|k: int| 0 <= k < i ==> #[trigger] eccentricity(g, nodes@[k]) <= best,
        decreases nodes.len() - i,
    {
        assert(nodes@.contains(nodes@[i as int]));
        let e = eccentricity_of(adjacency_list, nodes[i]);
        proof {
            if e <= best && i > 0 {
                let k = choose|k: int| 0 <= k < i && #[trigger] eccentricity(g, nodes@[k]) == best;
                assert(eccentricity(g, nodes@[k]) == best);
            }
        }
        if e > best {
            best = e;
        }
        i += 1;
    }
    proof {
        if nodes@.len() == 0 {
            assert forall|v: i32| !g.dom().contains(v) by {
                if g.dom().contains(v) {
                    assert(nodes@.contains(v));
                }
            }
            assert(g.dom().is_empty());
        } else {
            let k = choose|k: int| 0 <= k < i && #[trigger] eccentricity(g, nodes@[k]) == best;
            assert(nodes@.contains(nodes@[k]));
            assert(g.dom().contains(nodes@[k]));
            assert(eccentricities(g).contains(best as nat));
            assert forall|x: nat| eccentricities(g).contains(x) implies x <= best by {
                let u = choose|u: i32| g.dom().contains(u) && x == eccentricity(g, u);
                assert(nodes@.contains(u));
                let j = choose|j: int| 0 <= j < nodes@.len() && nodes@[j] == u;
                assert(eccentricity(g, nodes@[j]) <= best);
            }
            assert(is_greatest_eccentricity(g, best as nat));
            lemma_max_separation(g, best as nat);
        }
    }
    best
}

/// The mean eccentricity: the sum of the eccentricities of all nodes over
/// the number of nodes, and 0/1 for a graph without nodes.
pub fn calculate_average_max_degree(adjacency_list: &AdjacencyList) -> (r: Ratio)
    ensures
        r.denominator > 0,
        adjacency_of(*adjacency_list).dom().len() == 0 ==> r.numerator == 0 && r.denominator == 1,
        adjacency_of(*adjacency_list).dom().len() != 0 ==> r.numerator == total_eccentricity(
            adjacency_of(*adjacency_list),
        ) && r.denominator == adjacency_of(*adjacency_list).dom().len(),
{
    let ghost g = adjacency_of(*adjacency_list);
    let nodes = adjacency_nodes(adjacency_list);
    let mut total: u64 = 0;
    let mut i: usize = 0;
    proof {
        lemma_prefix_set_start(nodes@);
        lemma_set_sum_empty(eccentricity_term(g));
    }
    while i < nodes.len()
        invariant
            g == adjacency_of(*adjacency_list),
            i <= nodes.len(),
            nodes@.no_duplicates(),
            forall|v: i32| nodes@.contains(v) <==> g.dom().contains(v),
            prefix_set(nodes@, i as int).finite(),
            prefix_set(nodes@, i as int).len() == i,
            total == set_sum(prefix_set(nodes@, i as int), eccentricity_term(g)),
            total <= i * 0xFFFF_FFFF,
        decreases nodes.len() - i,
    {
        assert(nodes@.contains(nodes@[i as int]));
        let e = eccentricity_of(adjacency_list, nodes[i]);
        proof {
            lemma_prefix_set_step(nodes@, i as int);
            lemma_set_sum_insert(prefix_set(nodes@, i as int), eccentricity_term(g), nodes@[i as int]);
            lemma_node_set_bounded(prefix_set(nodes@, i + 1));
        }
        total = total + e as u64;
        i += 1;
    }
    proof {
        lemma_prefix_set_whole(nodes@, g.dom());
    }
    if nodes.len() == 0 {
        Ratio { numerator: 0, denominator: 1 }
    } else {
        Ratio { numerator: total as u128, denominator: nodes.len() as u64 }
    }
}

/// The number of distinct eccentricities among the nodes of the graph.
///
/// This stands in for the number of connected components: nodes of one
/// component may differ in eccentricity, and two components may share one,
/// so it is the number of components only where each component has an
/// eccentricity of its own, shared by all its nodes.
pub fn calculate_connected_components(adjacency_list: &AdjacencyList) -> (r: usize)
    ensures
        r == eccentricities(adjacency_of(*adjacency_list)).len(),
{
    let ghost g = adjacency_of(*adjacency_list);
    let nodes = adjacency_nodes(adjacency_list);
    let mut found = length_set_new();
    let mut i: usize = 0;
    while i < nodes.len()
        invariant
            g == adjacency_of(*adjacency_list),
            i <= nodes.len(),
            forall|v: i32| nodes@.contains(v) <==> g.dom().contains(v),
            forall|k: int| 0 <= k < i ==> #[trigger] eccentricity(g, nodes@[k]) <= u32::MAX,
            forall|e: u32|
                lengths_of(found).contains(e) <==> exists|k: int|
                    0 <= k < i && #[trigger] eccentricity(g, nodes@[k]) == e as nat,
        decreases nodes.len() - i,
    {
        assert(nodes@.contains(nodes@[i as int]));
        let e = eccentricity_of(adjacency_list, nodes[i]);
        let ghost before = lengths_of(found);
        length_set_insert(&mut found, e);
        proof {
            assert forall|x: u32| lengths_of(found).contains(x) <==> exists|k: int|
                0 <= k < i + 1 && #[trigger] eccentricity(g, nodes@[k]) == x as nat by {
                if before.contains(x) {
                    let k = choose|k: int| 0 <= k < i && #[trigger] eccentricity(g, nodes@[k]) == x as nat;
                    assert(0 <= k < i + 1 && eccentricity(g, nodes@[k]) == x as nat);
                }
                if x == e {
                    assert(eccentricity(g, nodes@[i as int]) == x as nat);
                }
                if exists|k: int| 0 <= k < i + 1 && #[trigger] eccentricity(g, nodes@[k]) == x as nat {
                    let k = choose|k: int| 0 <= k < i + 1 && #[trigger] eccentricity(g, nodes@[k]) == x as nat;
                    if k < i {
                        assert(before.contains(x));
                    }
                }
            }
        }
        i += 1;
    }
    proof {
        let widen = |e: u32| e as nat;
        let image = lengths_of(found).map(widen);
        assert forall|x: nat| image.contains(x) <==> eccentricities(g).contains(x) by {
            if image.contains(x) {
                let e = choose|e: u32| lengths_of(found).contains(e) && x == widen(e);
                let k = choose|k: int| 0 <= k < i && #[trigger] eccentricity(g, nodes@[k]) == e as nat;
                assert(nodes@.contains(nodes@[k]));
                assert(g.dom().contains(nodes@[k]) && x == eccentricity(g, nodes@[k]));
            }
            if eccentricities(g).contains(x) {
                let u = choose|u: i32| g.dom().contains(u) && x == eccentricity(g, u);
                assert(nodes@.contains(u));
                let j = choose|j: int| 0 <= j < nodes@.len() && nodes@[j] == u;
                assert(eccentricity(g, nodes@[j]) == x);
                let e = x as u32;
                assert(eccentricity(g, nodes@[j]) == e as nat);
                assert(lengths_of(found).contains(e) && x == widen(e));
            }
        }
        assert(image =~= eccentricities(g));
        lemma_length_set_finite(lengths_of(found));
        vstd::set_lib::lemma_map_size(lengths_of(found), eccentricities(g), widen);
    }
    length_set_len(&found)
}

/// The nodes of the entries, in the order of the entries.
spec fn entry_nodes(entries: Seq<(i32, u32)>) -> Seq<i32> {
    Seq::new(entries.len(), |i: int| entries[i].0)
}

/// The entries of a distance map list each node of the map once.
proof fn lemma_entry_nodes(m: Map<i32, u32>, entries: Seq<(i32, u32)>)
    requires
        forall|i: int, j: int|
            0 <= i < j < entries.len() ==> (#[trigger] entries[i]).0 != (#[trigger] entries[j]).0,
        forall|i: int| 0 <= i < entries.len() ==> m.contains_pair((#[trigger] entries[i]).0, entries[i].1),
        forall|v: i32|
            m.dom().contains(v) ==> exists|i: int| 0 <= i < entries.len() && (#[trigger] entries[i]).0 == v,
    ensures
        entry_nodes(entries).no_duplicates(),
        forall|v: i32| entry_nodes(entries).contains(v) <==> m.dom().contains(v),
{
    let nodes = entry_nodes(entries);
    assert forall|i: int, j: int| 0 <= i < nodes.len() && 0 <= j < nodes.len() && i != j implies nodes[i]
        != nodes[j] by {
        if i < j {
            assert(entries[i].0 != entries[j].0);
        } else {
            assert(entries[j].0 != entries[i].0);
        }
    }
    assert forall|v: i32| nodes.contains(v) <==> m.dom().contains(v) by {
        if nodes.contains(v) {
            let i = choose|i: int| 0 <= i < nodes.len() && nodes[i] == v;
            assert(m.contains_pair(entries[i].0, entries[i].1));
        }
        if m.dom().contains(v) {
            let i = choose|i: int| 0 <= i < entries.len() && (#[trigger] entries[i]).0 == v;
            assert(nodes[i] == v);
        }
    }
}

/// The number of paths in a distance map, and the sums of their lengths and
/// squared lengths.
fn tally_paths(distances: &DistanceMap) -> (t: PathTally)
    ensures
        t.paths == map_sum(distances_of(*distances), is_path()),
        t.length == map_sum(distances_of(*distances), path_length()),
        t.squares == map_sum(distances_of(*distances), squared_length()),
        t.squares <= 0xFFFF_FFFE_0000_0001_0000_0000,
{
    let entries = distance_map_entries(distances);
    let ghost m = distances_of(*distances);
    let ghost nodes = entry_nodes(entries@);
    let mut paths: u64 = 0;
    let mut length: u64 = 0;
    let mut squares: u128 = 0;
    let mut i: usize = 0;
    proof {
        lemma_entry_nodes(m, entries@);
        lemma_prefix_set_start(nodes);
        lemma_set_sum_empty(entry_weight(m, is_path()));
        lemma_set_sum_empty(entry_weight(m, path_length()));
        lemma_set_sum_empty(entry_weight(m, squared_length()));
    }
    while i < entries.len()
        invariant
            i <= entries.len(),
            nodes == entry_nodes(entries@),
            nodes.no_duplicates(),
            forall|k: int| 0 <= k < entries@.len() ==> m.contains_pair((#[trigger] entries@[k]).0, entries@[k].1),
            prefix_set(nodes, i as int).finite(),
            prefix_set(nodes, i as int).len() == i,
            paths == set_sum(prefix_set(nodes, i as int), entry_weight(m, is_path())),
            length == set_sum(prefix_set(nodes, i as int), entry_weight(m, path_length())),
            squares == set_sum(prefix_set(nodes, i as int), entry_weight(m, squared_length())),
            paths <= i,
            length <= i * 0xFFFF_FFFF,
            squares <= i * 0xFFFF_FFFE_0000_0001,
        decreases entries.len() - i,
    {
        let hops = entries[i].1;
        proof {
            let seen = prefix_set(nodes, i as int);
            let v = nodes[i as int];
            assert(m.contains_pair(entries@[i as int].0, entries@[i as int].1));
            assert(m[v] == hops);
            lemma_prefix_set_step(nodes, i as int);
            lemma_set_sum_insert(seen, entry_weight(m, is_path()), v);
            lemma_set_sum_insert(seen, entry_weight(m, path_length()), v);
            lemma_set_sum_insert(seen, entry_weight(m, squared_length()), v);
            lemma_node_set_bounded(prefix_set(nodes, i + 1));
            assert(hops * hops <= 0xFFFF_FFFE_0000_0001) by (nonlinear_arith)
                requires
                    0 <= hops <= 0xFFFF_FFFF,
            ;
        }
        if hops > 0 {
            paths = paths + 1;
        }
        length = length + hops as u64;
        squares = squares + (hops as u128) * (hops as u128);
        i += 1;
    }
    proof {
        lemma_prefix_set_whole(nodes, m.dom());
        lemma_node_set_bounded(m.dom());
    }
    PathTally { paths, length, squares }
}

/// The tally of the paths that start at a node with an entry.
fn tally_from(adjacency_list: &AdjacencyList, node: i32) -> (t: PathTally)
    requires
        adjacency_of(*adjacency_list).dom().contains(node),
    ensures
        t.paths == sum_from(adjacency_of(*adjacency_list), node, is_path()),
        t.length == sum_from(adjacency_of(*adjacency_list), node, path_length()),
        t.squares == sum_from(adjacency_of(*adjacency_list), node, squared_length()),
        t.paths <= 0xFFFF_FFFF,
        t.squares <= 0xFFFF_FFFE_0000_0001_0000_0000,
{
    match bfs(adjacency_list, node) {
        Some(distances) => {
            let t = tally_paths(&distances);
            proof {
                let g = adjacency_of(*adjacency_list);
                let m = distances_of(distances);
                lemma_map_sum_from(g, node, m, is_path());
                lemma_map_sum_from(g, node, m, path_length());
                lemma_map_sum_from(g, node, m, squared_length());
                lemma_map_path_count(g, node, m);
            }
            t
        },
        None => PathTally { paths: 0, length: 0, squares: 0 },
    }
}

/// The number of paths in the graph and the sums of their lengths and
/// squared lengths, over every ordered pair of different nodes of which the
/// first has an entry and reaches the second.
fn tally_all(adjacency_list: &AdjacencyList) -> (t: (u64, u128, u128))
    ensures
        t.0 == total_path_count(adjacency_of(*adjacency_list)),
        t.1 == total_path_length(adjacency_of(*adjacency_list)),
        t.2 == total_squared_length(adjacency_of(*adjacency_list)),
{
    let ghost g = adjacency_of(*adjacency_list);
    let nodes = adjacency_nodes(adjacency_list);
    let mut paths: u64 = 0;
    let mut length: u128 = 0;
    let mut squares: u128 = 0;
    let mut i: usize = 0;
    proof {
        lemma_prefix_set_start(nodes@);
        lemma_set_sum_empty(source_weight(g, is_path()));
        lemma_set_sum_empty(source_weight(g, path_length()));
        lemma_set_sum_empty(source_weight(g, squared_length()));
    }
    while i < nodes.len()
        invariant
            g == adjacency_of(*adjacency_list),
            i <= nodes.len(),
            nodes@.no_duplicates(),
            forall|v: i32| nodes@.contains(v) <==> g.dom().contains(v),
            prefix_set(nodes@, i as int).finite(),
            prefix_set(nodes@, i as int).len() == i,
            paths == set_sum(prefix_set(nodes@, i as int), source_weight(g, is_path())),
            length == set_sum(prefix_set(nodes@, i as int), source_weight(g, path_length())),
            squares == set_sum(prefix_set(nodes@, i as int), source_weight(g, squared_length())),
            paths <= i * 0xFFFF_FFFF,
            length <= i * 0xFFFF_FFFF_FFFF_FFFF,
            squares <= i * 0xFFFF_FFFE_0000_0001_0000_0000,
        decreases nodes.len() - i,
    {
        assert(nodes@.contains(nodes@[i as int]));
        let t = tally_from(adjacency_list, nodes[i]);
        proof {
            let seen = prefix_set(nodes@, i as int);
            lemma_prefix_set_step(nodes@, i as int);
            lemma_set_sum_insert(seen, source_weight(g, is_path()), nodes@[i as int]);
            lemma_set_sum_insert(seen, source_weight(g, path_length()), nodes@[i as int]);
            lemma_set_sum_insert(seen, source_weight(g, squared_length()), nodes@[i as int]);
            lemma_node_set_bounded(prefix_set(nodes@, i + 1));
        }
        paths = paths + t.paths;
        length = length + t.length as u128;
        squares = squares + t.squares;
        i += 1;
    }
    proof {
        lemma_prefix_set_whole(nodes@, g.dom());
    }
    (paths, length, squares)
}

/// The mean distance between different nodes: the sum of the distances of
/// all ordered pairs over the number of ordered pairs of different nodes,
/// and 0/1 where there is no such pair.
pub fn calculate_average_shortest_path_length(adjacency_list: &AdjacencyList) -> (r: Ratio)
    ensures
        r.denominator > 0,
        total_path_count(adjacency_of(*adjacency_list)) == 0 ==> r.numerator == 0 && r.denominator == 1,
        total_path_count(adjacency_of(*adjacency_list)) != 0 ==> r.numerator == total_path_length(
            adjacency_of(*adjacency_list),
        ) && r.denominator == total_path_count(adjacency_of(*adjacency_list)),
{
    let (paths, length, _) = tally_all(adjacency_list);
    if paths == 0 {
        Ratio { numerator: 0, denominator: 1 }
    } else {
        Ratio { numerator: length, denominator: paths }
    }
}

/// The mean and the mean square of the distances between different nodes,
/// each 0/1 where there is no pair of different nodes.
///
/// The variance they give is not negative, and it is 0 exactly where all
/// paths of the graph are equally long.
pub fn calculate_mean_and_std_dev(adjacency_list: &AdjacencyList) -> (r: SeparationSpread)
    ensures
        r.mean.denominator > 0,
        r.mean_of_squares.denominator == r.mean.denominator,
        r.scaled_variance() >= 0,
        r.scaled_variance() == 0 <==> paths_equally_long(adjacency_of(*adjacency_list)),
        total_path_count(adjacency_of(*adjacency_list)) == 0 ==> {
            &&& r.mean.numerator == 0 && r.mean.denominator == 1
            &&& r.mean_of_squares.numerator == 0 && r.mean_of_squares.denominator == 1
        },
        total_path_count(adjacency_of(*adjacency_list)) != 0 ==> {
            &&& r.mean.numerator == total_path_length(adjacency_of(*adjacency_list))
            &&& r.mean.denominator == total_path_count(adjacency_of(*adjacency_list))
            &&& r.mean_of_squares.numerator == total_squared_length(adjacency_of(*adjacency_list))
            &&& r.mean_of_squares.denominator == total_path_count(adjacency_of(*adjacency_list))
        },
{
    let (paths, length, squares) = tally_all(adjacency_list);
    proof {
        let g = adjacency_of(*adjacency_list);
        lemma_variance(g);
        let sv = scaled_variance(g);
        let n = paths as int;
        let s = length as int;
        let q = squares as int;
        assert(sv == n * q - s * s);
        if paths == 0 {
            assert(s == 0 && sv == 0) by (nonlinear_arith)
                requires
                    sv == n * q - s * s,
                    n == 0,
                    sv >= 0,
            ;
        } else {
            assert(q * n - s * s == sv) by (nonlinear_arith)
                requires
                    sv == n * q - s * s,
            ;
        }
    }
    if paths == 0 {
        SeparationSpread {
            mean: Ratio { numerator: 0, denominator: 1 },
            mean_of_squares: Ratio { numerator: 0, denominator: 1 },
        }
    } else {
        SeparationSpread {
            mean: Ratio { numerator: length, denominator: paths },
            mean_of_squares: Ratio { numerator: squares, denominator: paths },
        }
    }
}

/// Counts every path of a distance map under its length, and returns the
/// number of paths counted.
fn record_lengths(counts: &mut LengthCounts, distances: &DistanceMap) -> (paths: u64)
    requires
        !counts_of(*old(counts)).dom().contains(0),
        forall|k: u32| counts_of(*old(counts)).dom().contains(k) ==> #[trigger] counts_of(*old(counts))[k] > 0,
        count_total(counts_of(*old(counts))) + 0x1_0000_0000 <= u64::MAX,
    ensures
        !counts_of(*final(counts)).dom().contains(0),
        forall|k: u32| counts_of(*final(counts)).dom().contains(k) ==> #[trigger] counts_of(*final(counts))[k] > 0,
        forall|k: u32|
            k > 0 ==> #[trigger] count_at(counts_of(*final(counts)), k) == count_at(counts_of(*old(counts)), k)
                + map_sum(distances_of(*distances), has_length(k as nat)),
        count_total(counts_of(*final(counts))) == count_total(counts_of(*old(counts))) + paths,
        paths == map_sum(distances_of(*distances), is_path()),
{
    let entries = distance_map_entries(distances);
    let ghost m = distances_of(*distances);
    let ghost nodes = entry_nodes(entries@);
    let ghost start = counts_of(*counts);
    let mut paths: u64 = 0;
    let mut i: usize = 0;
    proof {
        lemma_entry_nodes(m, entries@);
        lemma_prefix_set_start(nodes);
        lemma_set_sum_empty(entry_weight(m, is_path()));
        assert forall|k: u32| k > 0 implies #[trigger] count_at(start, k) == count_at(start, k) + set_sum(
            prefix_set(nodes, 0),
            entry_weight(m, has_length(k as nat)),
        ) by {
            lemma_set_sum_empty(entry_weight(m, has_length(k as nat)));
        }
    }
    while i < entries.len()
        invariant
            i <= entries.len(),
            nodes == entry_nodes(entries@),
            nodes.no_duplicates(),
            forall|k: int| 0 <= k < entries@.len() ==> m.contains_pair((#[trigger] entries@[k]).0, entries@[k].1),
            prefix_set(nodes, i as int).finite(),
            prefix_set(nodes, i as int).len() == i,
            paths == set_sum(prefix_set(nodes, i as int), entry_weight(m, is_path())),
            paths <= i,
            !counts_of(*counts).dom().contains(0),
            forall|k: u32| counts_of(*counts).dom().contains(k) ==> #[trigger] counts_of(*counts)[k] > 0,
            forall|k: u32|
                k > 0 ==> #[trigger] count_at(counts_of(*counts), k) == count_at(start, k) + set_sum(
                    prefix_set(nodes, i as int),
                    entry_weight(m, has_length(k as nat)),
                ),
            count_total(counts_of(*counts)) == count_total(start) + paths,
            count_total(start) + 0x1_0000_0000 <= u64::MAX,
        decreases entries.len() - i,
    {
        let hops = entries[i].1;
        let ghost seen = prefix_set(nodes, i as int);
        let ghost v = nodes[i as int];
        let ghost before = counts_of(*counts);
        proof {
            assert(m.contains_pair(entries@[i as int].0, entries@[i as int].1));
            assert(m[v] == hops);
            lemma_prefix_set_step(nodes, i as int);
            lemma_set_sum_insert(seen, entry_weight(m, is_path()), v);
            lemma_node_set_bounded(prefix_set(nodes, i + 1));
        }
        if hops > 0 {
            let tally = match length_counts_get(counts, hops) {
                Some(tally) => tally,
                None => 0,
            };
            proof {
                assert(tally == count_at(before, hops));
                lemma_count_at_bounded(before, hops);
                lemma_count_total_bump(before, hops);
            }
            length_counts_insert(counts, hops, tally + 1);
            paths = paths + 1;
        }
        proof {
            let after = counts_of(*counts);
            assert forall|k: u32| k > 0 implies #[trigger] count_at(after, k) == count_at(start, k) + set_sum(
                prefix_set(nodes, i + 1),
                entry_weight(m, has_length(k as nat)),
            ) by {
                lemma_set_sum_insert(seen, entry_weight(m, has_length(k as nat)), v);
                assert(entry_weight(m, has_length(k as nat))(v) == if hops == k {
                    1int
                } else {
                    0int
                });
                assert(count_at(after, k) == count_at(before, k) + if hops == k {
                    1int
                } else {
                    0int
                });
            }
        }
        i += 1;
    }
    proof {
        lemma_prefix_set_whole(nodes, m.dom());
    }
    paths
}

/// The path length with the greatest tally, and that tally. Among several
/// lengths with the greatest tally the smallest is taken.
fn most_frequent(counts: &LengthCounts) -> (r: (u32, u64))
    ensures
        is_mode(counts_of(*counts), r.0, r.1),
{
    let entries = length_counts_entries(counts);
    let ghost c = counts_of(*counts);
    let mut mode: u32 = 0;
    let mut mode_count: u64 = 0;
    let mut i: usize = 0;
    while i < entries.len()
        invariant
            i <= entries.len(),
            forall|k: int| 0 <= k < entries@.len() ==> c.contains_pair((#[trigger] entries@[k]).0, entries@[k].1),
            i == 0 ==> mode == 0 && mode_count == 0,
            i > 0 ==> exists|k: int| 0 <= k < i && #[trigger] entries@[k] == (mode, mode_count),
            forall|k: int|
                0 <= k < i ==> (#[trigger] entries@[k]).1 < mode_count || (entries@[k].1 == mode_count && mode
                    <= entries@[k].0),
        decreases entries.len() - i,
    {
        let (length, tally) = entries[i];
        proof {
            if i > 0 {
                let k = choose|k: int| 0 <= k < i && #[trigger] entries@[k] == (mode, mode_count);
                assert(entries@[k] == (mode, mode_count));
            }
        }
        if i == 0 || tally > mode_count || (tally == mode_count && length < mode) {
            mode = length;
            mode_count = tally;
        }
        i += 1;
    }
    proof {
        if c.dom().is_empty() {
            if entries@.len() > 0 {
                assert(c.contains_pair(entries@[0].0, entries@[0].1));
            }
        } else {
            let k0 = choose|k: u32| c.dom().contains(k);
            assert(c.dom().contains(k0));
            let j0 = choose|j: int| 0 <= j < entries@.len() && (#[trigger] entries@[j]).0 == k0;
            let k = choose|k: int| 0 <= k < i && #[trigger] entries@[k] == (mode, mode_count);
            assert(c.contains_pair(entries@[k].0, entries@[k].1));
            assert forall|x: u32| c.dom().contains(x) implies #[trigger] c[x] < mode_count || (c[x] == mode_count
                && mode <= x) by {
                let j = choose|j: int| 0 <= j < entries@.len() && (#[trigger] entries@[j]).0 == x;
                assert(c.contains_pair(entries@[j].0, entries@[j].1));
            }
        }
    }
    (mode, mode_count)
}

/// The distribution of path lengths over all ordered pairs of different
/// nodes of which the first has an entry and reaches the second.
///
/// `counts` holds each length that occurs with the number of pairs at that
/// distance, `total` is the number of all pairs, and the tallies add up to
/// it. `mode` is the most frequent length and `mode_count` its tally; where
/// several lengths are equally frequent, `mode` is the smallest, and where
/// there is no pair, both are 0.
pub fn calculate_normalized_separation_distribution(adjacency_list: &AdjacencyList) -> (r:
    SeparationDistribution)
    ensures
        forall|k: u32|
            counts_of(r.counts).dom().contains(k) <==> k > 0 && paths_of_length(
                adjacency_of(*adjacency_list),
                k as nat,
            ) > 0,
        forall|k: u32|
            k > 0 ==> #[trigger] count_at(counts_of(r.counts), k) == paths_of_length(
                adjacency_of(*adjacency_list),
                k as nat,
            ),
        r.total == total_path_count(adjacency_of(*adjacency_list)),
        r.total == count_total(counts_of(r.counts)),
        is_mode(counts_of(r.counts), r.mode, r.mode_count),
{
    let ghost g = adjacency_of(*adjacency_list);
    let nodes = adjacency_nodes(adjacency_list);
    let mut counts = length_counts_new();
    let mut total: u64 = 0;
    let mut i: usize = 0;
    proof {
        lemma_prefix_set_start(nodes@);
        lemma_set_sum_empty(source_weight(g, is_path()));
        lemma_set_sum_empty(crate::measures::tally_term(counts_of(counts)));
        assert(counts_of(counts).dom() =~= Set::<u32>::empty());
        assert forall|k: u32| k > 0 implies #[trigger] count_at(counts_of(counts), k) == set_sum(
            prefix_set(nodes@, 0),
            source_weight(g, has_length(k as nat)),
        ) by {
            lemma_set_sum_empty(source_weight(g, has_length(k as nat)));
        }
    }
    while i < nodes.len()
        invariant
            g == adjacency_of(*adjacency_list),
            i <= nodes.len(),
            nodes@.no_duplicates(),
            forall|v: i32| nodes@.contains(v) <==> g.dom().contains(v),
            prefix_set(nodes@, i as int).finite(),
            prefix_set(nodes@, i as int).len() == i,
            total == set_sum(prefix_set(nodes@, i as int), source_weight(g, is_path())),
            total <= i * 0xFFFF_FFFF,
            total == count_total(counts_of(counts)),
            !counts_of(counts).dom().contains(0),
            forall|k: u32| counts_of(counts).dom().contains(k) ==> #[trigger] counts_of(counts)[k] > 0,
            forall|k: u32|
                k > 0 ==> #[trigger] count_at(counts_of(counts), k) == set_sum(
                    prefix_set(nodes@, i as int),
                    source_weight(g, has_length(k as nat)),
                ),
        decreases nodes.len() - i,
    {
        let node = nodes[i];
        let ghost seen = prefix_set(nodes@, i as int);
        let ghost before = counts_of(counts);
        proof {
            assert(nodes@.contains(nodes@[i as int]));
            lemma_prefix_set_step(nodes@, i as int);
            lemma_set_sum_insert(seen, source_weight(g, is_path()), node);
            lemma_node_set_bounded(prefix_set(nodes@, i + 1));
        }
        match bfs(adjacency_list, node) {
            Some(distances) => {
                let paths = record_lengths(&mut counts, &distances);
                proof {
                    let m = distances_of(distances);
                    lemma_map_sum_from(g, node, m, is_path());
                    lemma_map_path_count(g, node, m);
                    assert forall|k: u32| k > 0 implies #[trigger] count_at(counts_of(counts), k) == set_sum(
                        prefix_set(nodes@, i + 1),
                        source_weight(g, has_length(k as nat)),
                    ) by {
                        lemma_map_sum_from(g, node, m, has_length(k as nat));
                        lemma_set_sum_insert(seen, source_weight(g, has_length(k as nat)), node);
                        assert(count_at(counts_of(counts), k) == count_at(before, k) + map_sum(
                            m,
                            has_length(k as nat),
                        ));
                    }
                }
                total = total + paths;
            },
            None => {
                proof {
                    assert(false);
                }
            },
        }
        i += 1;
    }
    proof {
        lemma_prefix_set_whole(nodes@, g.dom());
        assert forall|k: u32| counts_of(counts).dom().contains(k) <==> k > 0 && paths_of_length(g, k as nat)
            > 0 by {
            if k > 0 {
                assert(count_at(counts_of(counts), k) == paths_of_length(g, k as nat));
                if counts_of(counts).dom().contains(k) {
                    assert(counts_of(counts)[k] > 0);
                }
            }
        }
    }
    let (mode, mode_count) = most_frequent(&counts);
    SeparationDistribution { counts, total, mode, mode_count }
}

/// A small graph to try the library on: the path 1 - 2 - 3.
pub fn build_sample_network() -> (adj: AdjacencyList)
    ensures
        adjacency_of(adj) == edge_graph(seq![(1i32, 2i32), (2i32, 3i32)]),
        is_symmetric(adjacency_of(adj)),
{
    let mut adj = AdjacencyList::new();
    adj.add_edge(1, 2);
    adj.add_edge(2, 3);
    proof {
        let none = Seq::<(i32, i32)>::empty();
        assert(edge_graph(none) =~~= Map::<i32, Set<i32>>::empty());
        lemma_edge_graph_push(none, 1, 2);
        lemma_edge_graph_push(none.push((1i32, 2i32)), 2, 3);
        assert(none.push((1i32, 2i32)).push((2i32, 3i32)) =~= seq![(1i32, 2i32), (2i32, 3i32)]);
        lemma_edge_graph_symmetric(seq![(1i32, 2i32), (2i32, 3i32)]);
    }
    adj
}

} // verus!
