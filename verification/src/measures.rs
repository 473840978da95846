//! What the separation statistics of a graph are, stated over walks and
//! distances.
//!
//! Every statistic is taken over the ordered pairs `(u, v)` in which `u` has
//! an entry in the graph and `v` is reachable from `u`. A pair and its
//! reverse both count, and so does every pair `(u, u)`, at distance 0.

use vstd::prelude::*;
use crate::graph::{
    Graph, reachable, distance, reach_set, is_distance_map, lemma_reachable_self,
    lemma_distance_is_least, lemma_distance_characterised, lemma_node_set_bounded,
};
use crate::sums::{set_sum, lemma_set_sum_agree, lemma_set_sum_bounds, lemma_set_sum_remove};

verus! {

/// Weighs a pair by its distance.
pub open spec fn path_length() -> spec_fn(nat) -> int {
    |d: nat| d as int
}

/// Weighs a pair by the square of its distance.
pub open spec fn squared_length() -> spec_fn(nat) -> int {
    |d: nat| (d * d) as int
}

/// Counts the pairs of two different nodes.
pub open spec fn is_path() -> spec_fn(nat) -> int {
    |d: nat| if d > 0 { 1int } else { 0int }
}

/// Counts the pairs at distance `k`.
pub open spec fn has_length(k: nat) -> spec_fn(nat) -> int {
    |d: nat| if d == k { 1int } else { 0int }
}

/// The weight of each entry of a distance map.
pub open spec fn entry_weight(m: Map<i32, u32>, w: spec_fn(nat) -> int) -> spec_fn(i32) -> int {
    |v: i32| w(m[v] as nat)
}

/// The sum of `w(distance)` over the entries of a distance map.
pub open spec fn map_sum(m: Map<i32, u32>, w: spec_fn(nat) -> int) -> int {
    set_sum(m.dom(), entry_weight(m, w))
}

/// The weight of each node by its distance from `u`.
pub open spec fn target_weight(g: Graph, u: i32, w: spec_fn(nat) -> int) -> spec_fn(i32) -> int {
    |v: i32| w(distance(g, u, v))
}

/// The sum of `w(distance(u, v))` over the nodes `v` reachable from `u`.
pub open spec fn sum_from(g: Graph, u: i32, w: spec_fn(nat) -> int) -> int {
    set_sum(reach_set(g, u), target_weight(g, u, w))
}

/// The sum taken from each node.
pub open spec fn source_weight(g: Graph, w: spec_fn(nat) -> int) -> spec_fn(i32) -> int {
    |u: i32| sum_from(g, u, w)
}

/// The sum of `w(distance(u, v))` over all pairs of a node `u` with an entry
/// and a node `v` reachable from it.
pub open spec fn sum_all(g: Graph, w: spec_fn(nat) -> int) -> int {
    set_sum(g.dom(), source_weight(g, w))
}

/// The number of ordered pairs of different nodes joined by a walk.
pub open spec fn total_path_count(g: Graph) -> int {
    sum_all(g, is_path())
}

/// The sum of the distances of all ordered pairs.
pub open spec fn total_path_length(g: Graph) -> int {
    sum_all(g, path_length())
}

/// The sum of the squared distances of all ordered pairs.
pub open spec fn total_squared_length(g: Graph) -> int {
    sum_all(g, squared_length())
}

/// The number of ordered pairs at distance `k`.
pub open spec fn paths_of_length(g: Graph, k: nat) -> int {
    sum_all(g, has_length(k))
}

/// `e` is the greatest distance from `u` to a node reachable from it.
pub open spec fn is_greatest_distance(g: Graph, u: i32, e: nat) -> bool {
    &&& exists|v: i32| reachable(g, u, v) && #[trigger] distance(g, u, v) == e
    &&& forall|v: i32| reachable(g, u, v) ==> #[trigger] distance(g, u, v) <= e
}

/// The eccentricity of `u`: the greatest distance from `u` to a node
/// reachable from it.
pub open spec fn eccentricity(g: Graph, u: i32) -> nat {
    choose|e: nat| is_greatest_distance(g, u, e)
}

/// The eccentricities that occur among the nodes with an entry.
pub open spec fn eccentricities(g: Graph) -> Set<nat> {
    g.dom().map(|u: i32| eccentricity(g, u))
}

/// The eccentricity of each node, as a term of a sum.
pub open spec fn eccentricity_term(g: Graph) -> spec_fn(i32) -> int {
    |u: i32| eccentricity(g, u) as int
}

/// The sum of the eccentricities of the nodes with an entry.
pub open spec fn total_eccentricity(g: Graph) -> int {
    set_sum(g.dom(), eccentricity_term(g))
}

/// `e` is the greatest eccentricity in the graph.
pub open spec fn is_greatest_eccentricity(g: Graph, e: nat) -> bool {
    &&& eccentricities(g).contains(e)
    &&& forall|x: nat| eccentricities(g).contains(x) ==> x <= e
}

/// The maximum degree of separation: the greatest eccentricity, and 0 for a
/// graph without nodes.
pub open spec fn max_separation(g: Graph) -> nat {
    if g.dom().is_empty() {
        0
    } else {
        choose|e: nat| is_greatest_eccentricity(g, e)
    }
}

/// `r` is the greatest value in `m`, or 0 where `m` has no entries.
pub open spec fn is_greatest_value(m: Map<i32, u32>, r: u32) -> bool {
    if m.dom().is_empty() {
        r == 0
    } else {
        &&& exists|v: i32| m.dom().contains(v) && #[trigger] m[v] == r
        &&& forall|v: i32| m.dom().contains(v) ==> #[trigger] m[v] <= r
    }
}

/// A sum over a distance map of `source` is the sum over the nodes reachable
/// from `source`.
pub proof fn lemma_map_sum_from(g: Graph, source: i32, m: Map<i32, u32>, w: spec_fn(nat) -> int)
    requires
        is_distance_map(g, source, m),
    ensures
        map_sum(m, w) == sum_from(g, source, w),
{
    assert(m.dom() =~= reach_set(g, source));
    lemma_node_set_bounded(m.dom());
    lemma_set_sum_agree(m.dom(), entry_weight(m, w), target_weight(g, source, w));
}

/// The greatest value in a distance map of `source` is the eccentricity of
/// `source`.
pub proof fn lemma_greatest_value_eccentricity(g: Graph, source: i32, m: Map<i32, u32>, r: u32)
    requires
        is_distance_map(g, source, m),
        is_greatest_value(m, r),
    ensures
        is_greatest_distance(g, source, r as nat),
        eccentricity(g, source) == r,
{
    lemma_reachable_self(g, source);
    assert(m.dom().contains(source));
    let v = choose|v: i32| m.dom().contains(v) && #[trigger] m[v] == r;
    assert(reachable(g, source, v) && distance(g, source, v) == r as nat);
    assert forall|x: i32| reachable(g, source, x) implies #[trigger] distance(g, source, x) <= r as nat by {
        assert(m.dom().contains(x));
        assert(m[x] <= r);
    }
    lemma_eccentricity_characterised(g, source, r as nat);
}

/// A greatest distance from `u` is the eccentricity of `u`.
pub proof fn lemma_eccentricity_characterised(g: Graph, u: i32, e: nat)
    requires
        is_greatest_distance(g, u, e),
    ensures
        eccentricity(g, u) == e,
{
    let c = eccentricity(g, u);
    assert(is_greatest_distance(g, u, c));
    let vc = choose|v: i32| reachable(g, u, v) && #[trigger] distance(g, u, v) == c;
    let ve = choose|v: i32| reachable(g, u, v) && #[trigger] distance(g, u, v) == e;
    assert(distance(g, u, vc) <= e);
    assert(distance(g, u, ve) <= c);
}

/// A distance map of `source` has `source` at distance 0, so of its entries
/// at least one is no path.
pub proof fn lemma_map_path_count(g: Graph, source: i32, m: Map<i32, u32>)
    requires
        is_distance_map(g, source, m),
    ensures
        m.dom().contains(source),
        m[source] == 0,
        0 <= map_sum(m, is_path()) <= m.dom().len() - 1,
        m.dom().len() <= 0x1_0000_0000,
{
    lemma_reachable_self(g, source);
    lemma_distance_characterised(g, source, source, 0);
    assert(m.dom().contains(source));
    assert(m[source] as nat == distance(g, source, source));
    lemma_node_set_bounded(m.dom());
    let f = entry_weight(m, is_path());
    lemma_set_sum_remove(m.dom(), f, source);
    lemma_set_sum_bounds(m.dom().remove(source), f, 0, 1);
}

/// Every set of lengths is finite.
pub proof fn lemma_length_set_finite(s: Set<u32>)
    ensures
        s.finite(),
{
    broadcast use vstd::set_lib::full_set_properties;
    let full = Set::<u32>::full();
    assert(full.finite());
    assert(s.subset_of(full));
    vstd::set_lib::lemma_len_subset(s, full);
}

/// The tally of path length `k`, and 0 where none is recorded.
pub open spec fn count_at(c: Map<u32, u64>, k: u32) -> int {
    if c.dom().contains(k) {
        c[k] as int
    } else {
        0
    }
}

/// The tally of each recorded path length, as a term of a sum.
pub open spec fn tally_term(c: Map<u32, u64>) -> spec_fn(u32) -> int {
    |k: u32| c[k] as int
}

/// The sum of all tallies.
pub open spec fn count_total(c: Map<u32, u64>) -> int {
    set_sum(c.dom(), tally_term(c))
}

/// `mode` is the path length with the greatest tally, the smallest such
/// length where several share it, and `mode_count` is its tally; both are 0
/// where nothing is recorded.
pub open spec fn is_mode(c: Map<u32, u64>, mode: u32, mode_count: u64) -> bool {
    if c.dom().is_empty() {
        mode == 0 && mode_count == 0
    } else {
        &&& c.dom().contains(mode)
        &&& c[mode] == mode_count
        &&& forall|k: u32|
            c.dom().contains(k) ==> #[trigger] c[k] < mode_count || (c[k] == mode_count && mode <= k)
    }
}

/// No tally exceeds the sum of all tallies.
pub proof fn lemma_count_at_bounded(c: Map<u32, u64>, k: u32)
    ensures
        0 <= count_at(c, k) <= count_total(c),
{
    lemma_length_set_finite(c.dom());
    let rest = c.dom().remove(k);
    lemma_length_set_finite(rest);
    lemma_set_sum_bounds(rest, tally_term(c), 0, u64::MAX as int);
    assert(0 * rest.len() == 0);
    if c.dom().contains(k) {
        lemma_set_sum_remove(c.dom(), tally_term(c), k);
    } else {
        assert(rest =~= c.dom());
    }
}

/// Raising the tally of one length by 1 raises the sum of all tallies by 1.
pub proof fn lemma_count_total_bump(c: Map<u32, u64>, k: u32)
    requires
        count_at(c, k) < u64::MAX,
    ensures
        count_total(c.insert(k, (count_at(c, k) + 1) as u64)) == count_total(c) + 1,
{
    let c2 = c.insert(k, (count_at(c, k) + 1) as u64);
    lemma_length_set_finite(c.dom());
    lemma_length_set_finite(c2.dom());
    let rest = c.dom().remove(k);
    lemma_length_set_finite(rest);
    lemma_set_sum_agree(rest, tally_term(c), tally_term(c2));
    assert(c2.dom().remove(k) =~= rest);
    lemma_set_sum_remove(c2.dom(), tally_term(c2), k);
    if c.dom().contains(k) {
        lemma_set_sum_remove(c.dom(), tally_term(c), k);
    } else {
        assert(rest =~= c.dom());
    }
}

/// A greatest eccentricity is the maximum degree of separation.
pub proof fn lemma_max_separation(g: Graph, e: nat)
    requires
        is_greatest_eccentricity(g, e),
    ensures
        max_separation(g) == e,
{
    let u = choose|u: i32| g.dom().contains(u) && e == eccentricity(g, u);
    assert(g.dom().contains(u));
    let c = choose|c: nat| is_greatest_eccentricity(g, c);
    assert(is_greatest_eccentricity(g, c));
}

} // verus!
