//! Walks, reachability and hop distance in a graph given as a map from each
//! node to the set of its neighbours.
//!
//! A node that occurs only as a neighbour, without an entry of its own, has
//! no onward edges.

use vstd::prelude::*;

verus! {

/// The mathematical graph: every node with an entry, mapped to its neighbours.
pub type Graph = Map<i32, Set<i32>>;

/// `v` is recorded as a neighbour of `u`.
pub open spec fn has_edge(g: Graph, u: i32, v: i32) -> bool {
    g.dom().contains(u) && g[u].contains(v)
}

/// Every edge is recorded in both directions.
pub open spec fn is_symmetric(g: Graph) -> bool {
    forall|u: i32, v: i32| #[trigger] has_edge(g, u, v) ==> has_edge(g, v, u)
}

/// No node has a neighbour.
pub open spec fn is_edgeless(g: Graph) -> bool {
    forall|u: i32, v: i32| !#[trigger] has_edge(g, u, v)
}

/// A non-empty sequence of nodes in which each is followed by one of its
/// neighbours.
pub open spec fn is_walk(g: Graph, p: Seq<i32>) -> bool {
    &&& p.len() > 0
    &&& forall|i: int| 0 <= i < p.len() - 1 ==> has_edge(g, #[trigger] p[i], p[i + 1])
}

/// `p` is a walk of `n` edges that starts at `u` and ends at `v`.
pub open spec fn is_walk_between(g: Graph, p: Seq<i32>, u: i32, v: i32, n: nat) -> bool {
    &&& is_walk(g, p)
    &&& p.len() == n + 1
    &&& p[0] == u
    &&& p[n as int] == v
}

/// Some walk of exactly `n` edges leads from `u` to `v`.
pub open spec fn reachable_in(g: Graph, u: i32, v: i32, n: nat) -> bool {
    exists|p: Seq<i32>| is_walk_between(g, p, u, v, n)
}

/// Some walk leads from `u` to `v`. Every node reaches itself.
pub open spec fn reachable(g: Graph, u: i32, v: i32) -> bool {
    exists|n: nat| reachable_in(g, u, v, n)
}

/// `d` is the least number of edges on a walk from `u` to `v`.
pub open spec fn is_distance(g: Graph, u: i32, v: i32, d: nat) -> bool {
    &&& reachable_in(g, u, v, d)
    &&& forall|n: nat| n < d ==> !reachable_in(g, u, v, n)
}

/// The hop distance from `u` to `v`; meaningful where `v` is reachable from `u`.
pub open spec fn distance(g: Graph, u: i32, v: i32) -> nat {
    choose|d: nat| is_distance(g, u, v, d)
}

/// The nodes reachable from `u`.
pub open spec fn reach_set(g: Graph, u: i32) -> Set<i32> {
    Set::new(|v: i32| reachable(g, u, v))
}

/// Any two nodes with an entry reach each other.
pub open spec fn is_connected(g: Graph) -> bool {
    forall|u: i32, v: i32| g.dom().contains(u) && g.dom().contains(v) ==> reachable(g, u, v)
}

/// `m` holds exactly the nodes reachable from `source`, each with its hop
/// distance.
pub open spec fn is_distance_map(g: Graph, source: i32, m: Map<i32, u32>) -> bool {
    &&& forall|v: i32| m.dom().contains(v) <==> reachable(g, source, v)
    &&& forall|v: i32| m.dom().contains(v) ==> #[trigger] m[v] as nat == distance(g, source, v)
}

/// A node reaches itself in no steps.
pub proof fn lemma_reachable_self(g: Graph, u: i32)
    ensures
        reachable_in(g, u, u, 0),
        reachable(g, u, u),
        is_distance(g, u, u, 0),
{
    let zero: nat = 0;
    assert(is_walk_between(g, seq![u], u, u, zero));
    assert(reachable_in(g, u, u, zero));
}

/// A walk of no edges ends where it starts.
pub proof fn lemma_reachable_in_zero(g: Graph, u: i32, v: i32)
    requires
        reachable_in(g, u, v, 0),
    ensures
        u == v,
{
}

/// A walk can be prolonged by an edge out of its last node.
pub proof fn lemma_reachable_extend(g: Graph, u: i32, v: i32, w: i32, n: nat)
    requires
        reachable_in(g, u, v, n),
        has_edge(g, v, w),
    ensures
        reachable_in(g, u, w, n + 1),
{
    let p = choose|p: Seq<i32>| is_walk_between(g, p, u, v, n);
    let q = p.push(w);
    assert forall|i: int| 0 <= i < q.len() - 1 implies has_edge(g, #[trigger] q[i], q[i + 1]) by {
        if i < p.len() - 1 {
            assert(has_edge(g, p[i], p[i + 1]));
        }
    }
    assert(is_walk_between(g, q, u, w, n + 1));
}

/// A walk of at least one edge reaches its end through a neighbour one step
/// earlier.
pub proof fn lemma_reachable_last_step(g: Graph, u: i32, v: i32, n: nat) -> (x: i32)
    requires
        reachable_in(g, u, v, n + 1),
    ensures
        reachable_in(g, u, x, n),
        has_edge(g, x, v),
{
    let m: nat = n + 1;
    let p = choose|p: Seq<i32>| is_walk_between(g, p, u, v, m);
    let q = p.drop_last();
    let x = p[n as int];
    assert forall|i: int| 0 <= i < q.len() - 1 implies has_edge(g, #[trigger] q[i], q[i + 1]) by {
        assert(has_edge(g, p[i], p[i + 1]));
    }
    assert(is_walk_between(g, q, u, x, n));
    assert(has_edge(g, p[n as int], p[n as int + 1]));
    x
}

/// Among the lengths of walks from `u` to `v` there is a least one.
proof fn lemma_least_length(g: Graph, u: i32, v: i32, n: nat) -> (d: nat)
    requires
        reachable_in(g, u, v, n),
    ensures
        d <= n,
        is_distance(g, u, v, d),
    decreases n,
{
    if exists|k: nat| k < n && reachable_in(g, u, v, k) {
        let k = choose|k: nat| k < n && reachable_in(g, u, v, k);
        lemma_least_length(g, u, v, k)
    } else {
        n
    }
}

/// Two least lengths are the same.
pub proof fn lemma_distance_unique(g: Graph, u: i32, v: i32, d1: nat, d2: nat)
    requires
        is_distance(g, u, v, d1),
        is_distance(g, u, v, d2),
    ensures
        d1 == d2,
{
}

/// Where `v` is reachable from `u`, `distance` is the least walk length.
pub proof fn lemma_distance_is_least(g: Graph, u: i32, v: i32)
    requires
        reachable(g, u, v),
    ensures
        is_distance(g, u, v, distance(g, u, v)),
{
    let n = choose|n: nat| reachable_in(g, u, v, n);
    let d = lemma_least_length(g, u, v, n);
}

/// A least walk length is the distance.
pub proof fn lemma_distance_characterised(g: Graph, u: i32, v: i32, d: nat)
    requires
        is_distance(g, u, v, d),
    ensures
        reachable(g, u, v),
        distance(g, u, v) == d,
{
    lemma_distance_is_least(g, u, v);
    lemma_distance_unique(g, u, v, d, distance(g, u, v));
}

/// A set that holds `source` and every neighbour of each of its members holds
/// every node reachable from `source`.
pub proof fn lemma_closed_set_holds_reachable(g: Graph, source: i32, closed: Set<i32>, v: i32, n: nat)
    requires
        closed.contains(source),
        forall|x: i32, w: i32| closed.contains(x) && #[trigger] has_edge(g, x, w) ==> closed.contains(w),
        reachable_in(g, source, v, n),
    ensures
        closed.contains(v),
    decreases n,
{
    if n == 0 {
        lemma_reachable_in_zero(g, source, v);
    } else {
        let x = lemma_reachable_last_step(g, source, v, (n - 1) as nat);
        lemma_closed_set_holds_reachable(g, source, closed, x, (n - 1) as nat);
    }
}

/// In a symmetric graph a walk can be walked backwards.
pub proof fn lemma_reachable_in_symmetric(g: Graph, u: i32, v: i32, n: nat)
    requires
        is_symmetric(g),
        reachable_in(g, u, v, n),
    ensures
        reachable_in(g, v, u, n),
{
    let p = choose|p: Seq<i32>| is_walk_between(g, p, u, v, n);
    let q = Seq::new(p.len(), |i: int| p[n - i]);
    assert forall|i: int| 0 <= i < q.len() - 1 implies has_edge(g, #[trigger] q[i], q[i + 1]) by {
        assert(has_edge(g, p[n - i - 1], p[n - i - 1 + 1]));
    }
    assert(is_walk_between(g, q, v, u, n));
}

/// Every set of node identifiers is finite and has at most 2^32 members.
pub proof fn lemma_node_set_bounded(s: Set<i32>)
    ensures
        s.finite(),
        s.len() <= 0x1_0000_0000,
{
    let full = Set::<i32>::full();
    broadcast use vstd::set_lib::full_set_properties;
    vstd::set_lib::range_set_properties::<i32>(i32::MIN, i32::MAX);
    assert(full.finite());
    assert(full =~= Set::<i32>::range_inclusive(i32::MIN, i32::MAX));
    assert(s.subset_of(full));
    vstd::set_lib::lemma_len_subset(s, full);
}

} // verus!
