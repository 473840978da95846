//! Laws that relate the results of the library's functions to each other and
//! to the shape of the graph.

use vstd::prelude::*;
use crate::graph::{
    Graph, has_edge, is_symmetric, is_edgeless, is_connected, is_walk_between, reachable_in,
    reachable, is_distance, distance, is_distance_map, lemma_reachable_self,
    lemma_reachable_in_zero, lemma_reachable_last_step, lemma_reachable_in_symmetric,
    lemma_distance_is_least, lemma_distance_characterised,
};
use crate::measures::{
    eccentricity, eccentricities, is_greatest_distance, is_greatest_eccentricity, max_separation,
    lemma_eccentricity_characterised, lemma_max_separation,
};

verus! {

/// In a connected graph, the distance map of a node with an entry holds
/// every node with an entry, and the node itself at distance 0.
pub proof fn lemma_connected_search_spans(g: Graph, source: i32, m: Map<i32, u32>)
    requires
        is_connected(g),
        g.dom().contains(source),
        is_distance_map(g, source, m),
    ensures
        forall|v: i32| g.dom().contains(v) ==> m.dom().contains(v),
        m.dom().contains(source),
        m[source] == 0,
{
    lemma_reachable_self(g, source);
    lemma_distance_characterised(g, source, source, 0);
    assert(m.dom().contains(source));
    assert(m[source] as nat == distance(g, source, source));
    assert forall|v: i32| g.dom().contains(v) implies m.dom().contains(v) by {
        assert(reachable(g, source, v));
    }
}

/// In a symmetric graph, every node reachable from a node with an entry has
/// an entry of its own.
pub proof fn lemma_symmetric_reach_has_entry(g: Graph, u: i32, v: i32)
    requires
        is_symmetric(g),
        g.dom().contains(u),
        reachable(g, u, v),
    ensures
        g.dom().contains(v),
{
    let n = choose|n: nat| reachable_in(g, u, v, n);
    if n == 0 {
        lemma_reachable_in_zero(g, u, v);
    } else {
        let x = lemma_reachable_last_step(g, u, v, (n - 1) as nat);
        assert(has_edge(g, v, x));
    }
}

/// In a connected symmetric graph, the distance map of a node with an entry
/// holds exactly the nodes with an entry.
pub proof fn lemma_connected_search_covers(g: Graph, source: i32, m: Map<i32, u32>)
    requires
        is_symmetric(g),
        is_connected(g),
        g.dom().contains(source),
        is_distance_map(g, source, m),
    ensures
        m.dom() == g.dom(),
{
    assert forall|v: i32| m.dom().contains(v) <==> g.dom().contains(v) by {
        if m.dom().contains(v) {
            lemma_symmetric_reach_has_entry(g, source, v);
        }
        if g.dom().contains(v) {
            assert(reachable(g, source, v));
        }
    }
    assert(m.dom() =~= g.dom());
}

/// In a symmetric graph, reachability and distance do not depend on the
/// direction.
pub proof fn lemma_distance_symmetric(g: Graph, u: i32, v: i32)
    requires
        is_symmetric(g),
        reachable(g, u, v),
    ensures
        reachable(g, v, u),
        distance(g, u, v) == distance(g, v, u),
{
    lemma_distance_is_least(g, u, v);
    let d = distance(g, u, v);
    lemma_reachable_in_symmetric(g, u, v, d);
    assert forall|n: nat| n < d implies !reachable_in(g, v, u, n) by {
        if reachable_in(g, v, u, n) {
            lemma_reachable_in_symmetric(g, v, u, n);
        }
    }
    assert(is_distance(g, v, u, d));
    lemma_distance_characterised(g, v, u, d);
}

/// In a symmetric graph, where the search from `u` finds `v`, the search
/// from `v` finds `u`, at the same distance.
pub proof fn lemma_search_symmetric(
    g: Graph,
    u: i32,
    v: i32,
    from_u: Map<i32, u32>,
    from_v: Map<i32, u32>,
)
    requires
        is_symmetric(g),
        is_distance_map(g, u, from_u),
        is_distance_map(g, v, from_v),
        from_u.dom().contains(v),
    ensures
        from_v.dom().contains(u),
        from_u[v] == from_v[u],
{
    lemma_distance_symmetric(g, u, v);
    assert(from_v.dom().contains(u));
    assert(from_u[v] as nat == distance(g, u, v));
    assert(from_v[u] as nat == distance(g, v, u));
}

/// In a graph without edges, a node reaches only itself.
pub proof fn lemma_edgeless_reach(g: Graph, u: i32, v: i32)
    requires
        is_edgeless(g),
        reachable(g, u, v),
    ensures
        u == v,
{
    let n = choose|n: nat| reachable_in(g, u, v, n);
    let p = choose|p: Seq<i32>| is_walk_between(g, p, u, v, n);
    if n > 0 {
        assert(has_edge(g, p[0int], p[0int + 1]));
    }
}

/// In a graph without edges, every node has eccentricity 0.
pub proof fn lemma_edgeless_eccentricity(g: Graph, u: i32)
    requires
        is_edgeless(g),
    ensures
        eccentricity(g, u) == 0,
{
    lemma_reachable_self(g, u);
    lemma_distance_characterised(g, u, u, 0);
    assert forall|v: i32| reachable(g, u, v) implies #[trigger] distance(g, u, v) <= 0 by {
        lemma_edgeless_reach(g, u, v);
    }
    assert(is_greatest_distance(g, u, 0));
    lemma_eccentricity_characterised(g, u, 0);
}

/// In a graph with nodes and without edges, the maximum degree of separation
/// is 0 and there is one eccentricity, 0, whatever the number of nodes: the
/// number of distinct eccentricities is the number of nodes only where there
/// is a single node.
pub proof fn lemma_edgeless_separation(g: Graph)
    requires
        is_edgeless(g),
        !g.dom().is_empty(),
    ensures
        max_separation(g) == 0,
        eccentricities(g) == Set::<nat>::empty().insert(0),
        eccentricities(g).len() == 1,
        eccentricities(g).len() == g.dom().len() <==> g.dom().len() == 1,
{
    let u = choose|u: i32| g.dom().contains(u);
    assert(g.dom().contains(u));
    lemma_edgeless_eccentricity(g, u);
    let zero: nat = 0;
    assert(eccentricities(g).contains(zero));
    assert forall|x: nat| eccentricities(g).contains(x) implies x == 0 by {
        let w = choose|w: i32| g.dom().contains(w) && x == eccentricity(g, w);
        lemma_edgeless_eccentricity(g, w);
    }
    assert(eccentricities(g) =~= Set::<nat>::empty().insert(zero));
    assert(is_greatest_eccentricity(g, zero));
    lemma_max_separation(g, zero);
}

} // verus!
