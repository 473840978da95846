//! The invariant of breadth-first search and the proof that each step of the
//! search keeps it.
//!
//! The search holds a set of visited nodes, a map of settled distances and a
//! queue of nodes whose distance is known but whose neighbours are still to
//! be looked at. The queue is ordered by distance and spans at most two
//! consecutive distances; every node within the distance at the head of the
//! queue has been visited already.

use vstd::prelude::*;
use crate::graph::{
    Graph, has_edge, reachable_in, reachable, is_distance, is_distance_map,
    lemma_reachable_self, lemma_reachable_in_zero, lemma_reachable_extend,
    lemma_reachable_last_step, lemma_closed_set_holds_reachable, lemma_distance_characterised,
    lemma_node_set_bounded,
};

verus! {

/// `v` waits in the queue.
pub open spec fn queued(q: Seq<(i32, u32)>, v: i32) -> bool {
    exists|j: int| 0 <= j < q.len() && (#[trigger] q[j]).0 == v
}

/// Every node within `d` steps of the source has been visited.
pub open spec fn level_visited(g: Graph, s: i32, vis: Set<i32>, d: nat) -> bool {
    forall|v: i32, n: nat| n <= d && #[trigger] reachable_in(g, s, v, n) ==> vis.contains(v)
}

/// What holds of the search at every moment.
pub open spec fn settled(g: Graph, s: i32, vis: Set<i32>, dist: Map<i32, u32>, q: Seq<(i32, u32)>) -> bool {
    &&& vis.contains(s)
    &&& forall|v: i32| #[trigger] vis.contains(v) ==> dist.dom().contains(v) || queued(q, v)
    &&& forall|v: i32| #[trigger] dist.dom().contains(v) ==> is_distance(g, s, v, dist[v] as nat)
    &&& forall|j: int| 0 <= j < q.len() ==> is_distance(g, s, (#[trigger] q[j]).0, q[j].1 as nat)
    &&& forall|i: int, j: int| 0 <= i <= j < q.len() ==> (#[trigger] q[i]).1 <= (#[trigger] q[j]).1
    &&& forall|j: int| 0 <= j < q.len() ==> (#[trigger] q[j]).1 < vis.len()
}

/// What holds between two nodes taken from the queue.
pub open spec fn between_nodes(g: Graph, s: i32, vis: Set<i32>, dist: Map<i32, u32>, q: Seq<(i32, u32)>) -> bool {
    &&& settled(g, s, vis, dist, q)
    &&& forall|x: i32, w: i32| dist.dom().contains(x) && #[trigger] has_edge(g, x, w) ==> vis.contains(w)
    &&& q.len() > 0 ==> {
        &&& q[q.len() - 1].1 <= q[0].1 + 1
        &&& level_visited(g, s, vis, q[0].1 as nat)
    }
}

/// What holds while the neighbours of `u`, at distance `d`, are looked at;
/// `seen` are the neighbours looked at so far.
pub open spec fn within_node(
    g: Graph,
    s: i32,
    vis: Set<i32>,
    dist: Map<i32, u32>,
    q: Seq<(i32, u32)>,
    u: i32,
    d: u32,
    seen: Set<i32>,
) -> bool {
    &&& settled(g, s, vis, dist, q)
    &&& dist.dom().contains(u)
    &&& dist[u] == d
    &&& d < vis.len()
    &&& forall|x: i32, w: i32|
        dist.dom().contains(x) && x != u && #[trigger] has_edge(g, x, w) ==> vis.contains(w)
    &&& forall|w: i32| #[trigger] seen.contains(w) ==> vis.contains(w)
    &&& forall|j: int| 0 <= j < q.len() ==> d <= (#[trigger] q[j]).1 <= d + 1
    &&& level_visited(g, s, vis, d as nat)
}

/// The search starts with the source visited and queued at distance 0.
pub proof fn lemma_search_start(g: Graph, s: i32)
    ensures
        between_nodes(g, s, Set::<i32>::empty().insert(s), Map::<i32, u32>::empty(), seq![(s, 0u32)]),
{
    let vis = Set::<i32>::empty().insert(s);
    let q = seq![(s, 0u32)];
    lemma_reachable_self(g, s);
    assert(q[0].0 == s);
    assert(queued(q, s));
    assert(vis.len() == 1);
    assert forall|v: i32, n: nat| n <= 0 && #[trigger] reachable_in(g, s, v, n) implies vis.contains(v) by {
        lemma_reachable_in_zero(g, s, v);
    }
}

/// Taking the head of the queue and settling its distance.
pub proof fn lemma_search_pop(g: Graph, s: i32, vis: Set<i32>, dist: Map<i32, u32>, q: Seq<(i32, u32)>)
    requires
        between_nodes(g, s, vis, dist, q),
        q.len() > 0,
    ensures
        within_node(
            g,
            s,
            vis,
            dist.insert(q[0].0, q[0].1),
            q.subrange(1, q.len() as int),
            q[0].0,
            q[0].1,
            Set::empty(),
        ),
{
    let u = q[0].0;
    let d = q[0].1;
    let dist2 = dist.insert(u, d);
    let q2 = q.subrange(1, q.len() as int);
    assert forall|v: i32| #[trigger] vis.contains(v) implies dist2.dom().contains(v) || queued(q2, v) by {
        if !dist.dom().contains(v) {
            let j = choose|j: int| 0 <= j < q.len() && (#[trigger] q[j]).0 == v;
            if j > 0 {
                assert(q2[j - 1].0 == v);
            }
        }
    }
    assert forall|j: int| 0 <= j < q2.len() implies d <= (#[trigger] q2[j]).1 <= d + 1 by {
        assert(q2[j] == q[j + 1]);
        assert(q[0].1 <= q[j + 1].1);
        assert(q[j + 1].1 <= q[q.len() - 1].1);
    }
    assert forall|i: int, j: int| 0 <= i <= j < q2.len() implies (#[trigger] q2[i]).1 <= (#[trigger] q2[j]).1 by {
        assert(q2[i] == q[i + 1]);
        assert(q2[j] == q[j + 1]);
    }
    assert forall|j: int| 0 <= j < q2.len() implies is_distance(g, s, (#[trigger] q2[j]).0, q2[j].1 as nat)
        && q2[j].1 < vis.len() by {
        assert(q2[j] == q[j + 1]);
    }
}

/// Looking at a neighbour that has been visited before.
pub proof fn lemma_search_skip(
    g: Graph,
    s: i32,
    vis: Set<i32>,
    dist: Map<i32, u32>,
    q: Seq<(i32, u32)>,
    u: i32,
    d: u32,
    seen: Set<i32>,
    w: i32,
)
    requires
        within_node(g, s, vis, dist, q, u, d, seen),
        vis.contains(w),
    ensures
        within_node(g, s, vis, dist, q, u, d, seen.insert(w)),
{
}

/// Looking at a neighbour that has not been visited: it lies one step
/// further than `u`, and that distance fits the queue's integer type.
pub proof fn lemma_search_push(
    g: Graph,
    s: i32,
    vis: Set<i32>,
    dist: Map<i32, u32>,
    q: Seq<(i32, u32)>,
    u: i32,
    d: u32,
    seen: Set<i32>,
    w: i32,
)
    requires
        within_node(g, s, vis, dist, q, u, d, seen),
        has_edge(g, u, w),
        !vis.contains(w),
    ensures
        d < u32::MAX,
        vis.insert(w).len() == vis.len() + 1,
        within_node(g, s, vis.insert(w), dist, q.push((w, (d + 1) as u32)), u, d, seen.insert(w)),
{
    lemma_node_set_bounded(vis);
    lemma_node_set_bounded(vis.insert(w));
    let vis2 = vis.insert(w);
    let e = (d + 1) as u32;
    let q2 = q.push((w, e));
    assert(is_distance(g, s, w, e as nat)) by {
        lemma_reachable_extend(g, s, u, w, d as nat);
        assert forall|n: nat| n < e implies !reachable_in(g, s, w, n) by {
            if reachable_in(g, s, w, n) {
                assert(vis.contains(w));
            }
        }
    }
    assert forall|v: i32| #[trigger] vis2.contains(v) implies dist.dom().contains(v) || queued(q2, v) by {
        if v == w {
            assert(q2[q.len() as int].0 == w);
        } else if !dist.dom().contains(v) {
            let j = choose|j: int| 0 <= j < q.len() && (#[trigger] q[j]).0 == v;
            assert(q2[j].0 == v);
        }
    }
    assert forall|j: int| 0 <= j < q2.len() implies is_distance(g, s, (#[trigger] q2[j]).0, q2[j].1 as nat)
        && q2[j].1 < vis2.len() && d <= q2[j].1 <= d + 1 by {
        if j < q.len() {
            assert(q2[j] == q[j]);
        }
    }
    assert forall|i: int, j: int| 0 <= i <= j < q2.len() implies (#[trigger] q2[i]).1 <= (#[trigger] q2[j]).1 by {
        if j < q.len() {
            assert(q2[i] == q[i]);
            assert(q2[j] == q[j]);
        } else if i < q.len() {
            assert(q2[i] == q[i]);
        }
    }
}

/// Once every neighbour of `u` has been looked at, the search is between
/// nodes again.
pub proof fn lemma_search_next(
    g: Graph,
    s: i32,
    vis: Set<i32>,
    dist: Map<i32, u32>,
    q: Seq<(i32, u32)>,
    u: i32,
    d: u32,
    seen: Set<i32>,
)
    requires
        within_node(g, s, vis, dist, q, u, d, seen),
        forall|w: i32| #[trigger] has_edge(g, u, w) ==> seen.contains(w),
    ensures
        between_nodes(g, s, vis, dist, q),
{
    assert forall|x: i32, w: i32| dist.dom().contains(x) && #[trigger] has_edge(g, x, w) implies vis.contains(
        w,
    ) by {
        if x == u {
            assert(seen.contains(w));
        }
    }
    if q.len() > 0 {
        let front = q[0].1;
        assert(d <= q[0].1 <= d + 1);
        assert(d <= q[q.len() - 1].1 <= d + 1);
        assert forall|v: i32, n: nat| n <= front && #[trigger] reachable_in(g, s, v, n) implies vis.contains(
            v,
        ) by {
            if n <= d {
            } else {
                let x = lemma_reachable_last_step(g, s, v, d as nat);
                assert(vis.contains(x));
                if !dist.dom().contains(x) {
                    let j = choose|j: int| 0 <= j < q.len() && (#[trigger] q[j]).0 == x;
                    assert(q[0].1 <= q[j].1);
                    assert(is_distance(g, s, q[j].0, q[j].1 as nat));
                    assert(false);
                }
                assert(has_edge(g, x, v));
            }
        }
    }
}

/// When the queue has run empty, the settled distances are the distance map
/// of the source.
pub proof fn lemma_search_done(g: Graph, s: i32, vis: Set<i32>, dist: Map<i32, u32>)
    requires
        between_nodes(g, s, vis, dist, Seq::<(i32, u32)>::empty()),
    ensures
        is_distance_map(g, s, dist),
{
    let q = Seq::<(i32, u32)>::empty();
    let closed = dist.dom();
    assert forall|v: i32| #[trigger] vis.contains(v) implies closed.contains(v) by {
        assert(!queued(q, v));
    }
    assert forall|v: i32| reachable(g, s, v) implies closed.contains(v) by {
        let n = choose|n: nat| reachable_in(g, s, v, n);
        lemma_closed_set_holds_reachable(g, s, closed, v, n);
    }
    assert forall|v: i32| closed.contains(v) implies reachable(g, s, v) && #[trigger] dist[v] as nat
        == crate::graph::distance(g, s, v) by {
        lemma_distance_characterised(g, s, v, dist[v] as nat);
    }
}

} // verus!
