//! The variance of the path lengths of a graph, as an exact integer, and the
//! proof that it is 0 exactly where all paths are equally long.

use vstd::prelude::*;
use crate::graph::{Graph, reachable, distance, reach_set, lemma_node_set_bounded};
use crate::measures::{
    path_length, squared_length, is_path, target_weight, source_weight, sum_from, sum_all,
    total_path_count, total_path_length, total_squared_length,
};
use crate::sums::{set_sum, lemma_set_sum_combine, lemma_set_sum_nonnegative};

verus! {

/// The variance of the path lengths, times the square of the number of
/// paths: with `n` paths, of lengths that add up to `s` and whose squares
/// add up to `q`, this is `n * q - s * s`.
pub open spec fn scaled_variance(g: Graph) -> int {
    total_path_count(g) * total_squared_length(g) - total_path_length(g) * total_path_length(g)
}

/// `u` has an entry and reaches the different node `v`.
pub open spec fn is_path_between(g: Graph, u: i32, v: i32) -> bool {
    g.dom().contains(u) && reachable(g, u, v) && distance(g, u, v) > 0
}

/// All paths of the graph have the same length.
pub open spec fn paths_equally_long(g: Graph) -> bool {
    forall|u1: i32, v1: i32, u2: i32, v2: i32|
        #![trigger is_path_between(g, u1, v1), is_path_between(g, u2, v2)]
        is_path_between(g, u1, v1) && is_path_between(g, u2, v2) ==> distance(g, u1, v1) == distance(
            g,
            u2,
            v2,
        )
}

/// A sum over all pairs is linear in the weight: where a weight is a
/// combination of three others on every distance that occurs, its sum is the
/// same combination of their sums.
pub proof fn lemma_sum_all_combine(
    g: Graph,
    w1: spec_fn(nat) -> int,
    w2: spec_fn(nat) -> int,
    w3: spec_fn(nat) -> int,
    c1: int,
    c2: int,
    c3: int,
    w: spec_fn(nat) -> int,
)
    requires
        forall|u: i32, v: i32|
            g.dom().contains(u) && reachable(g, u, v) ==> w(#[trigger] distance(g, u, v)) == c1 * w1(
                distance(g, u, v),
            ) + c2 * w2(distance(g, u, v)) + c3 * w3(distance(g, u, v)),
    ensures
        sum_all(g, w) == c1 * sum_all(g, w1) + c2 * sum_all(g, w2) + c3 * sum_all(g, w3),
{
    lemma_node_set_bounded(g.dom());
    assert forall|u: i32| g.dom().contains(u) implies #[trigger] source_weight(g, w)(u) == c1 * source_weight(
        g,
        w1,
    )(u) + c2 * source_weight(g, w2)(u) + c3 * source_weight(g, w3)(u) by {
        lemma_node_set_bounded(reach_set(g, u));
        assert forall|v: i32| reach_set(g, u).contains(v) implies #[trigger] target_weight(g, u, w)(v) == c1
            * target_weight(g, u, w1)(v) + c2 * target_weight(g, u, w2)(v) + c3 * target_weight(g, u, w3)(
            v,
        ) by {
            assert(reachable(g, u, v));
            let d = distance(g, u, v);
            assert(w(d) == c1 * w1(d) + c2 * w2(d) + c3 * w3(d));
        }
        lemma_set_sum_combine(
            reach_set(g, u),
            target_weight(g, u, w1),
            target_weight(g, u, w2),
            target_weight(g, u, w3),
            c1,
            c2,
            c3,
            target_weight(g, u, w),
        );
    }
    lemma_set_sum_combine(
        g.dom(),
        source_weight(g, w1),
        source_weight(g, w2),
        source_weight(g, w3),
        c1,
        c2,
        c3,
        source_weight(g, w),
    );
}

/// A sum over all pairs of a weight that is not negative on any distance
/// that occurs is not negative, and no smaller than the weight of any pair.
pub proof fn lemma_sum_all_nonnegative(g: Graph, w: spec_fn(nat) -> int)
    requires
        forall|u: i32, v: i32| g.dom().contains(u) && reachable(g, u, v) ==> 0 <= w(#[trigger] distance(g, u, v)),
    ensures
        0 <= sum_all(g, w),
        forall|u: i32, v: i32|
            g.dom().contains(u) && reachable(g, u, v) ==> w(#[trigger] distance(g, u, v)) <= sum_all(g, w),
{
    lemma_node_set_bounded(g.dom());
    assert forall|u: i32| g.dom().contains(u) implies 0 <= #[trigger] source_weight(g, w)(u) by {
        lemma_node_set_bounded(reach_set(g, u));
        assert forall|v: i32| reach_set(g, u).contains(v) implies 0 <= #[trigger] target_weight(g, u, w)(v) by {
            assert(reachable(g, u, v));
            assert(0 <= w(distance(g, u, v)));
        }
        lemma_set_sum_nonnegative(reach_set(g, u), target_weight(g, u, w));
    }
    lemma_set_sum_nonnegative(g.dom(), source_weight(g, w));
    assert forall|u: i32, v: i32| g.dom().contains(u) && reachable(g, u, v) implies w(
        #[trigger] distance(g, u, v),
    ) <= sum_all(g, w) by {
        lemma_node_set_bounded(reach_set(g, u));
        assert forall|x: i32| reach_set(g, u).contains(x) implies 0 <= #[trigger] target_weight(g, u, w)(x) by {
            assert(reachable(g, u, x));
            assert(0 <= w(distance(g, u, x)));
        }
        lemma_set_sum_nonnegative(reach_set(g, u), target_weight(g, u, w));
        assert(reach_set(g, u).contains(v));
        assert(target_weight(g, u, w)(v) <= sum_from(g, u, w));
        assert(source_weight(g, w)(u) <= sum_all(g, w));
    }
}

/// The squared deviation of a path length from the mean, scaled by the
/// square of the number of paths; 0 for a pair of a node with itself.
spec fn deviation(n: int, s: int) -> spec_fn(nat) -> int {
    |d: nat| if d > 0 { (n * d - s) * (n * d - s) } else { 0int }
}

/// The variance of the path lengths is not negative, and it is 0 exactly
/// where all paths are equally long.
pub proof fn lemma_variance(g: Graph)
    ensures
        scaled_variance(g) >= 0,
        scaled_variance(g) == 0 <==> paths_equally_long(g),
{
    let n = total_path_count(g);
    let s = total_path_length(g);
    let q = total_squared_length(g);
    let dev = deviation(n, s);
    lemma_sum_all_nonnegative(g, is_path());
    lemma_sum_all_nonnegative(g, path_length());
    assert forall|u: i32, v: i32| g.dom().contains(u) && reachable(g, u, v) implies 0 <= dev(
        #[trigger] distance(g, u, v),
    ) by {
        let x = n * distance(g, u, v) - s;
        assert(0 <= x * x) by (nonlinear_arith);
    }
    lemma_sum_all_nonnegative(g, dev);
    assert forall|u: i32, v: i32| g.dom().contains(u) && reachable(g, u, v) implies dev(
        #[trigger] distance(g, u, v),
    ) == (n * n) * squared_length()(distance(g, u, v)) + (-2 * n * s) * path_length()(distance(g, u, v)) + (s
        * s) * is_path()(distance(g, u, v)) by {
        let d = distance(g, u, v);
        if d > 0 {
            assert((n * d - s) * (n * d - s) == (n * n) * ((d * d) as int) + (-2 * n * s) * (d as int) + (s
                * s) * 1) by (nonlinear_arith);
        } else {
            assert((n * n) * ((d * d) as int) == 0) by (nonlinear_arith)
                requires
                    d == 0,
            ;
            assert((-2 * n * s) * (d as int) == 0) by (nonlinear_arith)
                requires
                    d == 0,
            ;
        }
    }
    lemma_sum_all_combine(g, squared_length(), path_length(), is_path(), n * n, -2 * n * s, s * s, dev);
    let t = sum_all(g, dev);
    assert(t == n * scaled_variance(g)) by (nonlinear_arith)
        requires
            t == (n * n) * q + (-2 * n * s) * s + (s * s) * n,
            scaled_variance(g) == n * q - s * s,
    ;
    if n == 0 {
        assert forall|u: i32, v: i32| g.dom().contains(u) && reachable(g, u, v) implies distance(g, u, v)
            == 0 by {
            assert(is_path()(distance(g, u, v)) <= 0);
        }
        assert forall|u: i32, v: i32| g.dom().contains(u) && reachable(g, u, v) implies path_length()(
            #[trigger] distance(g, u, v),
        ) == 0 * is_path()(distance(g, u, v)) + 0 * is_path()(distance(g, u, v)) + 0 * is_path()(
            distance(g, u, v),
        ) by {
            assert(distance(g, u, v) == 0);
        }
        lemma_sum_all_combine(g, is_path(), is_path(), is_path(), 0, 0, 0, path_length());
        assert(s == 0) by (nonlinear_arith)
            requires
                s == 0 * n + 0 * n + 0 * n,
        ;
        assert(scaled_variance(g) == 0) by (nonlinear_arith)
            requires
                scaled_variance(g) == n * q - s * s,
                n == 0,
                s == 0,
        ;
        assert(paths_equally_long(g));
    } else {
        assert(scaled_variance(g) >= 0) by (nonlinear_arith)
            requires
                n > 0,
                n * scaled_variance(g) >= 0,
        ;
        if scaled_variance(g) == 0 {
            assert(t == 0) by (nonlinear_arith)
                requires
                    t == n * scaled_variance(g),
                    scaled_variance(g) == 0,
            ;
            assert forall|u1: i32, v1: i32, u2: i32, v2: i32|
                #![trigger is_path_between(g, u1, v1), is_path_between(g, u2, v2)]
                is_path_between(g, u1, v1) && is_path_between(g, u2, v2) implies distance(g, u1, v1)
                    == distance(g, u2, v2) by {
                let d1 = distance(g, u1, v1);
                let d2 = distance(g, u2, v2);
                assert(dev(d1) <= 0);
                assert(dev(d2) <= 0);
                assert(d1 == d2) by (nonlinear_arith)
                    requires
                        (n * d1 - s) * (n * d1 - s) <= 0,
                        (n * d2 - s) * (n * d2 - s) <= 0,
                        n > 0,
                ;
            }
        }
        if paths_equally_long(g) {
            if exists|u: i32, v: i32| is_path_between(g, u, v) {
                let (u0, v0) = choose|u: i32, v: i32| is_path_between(g, u, v);
                let c = distance(g, u0, v0) as int;
                assert forall|u: i32, v: i32| g.dom().contains(u) && reachable(g, u, v) implies path_length()(
                    #[trigger] distance(g, u, v),
                ) == c * is_path()(distance(g, u, v)) + 0 * is_path()(distance(g, u, v)) + 0 * is_path()(
                    distance(g, u, v),
                ) && squared_length()(distance(g, u, v)) == (c * c) * is_path()(distance(g, u, v)) + 0
                    * is_path()(distance(g, u, v)) + 0 * is_path()(distance(g, u, v)) by {
                    let d = distance(g, u, v);
                    if d > 0 {
                        assert(is_path_between(g, u, v) && is_path_between(g, u0, v0));
                        assert(d == c);
                        assert((d * d) as int == (c * c) * 1) by (nonlinear_arith)
                            requires
                                d == c,
                        ;
                    } else {
                        assert((c * c) * 0 == 0);
                        assert((d * d) as int == 0) by (nonlinear_arith)
                            requires
                                d == 0,
                        ;
                    }
                }
                lemma_sum_all_combine(g, is_path(), is_path(), is_path(), c, 0, 0, path_length());
                lemma_sum_all_combine(g, is_path(), is_path(), is_path(), c * c, 0, 0, squared_length());
                assert(scaled_variance(g) == 0) by (nonlinear_arith)
                    requires
                        scaled_variance(g) == n * q - s * s,
                        s == c * n + 0 * n + 0 * n,
                        q == (c * c) * n + 0 * n + 0 * n,
                ;
            } else {
                assert forall|u: i32, v: i32| g.dom().contains(u) && reachable(g, u, v) implies is_path()(
                    #[trigger] distance(g, u, v),
                ) == 0 * is_path()(distance(g, u, v)) + 0 * is_path()(distance(g, u, v)) + 0 * is_path()(
                    distance(g, u, v),
                ) by {
                    if distance(g, u, v) > 0 {
                        assert(is_path_between(g, u, v));
                    }
                }
                lemma_sum_all_combine(g, is_path(), is_path(), is_path(), 0, 0, 0, is_path());
                assert(n == 0) by (nonlinear_arith)
                    requires
                        n == 0 * n + 0 * n + 0 * n,
                ;
            }
        }
    }
}

} // verus!
