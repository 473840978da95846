//! The hash collections the library computes with, and what is taken on
//! trust about them.
//!
//! Each collection is a `hashbrown` table behind a struct of this crate. Its
//! contents are named by a specification function, and every operation the
//! library performs on it is one small function whose contract restates the
//! `hashbrown` documentation over that name. Nothing in this file is proved:
//! these contracts are the assumptions on which the proofs elsewhere rest.
//!
//! `hashbrown` walks a table in an order that depends on a per-process hash
//! seed, so a function that lists the contents promises only that every
//! entry is listed once.

use vstd::prelude::*;

verus! {

/// The adjacency store: a `hashbrown::HashMap` from each node to the
/// `hashbrown::HashSet` of its neighbours.
#[verifier::external_body]
pub struct AdjacencyList {
    inner: hashbrown::HashMap<i32, hashbrown::HashSet<i32>>,
}

/// The graph held by an [`AdjacencyList`].
pub uninterp spec fn adjacency_of(adj: AdjacencyList) -> Map<i32, Set<i32>>;

/// A set of node identifiers, held in a `hashbrown::HashSet<i32>`.
#[verifier::external_body]
pub struct NodeSet {
    inner: hashbrown::HashSet<i32>,
}

/// The members of a [`NodeSet`].
pub uninterp spec fn members_of(set: NodeSet) -> Set<i32>;

/// Hop counts by node, held in a `hashbrown::HashMap<i32, u32>`.
#[verifier::external_body]
pub struct DistanceMap {
    inner: hashbrown::HashMap<i32, u32>,
}

/// The entries of a [`DistanceMap`].
pub uninterp spec fn distances_of(map: DistanceMap) -> Map<i32, u32>;

/// A set of hop counts, held in a `hashbrown::HashSet<u32>`.
#[verifier::external_body]
pub struct LengthSet {
    inner: hashbrown::HashSet<u32>,
}

/// The members of a [`LengthSet`].
pub uninterp spec fn lengths_of(set: LengthSet) -> Set<u32>;

/// Tallies by path length, held in a `hashbrown::HashMap<u32, u64>`.
#[verifier::external_body]
pub struct LengthCounts {
    inner: hashbrown::HashMap<u32, u64>,
}

/// The entries of a [`LengthCounts`].
pub uninterp spec fn counts_of(counts: LengthCounts) -> Map<u32, u64>;

/// `hashbrown::HashMap::new`: the new map has no entries.
#[verifier::external_body]
pub(crate) fn adjacency_new() -> (adj: AdjacencyList)
    ensures
        adjacency_of(adj) == (Map::<i32, Set<i32>>::empty()),
{
    AdjacencyList { inner: hashbrown::HashMap::new() }
}

/// `hashbrown::HashMap::entry` followed by `Entry::or_default`: a node
/// without an entry gets one with no neighbours; a node with an entry
/// keeps it.
#[verifier::external_body]
pub(crate) fn adjacency_touch(adj: &mut AdjacencyList, node: i32)
    ensures
        adjacency_of(*final(adj)) == if adjacency_of(*old(adj)).dom().contains(node) {
            adjacency_of(*old(adj))
        } else {
            adjacency_of(*old(adj)).insert(node, Set::empty())
        },
{
    adj.inner.entry(node).or_default();
}

/// `hashbrown::HashMap::entry`, `Entry::or_default` and
/// `hashbrown::HashSet::insert`: `neighbor` joins the neighbours of `node`,
/// whose entry is made first where it has none.
#[verifier::external_body]
pub(crate) fn adjacency_link(adj: &mut AdjacencyList, node: i32, neighbor: i32)
    ensures
        adjacency_of(*final(adj)) == adjacency_of(*old(adj)).insert(
            node,
            if adjacency_of(*old(adj)).dom().contains(node) {
                adjacency_of(*old(adj))[node].insert(neighbor)
            } else {
                Set::<i32>::empty().insert(neighbor)
            },
        ),
{
    adj.inner.entry(node).or_default().insert(neighbor);
}

/// `hashbrown::HashMap::contains_key`.
#[verifier::external_body]
pub(crate) fn adjacency_has_node(adj: &AdjacencyList, node: i32) -> (present: bool)
    ensures
        present == adjacency_of(*adj).dom().contains(node),
{
    adj.inner.contains_key(&node)
}

/// `hashbrown::HashMap::keys`: every node with an entry, once, in no
/// particular order.
#[verifier::external_body]
pub(crate) fn adjacency_nodes(adj: &AdjacencyList) -> (nodes: Vec<i32>)
    ensures
        nodes@.no_duplicates(),
        forall|v: i32| nodes@.contains(v) <==> adjacency_of(*adj).dom().contains(v),
{
    adj.inner.keys().copied().collect()
}

/// `hashbrown::HashMap::get` and `hashbrown::HashSet::iter`: the neighbours
/// of a node with an entry, each once, in no particular order; `None` for a
/// node without an entry.
#[verifier::external_body]
pub(crate) fn adjacency_neighbors(adj: &AdjacencyList, node: i32) -> (neighbors: Option<Vec<i32>>)
    ensures
        neighbors is Some <==> adjacency_of(*adj).dom().contains(node),
        neighbors matches Some(list) ==> {
            &&& list@.no_duplicates()
            &&& forall|w: i32| list@.contains(w) <==> adjacency_of(*adj)[node].contains(w)
        },
{
    adj.inner.get(&node).map(|set| set.iter().copied().collect())
}

/// `hashbrown::HashSet::new`: the new set has no members.
#[verifier::external_body]
pub(crate) fn node_set_new() -> (set: NodeSet)
    ensures
        members_of(set) == Set::<i32>::empty(),
{
    NodeSet { inner: hashbrown::HashSet::new() }
}

/// `hashbrown::HashSet::insert`: the value joins the set, and the result
/// tells whether it was absent before.
#[verifier::external_body]
pub(crate) fn node_set_insert(set: &mut NodeSet, node: i32) -> (fresh: bool)
    ensures
        members_of(*final(set)) == members_of(*old(set)).insert(node),
        fresh == !members_of(*old(set)).contains(node),
{
    set.inner.insert(node)
}

/// `hashbrown::HashMap::new`: the new map has no entries.
#[verifier::external_body]
pub(crate) fn distance_map_new() -> (map: DistanceMap)
    ensures
        distances_of(map) == (Map::<i32, u32>::empty()),
{
    DistanceMap { inner: hashbrown::HashMap::new() }
}

/// `hashbrown::HashMap::insert`: the node maps to the given hop count,
/// whether or not it had an entry; the other entries stay.
#[verifier::external_body]
pub(crate) fn distance_map_insert(map: &mut DistanceMap, node: i32, hops: u32)
    ensures
        distances_of(*final(map)) == distances_of(*old(map)).insert(node, hops),
{
    map.inner.insert(node, hops);
}

/// `hashbrown::HashMap::get`: the hop count of a node with an entry.
#[verifier::external_body]
pub(crate) fn distance_map_get(map: &DistanceMap, node: i32) -> (hops: Option<u32>)
    ensures
        hops == if distances_of(*map).dom().contains(node) {
            Some(distances_of(*map)[node])
        } else {
            None
        },
{
    map.inner.get(&node).copied()
}

/// `hashbrown::HashMap::iter`: every entry, once, in no particular order.
#[verifier::external_body]
pub(crate) fn distance_map_entries(map: &DistanceMap) -> (entries: Vec<(i32, u32)>)
    ensures
        forall|i: int, j: int|
            0 <= i < j < entries@.len() ==> (#[trigger] entries@[i]).0 != (#[trigger] entries@[j]).0,
        forall|i: int|
            0 <= i < entries@.len() ==> distances_of(*map).contains_pair(
                (#[trigger] entries@[i]).0,
                entries@[i].1,
            ),
        forall|v: i32|
            distances_of(*map).dom().contains(v) ==> exists|i: int|
                0 <= i < entries@.len() && (#[trigger] entries@[i]).0 == v,
{
    map.inner.iter().map(|(node, hops)| (*node, *hops)).collect()
}

/// `hashbrown::HashSet::new`: the new set has no members.
#[verifier::external_body]
pub(crate) fn length_set_new() -> (set: LengthSet)
    ensures
        lengths_of(set) == Set::<u32>::empty(),
{
    LengthSet { inner: hashbrown::HashSet::new() }
}

/// `hashbrown::HashSet::insert`: the value joins the set.
#[verifier::external_body]
pub(crate) fn length_set_insert(set: &mut LengthSet, length: u32)
    ensures
        lengths_of(*final(set)) == lengths_of(*old(set)).insert(length),
{
    set.inner.insert(length);
}

/// `hashbrown::HashSet::len`: the number of members.
#[verifier::external_body]
pub(crate) fn length_set_len(set: &LengthSet) -> (len: usize)
    ensures
        len == lengths_of(*set).len(),
{
    set.inner.len()
}

/// `hashbrown::HashMap::new`: the new map has no entries.
#[verifier::external_body]
pub(crate) fn length_counts_new() -> (counts: LengthCounts)
    ensures
        counts_of(counts) == (Map::<u32, u64>::empty()),
{
    LengthCounts { inner: hashbrown::HashMap::new() }
}

/// `hashbrown::HashMap::get`: the tally of a length with an entry.
#[verifier::external_body]
pub(crate) fn length_counts_get(counts: &LengthCounts, length: u32) -> (tally: Option<u64>)
    ensures
        tally == if counts_of(*counts).dom().contains(length) {
            Some(counts_of(*counts)[length])
        } else {
            None
        },
{
    counts.inner.get(&length).copied()
}

/// `hashbrown::HashMap::insert`: the length maps to the given tally, whether
/// or not it had an entry; the other entries stay.
#[verifier::external_body]
pub(crate) fn length_counts_insert(counts: &mut LengthCounts, length: u32, tally: u64)
    ensures
        counts_of(*final(counts)) == counts_of(*old(counts)).insert(length, tally),
{
    counts.inner.insert(length, tally);
}

/// `hashbrown::HashMap::iter`: every entry, once, in no particular order.
#[verifier::external_body]
pub(crate) fn length_counts_entries(counts: &LengthCounts) -> (entries: Vec<(u32, u64)>)
    ensures
        forall|i: int, j: int|
            0 <= i < j < entries@.len() ==> (#[trigger] entries@[i]).0 != (#[trigger] entries@[j]).0,
        forall|i: int|
            0 <= i < entries@.len() ==> counts_of(*counts).contains_pair(
                (#[trigger] entries@[i]).0,
                entries@[i].1,
            ),
        forall|k: u32|
            counts_of(*counts).dom().contains(k) ==> exists|i: int|
                0 <= i < entries@.len() && (#[trigger] entries@[i]).0 == k,
{
    counts.inner.iter().map(|(length, tally)| (*length, *tally)).collect()
}

} // verus!
