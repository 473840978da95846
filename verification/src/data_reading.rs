//! Building the adjacency list: from edges, and from the text of a CSV edge
//! list with one undirected edge per record, its end points in the first two
//! fields.

use vstd::prelude::*;
use crate::collections::{
    AdjacencyList, adjacency_of, adjacency_new, adjacency_touch, adjacency_link, adjacency_has_node,
};
use crate::graph::{Graph, has_edge, is_symmetric};

verus! {

/// The neighbours recorded for `u`; none where `u` has no entry.
pub open spec fn neighbors_of(g: Graph, u: i32) -> Set<i32> {
    if g.dom().contains(u) {
        g[u]
    } else {
        Set::empty()
    }
}

/// The graph with `u` given an entry, without neighbours, where it had none.
pub open spec fn with_node(g: Graph, u: i32) -> Graph {
    if g.dom().contains(u) {
        g
    } else {
        g.insert(u, Set::empty())
    }
}

/// The graph with `v` added to the neighbours of `u`.
pub open spec fn with_link(g: Graph, u: i32, v: i32) -> Graph {
    g.insert(u, neighbors_of(g, u).insert(v))
}

/// The graph with the undirected edge between `a` and `b` added.
pub open spec fn with_edge(g: Graph, a: i32, b: i32) -> Graph {
    with_link(with_link(g, a, b), b, a)
}

/// The edge `e` has `u` as an end point.
pub open spec fn touches(e: (i32, i32), u: i32) -> bool {
    e.0 == u || e.1 == u
}

/// The edge `e` joins `u` and `v`, in either order.
pub open spec fn joins(e: (i32, i32), u: i32, v: i32) -> bool {
    (e.0 == u && e.1 == v) || (e.0 == v && e.1 == u)
}

/// The graph of a list of undirected edges: its nodes are the end points of
/// the edges, and the neighbours of a node are the nodes that an edge joins
/// it to.
pub open spec fn edge_graph(edges: Seq<(i32, i32)>) -> Graph {
    Map::new(
        |u: i32| exists|i: int| 0 <= i < edges.len() && touches(#[trigger] edges[i], u),
        |u: i32| Set::new(|v: i32| exists|i: int| 0 <= i < edges.len() && joins(#[trigger] edges[i], u, v)),
    )
}

/// The graph of a list of edges is symmetric.
pub proof fn lemma_edge_graph_symmetric(edges: Seq<(i32, i32)>)
    ensures
        is_symmetric(edge_graph(edges)),
{
    let g = edge_graph(edges);
    assert forall|u: i32, v: i32| #[trigger] has_edge(g, u, v) implies has_edge(g, v, u) by {
        let i = choose|i: int| 0 <= i < edges.len() && joins(#[trigger] edges[i], u, v);
        assert(touches(edges[i], v));
        assert(joins(edges[i], v, u));
    }
}

/// Adding an edge to the graph of a list of edges gives the graph of the
/// list with that edge at its end.
pub proof fn lemma_edge_graph_push(edges: Seq<(i32, i32)>, a: i32, b: i32)
    ensures
        with_edge(edge_graph(edges), a, b) == edge_graph(edges.push((a, b))),
{
    let g = edge_graph(edges);
    let longer = edges.push((a, b));
    let g2 = edge_graph(longer);
    let h = with_edge(g, a, b);
    let n = edges.len() as int;
    assert(longer[n] == (a, b));
    assert forall|u: i32| h.dom().contains(u) <==> g2.dom().contains(u) by {
        if g.dom().contains(u) {
            let i = choose|i: int| 0 <= i < edges.len() && touches(#[trigger] edges[i], u);
            assert(touches(longer[i], u));
        }
        if u == a || u == b {
            assert(touches(longer[n], u));
        }
        if g2.dom().contains(u) {
            let i = choose|i: int| 0 <= i < longer.len() && touches(#[trigger] longer[i], u);
            if i < n {
                assert(touches(edges[i], u));
            }
        }
    }
    assert forall|u: i32| h.dom().contains(u) implies #[trigger] h[u] =~= g2[u] by {
        assert forall|v: i32| h[u].contains(v) <==> g2[u].contains(v) by {
            if neighbors_of(g, u).contains(v) {
                let i = choose|i: int| 0 <= i < edges.len() && joins(#[trigger] edges[i], u, v);
                assert(joins(longer[i], u, v));
            }
            if joins((a, b), u, v) {
                assert(joins(longer[n], u, v));
            }
            if g2[u].contains(v) {
                let i = choose|i: int| 0 <= i < longer.len() && joins(#[trigger] longer[i], u, v);
                if i < n {
                    assert(joins(edges[i], u, v));
                    assert(touches(edges[i], u));
                }
            }
        }
    }
    assert(h =~~= g2);
}

/// Giving a node an entry keeps a symmetric graph symmetric.
pub proof fn lemma_with_node_symmetric(g: Graph, u: i32)
    requires
        is_symmetric(g),
    ensures
        is_symmetric(with_node(g, u)),
{
    let h = with_node(g, u);
    assert forall|x: i32, y: i32| #[trigger] has_edge(h, x, y) implies has_edge(h, y, x) by {
        assert(has_edge(g, x, y));
        assert(has_edge(g, y, x));
    }
}

/// Adding an undirected edge keeps a symmetric graph symmetric.
pub proof fn lemma_with_edge_symmetric(g: Graph, a: i32, b: i32)
    requires
        is_symmetric(g),
    ensures
        is_symmetric(with_edge(g, a, b)),
{
    let h = with_edge(g, a, b);
    assert forall|x: i32, y: i32| #[trigger] has_edge(h, x, y) implies has_edge(h, y, x) by {
        if has_edge(g, x, y) {
            assert(has_edge(g, y, x));
        }
    }
}

impl AdjacencyList {
    /// A graph without nodes.
    pub fn new() -> (adj: AdjacencyList)
        ensures
            adjacency_of(adj) == Graph::empty(),
            is_symmetric(adjacency_of(adj)),
    {
        adjacency_new()
    }

    /// Whether `node` has an entry.
    pub fn contains_node(&self, node: i32) -> (present: bool)
        ensures
            present == adjacency_of(*self).dom().contains(node),
    {
        adjacency_has_node(self, node)
    }

    /// Gives `node` an entry, without neighbours, where it has none. A
    /// symmetric graph stays symmetric.
    pub fn add_node(&mut self, node: i32)
        ensures
            adjacency_of(*final(self)) == with_node(adjacency_of(*old(self)), node),
            is_symmetric(adjacency_of(*old(self))) ==> is_symmetric(adjacency_of(*final(self))),
    {
        adjacency_touch(self, node);
        proof {
            if is_symmetric(adjacency_of(*old(self))) {
                lemma_with_node_symmetric(adjacency_of(*old(self)), node);
            }
        }
    }

    /// Adds the undirected edge between `a` and `b`: each becomes a
    /// neighbour of the other. A symmetric graph stays symmetric.
    pub fn add_edge(&mut self, a: i32, b: i32)
        ensures
            adjacency_of(*final(self)) == with_edge(adjacency_of(*old(self)), a, b),
            is_symmetric(adjacency_of(*old(self))) ==> is_symmetric(adjacency_of(*final(self))),
    {
        adjacency_link(self, a, b);
        adjacency_link(self, b, a);
        proof {
            if is_symmetric(adjacency_of(*old(self))) {
                lemma_with_edge_symmetric(adjacency_of(*old(self)), a, b);
            }
        }
    }
}

/// The adjacency list of a list of undirected edges.
pub fn build_adjacency_list(edges: &Vec<(i32, i32)>) -> (adj: AdjacencyList)
    ensures
        adjacency_of(adj) == edge_graph(edges@),
        is_symmetric(adjacency_of(adj)),
{
    let mut adj = AdjacencyList::new();
    let mut i: usize = 0;
    proof {
        assert(adjacency_of(adj) =~~= edge_graph(edges@.take(0)));
    }
    while i < edges.len()
        invariant
            i <= edges.len(),
            adjacency_of(adj) == edge_graph(edges@.take(i as int)),
        decreases edges.len() - i,
    {
        let (a, b) = edges[i];
        proof {
            lemma_edge_graph_push(edges@.take(i as int), a, b);
            assert(edges@.take(i as int).push((a, b)) =~= edges@.take(i + 1));
        }
        adj.add_edge(a, b);
        i += 1;
    }
    proof {
        assert(edges@.take(edges@.len() as int) =~= edges@);
        lemma_edge_graph_symmetric(edges@);
    }
    adj
}

/// Why the text of an edge list was rejected. Records and fields are counted
/// from 0.
#[derive(Clone, Copy, Debug, PartialEq, Eq)]
pub enum EdgeListError {
    /// The record is not well-formed CSV.
    Malformed { record: usize },
    /// The record has no such field.
    MissingField { record: usize, field: usize },
    /// The field is not an integer that fits a node identifier.
    NotAnInteger { record: usize, field: usize },
}

/// The byte is an ASCII digit.
pub open spec fn is_digit(b: u8) -> bool {
    48 <= b <= 57
}

/// The text is one or more ASCII digits.
pub open spec fn all_digits(text: Seq<u8>) -> bool {
    &&& text.len() > 0
    &&& forall|i: int| 0 <= i < text.len() ==> is_digit(#[trigger] text[i])
}

/// The number that a text of digits denotes in base ten.
pub open spec fn digits_value(text: Seq<u8>) -> int
    decreases text.len(),
{
    if text.len() == 0 {
        0
    } else {
        digits_value(text.drop_last()) * 10 + (text.last() - 48)
    }
}

/// The integer that a text denotes: digits, after an optional `+` or `-`.
pub open spec fn integer_of_text(text: Seq<u8>) -> Option<int> {
    if text.len() > 0 && text[0] == 45 {
        if all_digits(text.skip(1)) {
            Some(-digits_value(text.skip(1)))
        } else {
            None
        }
    } else if text.len() > 0 && text[0] == 43 {
        if all_digits(text.skip(1)) {
            Some(digits_value(text.skip(1)))
        } else {
            None
        }
    } else if all_digits(text) {
        Some(digits_value(text))
    } else {
        None
    }
}

/// The node identifier that a text denotes: an integer within the range of
/// `i32`.
pub open spec fn node_of_text(text: Seq<u8>) -> Option<i32> {
    match integer_of_text(text) {
        Some(n) => if i32::MIN <= n <= i32::MAX {
            Some(n as i32)
        } else {
            None
        },
        None => None,
    }
}

/// The edge that a record denotes by its first two fields, or the first
/// thing wrong with it. Further fields are not looked at.
pub open spec fn record_edge(record: Option<Seq<Seq<u8>>>, index: usize) -> Result<
    (i32, i32),
    EdgeListError,
> {
    match record {
        None => Err(EdgeListError::Malformed { record: index }),
        Some(fields) => if fields.len() < 1 {
            Err(EdgeListError::MissingField { record: index, field: 0 })
        } else if node_of_text(fields[0]) is None {
            Err(EdgeListError::NotAnInteger { record: index, field: 0 })
        } else if fields.len() < 2 {
            Err(EdgeListError::MissingField { record: index, field: 1 })
        } else if node_of_text(fields[1]) is None {
            Err(EdgeListError::NotAnInteger { record: index, field: 1 })
        } else {
            Ok((node_of_text(fields[0])->0, node_of_text(fields[1])->0))
        },
    }
}

/// The edges that a list of records denotes, or the first thing wrong with
/// the first record that is wrong.
pub open spec fn edges_of_records(records: Seq<Option<Seq<Seq<u8>>>>) -> Result<
    Seq<(i32, i32)>,
    EdgeListError,
>
    decreases records.len(),
{
    if records.len() == 0 {
        Ok(Seq::empty())
    } else {
        match edges_of_records(records.drop_last()) {
            Err(e) => Err(e),
            Ok(edges) => match record_edge(records.last(), (records.len() - 1) as usize) {
                Ok(edge) => Ok(edges.push(edge)),
                Err(e) => Err(e),
            },
        }
    }
}

/// The fields of a record, as byte sequences.
pub open spec fn fields_view(fields: Vec<Vec<u8>>) -> Seq<Seq<u8>> {
    fields@.map_values(|field: Vec<u8>| field@)
}

/// A record as read: its fields, or `None` for a record that is not
/// well-formed.
pub open spec fn record_view(record: Option<Vec<Vec<u8>>>) -> Option<Seq<Seq<u8>>> {
    match record {
        Some(fields) => Some(fields_view(fields)),
        None => None,
    }
}

/// A list of records as read.
pub open spec fn records_view(records: Seq<Option<Vec<Vec<u8>>>>) -> Seq<Option<Seq<Seq<u8>>>> {
    records.map_values(|record: Option<Vec<Vec<u8>>>| record_view(record))
}

/// The records that the `csv` crate reads from a text without a header
/// line, in order: the fields of each, or `None` where it reports an error
/// for the record.
pub uninterp spec fn csv_records(data: Seq<u8>) -> Seq<Option<Seq<Seq<u8>>>>;

/// `csv::ReaderBuilder::from_reader` with `has_headers(false)`, then
/// `csv::Reader::records` to the end of the text. Each record comes with the
/// bytes of its fields; a record for which `csv` returns an error comes as
/// `None`. The result depends on the text alone.
#[verifier::external_body]
fn read_records(data: &[u8]) -> (records: Vec<Option<Vec<Vec<u8>>>>)
    ensures
        records_view(records@) == csv_records(data@),
{
    let mut reader = csv::ReaderBuilder::new().has_headers(false).from_reader(data);
    reader.records().map(
        |record| record.ok().map(|fields| fields.iter().map(|field| field.as_bytes().to_vec()).collect()),
    ).collect()
}

/// Among digits, a longer text denotes no smaller a number than its
/// beginning.
proof fn lemma_digits_grow(text: Seq<u8>, k: int)
    requires
        0 <= k <= text.len(),
        forall|i: int| 0 <= i < text.len() ==> is_digit(#[trigger] text[i]),
    ensures
        0 <= digits_value(text.take(k)) <= digits_value(text),
    decreases text.len() - k,
{
    if k == text.len() {
        assert(text.take(k) =~= text);
        lemma_digits_nonnegative(text);
    } else {
        lemma_digits_grow(text, k + 1);
        assert(text.take(k + 1).drop_last() =~= text.take(k));
        lemma_digits_nonnegative(text.take(k));
        assert(is_digit(text[k]));
    }
}

/// A text of digits denotes no negative number.
proof fn lemma_digits_nonnegative(text: Seq<u8>)
    requires
        forall|i: int| 0 <= i < text.len() ==> is_digit(#[trigger] text[i]),
    ensures
        0 <= digits_value(text),
    decreases text.len(),
{
    if text.len() > 0 {
        lemma_digits_nonnegative(text.drop_last());
        assert(is_digit(text[text.len() - 1]));
    }
}

/// Reads a node identifier: ASCII digits after an optional `+` or `-`, with
/// a value in the range of `i32`. Anything else, the empty text and a lone
/// sign included, is no node identifier.
pub fn parse_node(text: &[u8]) -> (node: Option<i32>)
    ensures
        node == node_of_text(text@),
{
    let n = text.len();
    if n == 0 {
        return None;
    }
    let negative = text[0] == 45;
    let start: usize = if text[0] == 45 || text[0] == 43 {
        1
    } else {
        0
    };
    let ghost digits = text@.subrange(start as int, n as int);
    proof {
        if start == 1 {
            assert(digits =~= text@.skip(1));
        } else {
            assert(digits =~= text@);
        }
    }
    if start == n {
        return None;
    }
    let mut value: i64 = 0;
    let mut i: usize = start;
    proof {
        assert(digits.take(0) =~= Seq::<u8>::empty());
    }
    while i < n
        invariant
            n == text.len(),
            start <= i <= n,
            start < n,
            digits == text@.subrange(start as int, n as int),
            start == 1 ==> (text@[0] == 45 || text@[0] == 43) && digits == text@.skip(1),
            start != 1 ==> text@[0] != 45 && text@[0] != 43 && digits == text@,
            forall|k: int| 0 <= k < i - start ==> is_digit(#[trigger] digits[k]),
            value == digits_value(digits.take(i - start)),
            0 <= value <= 2147483648,
        decreases n - i,
    {
        let b = text[i];
        proof {
            assert(digits[i - start] == b);
        }
        if b < 48 || b > 57 {
            return None;
        }
        proof {
            assert(digits.take(i - start + 1).drop_last() =~= digits.take(i - start));
        }
        value = value * 10 + (b - 48) as i64;
        if value > 2147483648 {
            proof {
                if all_digits(digits) {
                    lemma_digits_grow(digits, i - start + 1);
                }
            }
            return None;
        }
        i += 1;
    }
    proof {
        assert(digits.take(n - start) =~= digits);
        assert(all_digits(digits));
    }
    if negative {
        Some((-value) as i32)
    } else if value > 2147483647 {
        None
    } else {
        Some(value as i32)
    }
}

/// The edge of one record.
fn edge_from_record(record: &Option<Vec<Vec<u8>>>, index: usize) -> (r: Result<(i32, i32), EdgeListError>)
    ensures
        r == record_edge(record_view(*record), index),
{
    match record {
        None => Err(EdgeListError::Malformed { record: index }),
        Some(fields) => {
            if fields.len() < 1 {
                return Err(EdgeListError::MissingField { record: index, field: 0 });
            }
            assert(fields_view(*fields)[0] == fields@[0]@);
            let first = match parse_node(fields[0].as_slice()) {
                Some(node) => node,
                None => {
                    return Err(EdgeListError::NotAnInteger { record: index, field: 0 });
                },
            };
            if fields.len() < 2 {
                return Err(EdgeListError::MissingField { record: index, field: 1 });
            }
            assert(fields_view(*fields)[1] == fields@[1]@);
            let second = match parse_node(fields[1].as_slice()) {
                Some(node) => node,
                None => {
                    return Err(EdgeListError::NotAnInteger { record: index, field: 1 });
                },
            };
            Ok((first, second))
        },
    }
}

/// An error among the first records is the error of the whole list.
proof fn lemma_first_error_stays(records: Seq<Option<Seq<Seq<u8>>>>, k: int)
    requires
        0 <= k <= records.len(),
        edges_of_records(records.take(k)) is Err,
    ensures
        edges_of_records(records) == edges_of_records(records.take(k)),
    decreases records.len() - k,
{
    if k == records.len() {
        assert(records.take(k) =~= records);
    } else {
        assert(records.take(k + 1).drop_last() =~= records.take(k));
        lemma_first_error_stays(records, k + 1);
    }
}

/// The edges of a list of records as read from a CSV text: for each record
/// the node identifiers in its first two fields. Fails with the first thing
/// wrong in the first record that is not well-formed, lacks one of the two
/// fields, or holds something other than a node identifier in one of them.
pub fn edges_from_records(records: &Vec<Option<Vec<Vec<u8>>>>) -> (r: Result<Vec<(i32, i32)>, EdgeListError>)
    ensures
        match r {
            Ok(edges) => edges_of_records(records_view(records@)) == Ok::<Seq<(i32, i32)>, EdgeListError>(edges@),
            Err(e) => edges_of_records(records_view(records@)) == Err::<Seq<(i32, i32)>, EdgeListError>(e),
        },
{
    let ghost all = records_view(records@);
    let mut edges: Vec<(i32, i32)> = Vec::new();
    let mut i: usize = 0;
    proof {
        assert(all.take(0) =~= Seq::empty());
    }
    while i < records.len()
        invariant
            i <= records.len(),
            all == records_view(records@),
            edges_of_records(all.take(i as int)) == Ok::<Seq<(i32, i32)>, EdgeListError>(edges@),
        decreases records.len() - i,
    {
        proof {
            assert(all.take(i + 1).drop_last() =~= all.take(i as int));
            assert(all.take(i + 1).last() == record_view(records@[i as int]));
        }
        match edge_from_record(&records[i], i) {
            Ok(edge) => {
                edges.push(edge);
            },
            Err(e) => {
                proof {
                    lemma_first_error_stays(all, i + 1);
                }
                return Err(e);
            },
        }
        i += 1;
    }
    proof {
        assert(all.take(records@.len() as int) =~= all);
    }
    Ok(edges)
}

/// Builds the adjacency list from the text of a CSV edge list without a
/// header line. Every record gives one undirected edge by the node
/// identifiers in its first two fields.
///
/// Fails, before any graph is built, with the first thing wrong in the first
/// record that is wrong. On success the graph is the graph of the edges
/// read, which is symmetric.
pub fn build_adjacency_list_from_csv(data: &[u8]) -> (r: Result<AdjacencyList, EdgeListError>)
    ensures
        match r {
            Ok(adj) => edges_of_records(csv_records(data@)) matches Ok(edges) && adjacency_of(adj)
                == edge_graph(edges) && is_symmetric(adjacency_of(adj)),
            Err(e) => edges_of_records(csv_records(data@)) == Err::<Seq<(i32, i32)>, EdgeListError>(e),
        },
{
    let records = read_records(data);
    match edges_from_records(&records) {
        Ok(edges) => Ok(build_adjacency_list(&edges)),
        Err(e) => Err(e),
    }
}

} // verus!
