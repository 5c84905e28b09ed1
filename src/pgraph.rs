//! The subclass graph is held in a `petgraph` directed graph. This module
//! declares that type to Verus, names what a graph holds (its node weights and
//! its edges, in the order they were added) and wraps the few methods the
//! library calls.
use vstd::prelude::*;

verus! {

/// Directed graph whose nodes carry MIME type names.
pub type MimeGraph = petgraph::Graph<String, u32, petgraph::Directed, u32>;

#[verifier::external_type_specification]
#[verifier::external_body]
#[verifier::reject_recursive_types(N)]
#[verifier::reject_recursive_types(E)]
#[verifier::reject_recursive_types(Ty)]
#[verifier::reject_recursive_types(Ix)]
pub struct ExGraph<N, E, Ty, Ix>(petgraph::Graph<N, E, Ty, Ix>);

#[verifier::external_type_specification]
#[verifier::external_body]
pub struct ExDirected(petgraph::Directed);

/// The node weights of a graph, by node index.
pub uninterp spec fn graph_nodes(g: petgraph::Graph<String, u32, petgraph::Directed, u32>) -> Seq<
    Seq<char>,
>;

/// The edges of a graph as (source, target) node indices, in order of addition.
pub uninterp spec fn graph_edges(g: petgraph::Graph<String, u32, petgraph::Directed, u32>) -> Seq<
    (int, int),
>;

/// The neighbours of `a` over `edges`, most recently added edge first: the
/// targets of the edges leaving `a`, or (with `incoming`) the sources of the
/// edges entering `a`.
pub open spec fn adjacent(edges: Seq<(int, int)>, a: int, incoming: bool) -> Seq<int>
    decreases edges.len(),
{
    if edges.len() == 0 {
        Seq::empty()
    } else {
        let e = edges.last();
        let rest = adjacent(edges.drop_last(), a, incoming);
        if incoming && e.1 == a {
            seq![e.0] + rest
        } else if !incoming && e.0 == a {
            seq![e.1] + rest
        } else {
            rest
        }
    }
}

/// A node appears among the neighbours of `a` exactly when an edge joins them
/// in the given direction.
pub proof fn lemma_adjacent_contains(edges: Seq<(int, int)>, a: int, incoming: bool, x: int)
    ensures
        adjacent(edges, a, incoming).contains(x) <==> (if incoming {
            edges.contains((x, a))
        } else {
            edges.contains((a, x))
        }),
    decreases edges.len(),
{
    if edges.len() > 0 {
        let e = edges.last();
        let d = edges.drop_last();
        lemma_adjacent_contains(d, a, incoming, x);
        assert(edges == d.push(e));
        let pair = if incoming {
            (x, a)
        } else {
            (a, x)
        };
        assert(edges.contains(pair) <==> (d.contains(pair) || e == pair)) by {
            if edges.contains(pair) {
                let k = choose|k: int| 0 <= k < edges.len() && edges[k] == pair;
                if k < d.len() {
                    assert(d[k] == pair);
                }
            }
            if d.contains(pair) {
                let k = choose|k: int| 0 <= k < d.len() && d[k] == pair;
                assert(edges[k] == pair);
            }
            if e == pair {
                assert(edges[edges.len() - 1] == pair);
            }
        }
        let rest = adjacent(d, a, incoming);
        if incoming && e.1 == a {
            lemma_cons_contains(e.0, rest, x);
        } else if !incoming && e.0 == a {
            lemma_cons_contains(e.1, rest, x);
        }
    }
}

proof fn lemma_cons_contains(h: int, rest: Seq<int>, x: int)
    ensures
        (seq![h] + rest).contains(x) <==> (h == x || rest.contains(x)),
{
    let s = seq![h] + rest;
    if s.contains(x) {
        let k = choose|k: int| 0 <= k < s.len() && s[k] == x;
        if k > 0 {
            assert(rest[k - 1] == x);
        }
    }
    if rest.contains(x) {
        let k = choose|k: int| 0 <= k < rest.len() && rest[k] == x;
        assert(s[k + 1] == x);
    }
    if h == x {
        assert(s[0] == x);
    }
}

/// Relies on `petgraph::Graph::new`: a directed graph with no nodes and no edges.
#[verifier::external_body]
pub(crate) fn graph_new() -> (g: MimeGraph)
    ensures
        graph_nodes(g) == Seq::<Seq<char>>::empty(),
        graph_edges(g) == Seq::<(int, int)>::empty(),
{
    petgraph::Graph::new()
}

/// Relies on `petgraph::Graph::add_node`: the weight is appended and its index
/// is the former node count; the call panics when that count is `u32::MAX`.
#[verifier::external_body]
pub(crate) fn graph_add_node(g: &mut MimeGraph, w: String) -> (r: usize)
    requires
        graph_nodes(*old(g)).len() < u32::MAX,
    ensures
        r == graph_nodes(*old(g)).len(),
        graph_nodes(*final(g)) == graph_nodes(*old(g)).push(w@),
        graph_edges(*final(g)) == graph_edges(*old(g)),
{
    g.add_node(w).index()
}

/// Relies on `petgraph::Graph::add_edge`: the edge `a -> b` is appended; the call
/// panics when an endpoint is not a node or the edge count is `u32::MAX`.
#[verifier::external_body]
pub(crate) fn graph_add_edge(g: &mut MimeGraph, a: usize, b: usize)
    requires
        a < graph_nodes(*old(g)).len(),
        b < graph_nodes(*old(g)).len(),
        graph_edges(*old(g)).len() < u32::MAX,
    ensures
        graph_nodes(*final(g)) == graph_nodes(*old(g)),
        graph_edges(*final(g)) == graph_edges(*old(g)).push((a as int, b as int)),
{
    g.add_edge(petgraph::graph::NodeIndex::new(a), petgraph::graph::NodeIndex::new(b), 0);
}

/// Relies on `petgraph::Graph::find_edge`: it walks the edges leaving `a` and
/// finds one whose target is `b` when there is one.
#[verifier::external_body]
pub(crate) fn graph_has_edge(g: &MimeGraph, a: usize, b: usize) -> (r: bool)
    requires
        a < graph_nodes(*g).len(),
        b < graph_nodes(*g).len(),
    ensures
        r == graph_edges(*g).contains((a as int, b as int)),
{
    g.find_edge(petgraph::graph::NodeIndex::new(a), petgraph::graph::NodeIndex::new(b)).is_some()
}

/// Relies on `petgraph::Graph::neighbors_directed`: for a directed graph it lists
/// the neighbours of `a` along one direction, most recently added edge first.
#[verifier::external_body]
pub(crate) fn graph_neighbors(g: &MimeGraph, a: usize, incoming: bool) -> (r: Vec<usize>)
    requires
        a < graph_nodes(*g).len(),
    ensures
        r@.map_values(|x: usize| x as int) == adjacent(graph_edges(*g), a as int, incoming),
{
    let dir = if incoming {
        petgraph::Direction::Incoming
    } else {
        petgraph::Direction::Outgoing
    };
    g.neighbors_directed(petgraph::graph::NodeIndex::new(a), dir).map(|n| n.index()).collect()
}

/// Relies on `petgraph::Graph::node_weight`: the weight stored at node `a`.
#[verifier::external_body]
pub(crate) fn graph_weight(g: &MimeGraph, a: usize) -> (r: &String)
    requires
        a < graph_nodes(*g).len(),
    ensures
        r@ == graph_nodes(*g)[a as int],
{
    g.node_weight(petgraph::graph::NodeIndex::new(a)).unwrap()
}

} // verus!
