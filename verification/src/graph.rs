//! The undirected tile graph: an adjacency structure of `petgraph`, seen
//! through its set of nodes and its map of weighted edges.

use crate::grid::Point;
use petgraph::graphmap::GraphMap;
use petgraph::Undirected;
use std::hash::BuildHasher;
use std::hash::RandomState;
use vstd::prelude::*;

verus! {

/// The graph handed to shortest-path searches: nodes are grid cells, edges
/// are undirected and carry an integer weight.
pub type TileGraph = GraphMap<(i32, i32), i32, Undirected, RandomState>;

/// `petgraph::Undirected`, the marker type of graphs whose edges have no
/// direction. Nothing is claimed of it.
#[verifier::external_type_specification]
#[verifier::external_body]
pub struct ExUndirected(Undirected);

/// `petgraph::graphmap::GraphMap`, taken as an opaque value: what it holds is
/// told by [`graph_nodes`] and [`graph_edges`].
#[verifier::external_type_specification]
#[verifier::external_body]
#[verifier::reject_recursive_types(N)]
#[verifier::reject_recursive_types(E)]
#[verifier::reject_recursive_types(Ty)]
#[verifier::reject_recursive_types(S)]
pub struct ExGraphMap<N, E, Ty, S: BuildHasher>(GraphMap<N, E, Ty, S>);

/// The cells that are nodes of the graph: the keys of the node table that
/// petgraph keeps in a `GraphMap`.
pub uninterp spec fn graph_nodes(g: TileGraph) -> Set<Point>;

/// The edges of the graph with their weights: the edge table that petgraph
/// keeps in a `GraphMap`. An undirected edge is stored once, under the key
/// that [`edge_key`] gives to its two endpoints.
pub uninterp spec fn graph_edges(g: TileGraph) -> Map<(Point, Point), i32>;

/// The edge map of a graph without edges.
pub open spec fn no_edges() -> Map<(Point, Point), i32> {
    Map::empty()
}

/// The order in which tuples compare: by x, then by y.
pub open spec fn point_le(a: Point, b: Point) -> bool {
    a.0 < b.0 || (a.0 == b.0 && a.1 <= b.1)
}

/// The key under which the edge between `a` and `b` is stored: the two
/// endpoints, the smaller one first.
pub open spec fn edge_key(a: Point, b: Point) -> (Point, Point) {
    if point_le(a, b) {
        (a, b)
    } else {
        (b, a)
    }
}

/// Whether the graph has an edge between `a` and `b`.
pub open spec fn connected(g: TileGraph, a: Point, b: Point) -> bool {
    graph_edges(g).contains_key(edge_key(a, b))
}

/// The weight of the edge between `a` and `b`, meaningful where they are connected.
pub open spec fn edge_weight(g: TileGraph, a: Point, b: Point) -> i32 {
    graph_edges(g)[edge_key(a, b)]
}

/// Edges have no direction: the edge between `a` and `b` is the edge between `b` and `a`.
pub proof fn lemma_edges_undirected(g: TileGraph, a: Point, b: Point)
    ensures
        edge_key(a, b) == edge_key(b, a),
        connected(g, a, b) == connected(g, b, a),
        edge_weight(g, a, b) == edge_weight(g, b, a),
{
}

/// `GraphMap::new` of petgraph: trusted to return a graph that has neither
/// nodes nor edges.
#[verifier::external_body]
pub(crate) fn graph_new() -> (g: TileGraph)
    ensures
        graph_nodes(g) == Set::<Point>::empty(),
        graph_edges(g) == no_edges(),
{
    GraphMap::new()
}

/// `GraphMap::add_node` of petgraph: trusted to make `n` a node, whether or
/// not it was one, and to leave the other nodes and all edges as they were.
#[verifier::external_body]
pub(crate) fn graph_add_node(g: &mut TileGraph, n: Point)
    ensures
        graph_nodes(*final(g)) == graph_nodes(*old(g)).insert(n),
        graph_edges(*final(g)) == graph_edges(*old(g)),
{
    g.add_node(n);
}

/// `GraphMap::add_edge` of petgraph: trusted to store `weight` under the key
/// of `a` and `b`. Where that edge existed, its former weight is returned
/// and the nodes stay as they were; where it did not, `None` is returned
/// and both endpoints become nodes.
#[verifier::external_body]
pub(crate) fn graph_add_edge(
    g: &mut TileGraph,
    a: Point,
    b: Point,
    weight: i32,
) -> (former: Option<i32>)
    ensures
        graph_edges(*final(g)) == graph_edges(*old(g)).insert(edge_key(a, b), weight),
        graph_edges(*old(g)).contains_key(edge_key(a, b)) ==> former == Some(
            graph_edges(*old(g))[edge_key(a, b)],
        ) && graph_nodes(*final(g)) == graph_nodes(*old(g)),
        !graph_edges(*old(g)).contains_key(edge_key(a, b)) ==> former.is_none() && graph_nodes(
            *final(g),
        ) == graph_nodes(*old(g)).insert(a).insert(b),
{
    g.add_edge(a, b, weight)
}

/// `GraphMap::contains_node` of petgraph: trusted to tell whether `n` is a node.
#[verifier::external_body]
pub(crate) fn graph_contains_node(g: &TileGraph, n: Point) -> (present: bool)
    ensures
        present == graph_nodes(*g).contains(n),
{
    g.contains_node(n)
}

} // verus!
