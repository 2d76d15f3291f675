//! Construction of the tile graph of an empty grid: every cell is a node and
//! is joined to each of its neighbors by an edge of weight one.

use crate::error::GridError;
use crate::graph::{
    connected, edge_key, edge_weight, graph_add_edge, graph_add_node, graph_edges, graph_new,
    graph_nodes, point_le, TileGraph,
};
use crate::grid::{
    adjacent, in_bounds, lemma_neighbors_distinct, lemma_neighbors_touch, neighbors,
    neighbors_spec, Point,
};
use vstd::prelude::*;
use vstd::set_lib::lemma_set_disjoint_lens;

verus! {

/// All cells of a grid of `x_size` columns and `y_size` rows.
pub open spec fn grid_points(x_size: int, y_size: int) -> Set<Point> {
    Set::new(|p: Point| in_bounds(p, x_size, y_size))
}

/// The edges of the grid: one of weight one between any two cells that
/// touch, stored under the pair with the smaller cell first.
pub open spec fn grid_edges(x_size: int, y_size: int) -> Map<(Point, Point), i32> {
    Map::new(
        |k: (Point, Point)|
            in_bounds(k.0, x_size, y_size) && in_bounds(k.1, x_size, y_size) && adjacent(k.0, k.1)
                && point_le(k.0, k.1),
        |k: (Point, Point)| 1i32,
    )
}

/// Whether `g` is the tile graph of the empty grid of the given size.
pub open spec fn is_tile_grid(g: TileGraph, x_size: int, y_size: int) -> bool {
    graph_nodes(g) == grid_points(x_size, y_size) && graph_edges(g) == grid_edges(x_size, y_size)
}

/// Whether the cell `q` comes before `(x, y)` when the grid is walked column
/// by column.
spec fn visited(q: Point, x: int, y: int) -> bool {
    q.0 < x || (q.0 == x && q.1 < y)
}

/// What holds of the graph while it is being filled, when the walk has
/// reached `(x, y)`: nothing outside the grid has been added, and the
/// visited cells are present with all their edges.
spec fn partial_grid(g: TileGraph, x_size: int, y_size: int, x: int, y: int) -> bool {
    &&& forall|q: Point| #[trigger] graph_nodes(g).contains(q) ==> in_bounds(q, x_size, y_size)
    &&& forall|q: Point|
        in_bounds(q, x_size, y_size) && visited(q, x, y) ==> #[trigger] graph_nodes(g).contains(q)
    &&& forall|k: (Point, Point)| #[trigger]
        graph_edges(g).contains_key(k) ==> grid_edges(x_size, y_size).contains_key(k)
            && graph_edges(g)[k] == 1
    &&& forall|a: Point, b: Point|
        in_bounds(a, x_size, y_size) && visited(a, x, y) && in_bounds(b, x_size, y_size)
            && #[trigger] adjacent(a, b) ==> graph_edges(g).contains_key(edge_key(a, b))
}

/// The cells of column `x` below row `n`.
spec fn column(x: i32, n: int) -> Set<Point> {
    Set::new(|p: Point| p.0 == x && 0 <= p.1 < n)
}

proof fn lemma_column_len(x: i32, n: int)
    requires
        0 <= n <= i32::MAX + 1,
    ensures
        column(x, n).finite(),
        column(x, n).len() == n,
    decreases n,
{
    if n == 0 {
        assert(column(x, n) =~= Set::<Point>::empty());
    } else {
        lemma_column_len(x, n - 1);
        assert(column(x, n) =~= column(x, n - 1).insert((x, (n - 1) as i32)));
    }
}

/// A grid of `x_size` columns and `y_size` rows has `x_size * y_size` cells.
pub proof fn lemma_grid_points_len(x_size: int, y_size: int)
    requires
        0 <= x_size <= i32::MAX + 1,
        0 <= y_size <= i32::MAX + 1,
    ensures
        grid_points(x_size, y_size).finite(),
        grid_points(x_size, y_size).len() == x_size * y_size,
    decreases x_size,
{
    if x_size == 0 {
        assert(grid_points(x_size, y_size) =~= Set::<Point>::empty());
    } else {
        let before = grid_points(x_size - 1, y_size);
        let last = column((x_size - 1) as i32, y_size);
        lemma_grid_points_len(x_size - 1, y_size);
        lemma_column_len((x_size - 1) as i32, y_size);
        assert(grid_points(x_size, y_size) =~= before + last);
        assert(before.disjoint(last));
        lemma_set_disjoint_lens(before, last);
        assert((x_size - 1) * y_size + y_size == x_size * y_size) by (nonlinear_arith);
    }
}

/// Builds the tile graph of an empty grid of `x_size` columns and `y_size`
/// rows: every cell of the grid is a node, and any two cells that touch are
/// joined by one edge of weight one. Sizes below one are refused, and no
/// graph is built for them.
pub fn build_empty_tile_graph(x_size: i32, y_size: i32) -> (r: Result<TileGraph, GridError>)
    ensures
        match r {
            Ok(g) => x_size >= 1 && y_size >= 1 && is_tile_grid(g, x_size as int, y_size as int)
                && graph_nodes(g).finite() && graph_nodes(g).len() == x_size * y_size,
            Err(e) => (x_size < 1 || y_size < 1) && e == GridError::InvalidGridSize,
        },
{
    if x_size < 1 || y_size < 1 {
        return Err(GridError::InvalidGridSize);
    }
    let mut g = graph_new();
    let mut x: i32 = 0;
    while x < x_size
        invariant
            0 <= x <= x_size,
            1 <= y_size,
            partial_grid(g, x_size as int, y_size as int, x as int, 0),
        decreases x_size - x,
    {
        let mut y: i32 = 0;
        while y < y_size
            invariant
                0 <= x < x_size,
                0 <= y <= y_size,
                partial_grid(g, x_size as int, y_size as int, x as int, y as int),
            decreases y_size - y,
        {
            let p: Point = (x, y);
            graph_add_node(&mut g, p);
            let around = neighbors(p, x_size, y_size).unwrap();
            let mut i: usize = 0;
            while i < around.len()
                invariant
                    0 <= i <= around.len(),
                    p == (x, y),
                    in_bounds(p, x_size as int, y_size as int),
                    around@ == neighbors_spec(p, x_size as int, y_size as int),
                    partial_grid(g, x_size as int, y_size as int, x as int, y as int),
                    graph_nodes(g).contains(p),
                    forall|j: int|
                        0 <= j < i ==> graph_edges(g).contains_key(
                            edge_key(p, #[trigger] around@[j]),
                        ),
                decreases around.len() - i,
            {
                let n = around[i];
                proof {
                    assert(around@.contains(n));
                    lemma_neighbors_touch(p, x_size, y_size, n);
                }
                graph_add_edge(&mut g, p, n, 1);
                i = i + 1;
            }
            proof {
                assert forall|a: Point, b: Point|
                    in_bounds(a, x_size as int, y_size as int) && visited(a, x as int, y + 1)
                        && in_bounds(b, x_size as int, y_size as int) && #[trigger] adjacent(
                        a,
                        b,
                    ) implies graph_edges(g).contains_key(edge_key(a, b)) by {
                    if a == p {
                        lemma_neighbors_touch(p, x_size, y_size, b);
                        let j = choose|j: int| 0 <= j < around@.len() && around@[j] == b;
                        assert(graph_edges(g).contains_key(edge_key(p, around@[j])));
                    } else {
                        assert(visited(a, x as int, y as int));
                    }
                }
            }
            y = y + 1;
        }
        x = x + 1;
    }
    proof {
        assert(graph_nodes(g) =~= grid_points(x_size as int, y_size as int));
        assert forall|k: (Point, Point)|
            grid_edges(x_size as int, y_size as int).contains_key(k) implies graph_edges(
            g,
        ).contains_key(k) by {
            assert(adjacent(k.0, k.1));
            assert(edge_key(k.0, k.1) == k);
        }
        assert(graph_edges(g) =~= grid_edges(x_size as int, y_size as int));
        lemma_grid_points_len(x_size as int, y_size as int);
    }
    Ok(g)
}

/// Building the same grid twice gives the same nodes and the same edges.
pub proof fn lemma_build_is_repeatable(g1: TileGraph, g2: TileGraph, x_size: int, y_size: int)
    requires
        is_tile_grid(g1, x_size, y_size),
        is_tile_grid(g2, x_size, y_size),
    ensures
        graph_nodes(g1) == graph_nodes(g2),
        graph_edges(g1) == graph_edges(g2),
{
}

/// The cells to which `a` is joined by an edge.
pub open spec fn links(g: TileGraph, a: Point) -> Set<Point> {
    Set::new(|b: Point| connected(g, a, b))
}

/// In the tile graph of an empty grid every cell is joined to its neighbors
/// and to nothing else, by edges of weight one, so that it has as many edges
/// as it has neighbors.
pub proof fn lemma_grid_links(g: TileGraph, x_size: i32, y_size: i32, a: Point)
    requires
        is_tile_grid(g, x_size as int, y_size as int),
        in_bounds(a, x_size as int, y_size as int),
    ensures
        links(g, a) == neighbors_spec(a, x_size as int, y_size as int).to_set(),
        links(g, a).finite(),
        links(g, a).len() == neighbors_spec(a, x_size as int, y_size as int).len(),
        forall|b: Point| #[trigger] connected(g, a, b) ==> edge_weight(g, a, b) == 1,
{
    let around = neighbors_spec(a, x_size as int, y_size as int);
    assert forall|b: Point| connected(g, a, b) == around.contains(b) by {
        lemma_neighbors_touch(a, x_size, y_size, b);
        if in_bounds(b, x_size as int, y_size as int) && adjacent(a, b) {
            assert(adjacent(b, a));
        }
    }
    assert(links(g, a) =~= around.to_set());
    lemma_neighbors_distinct(a, x_size, y_size);
    around.unique_seq_to_set();
}

} // verus!
