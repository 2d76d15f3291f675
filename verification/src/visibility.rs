//! Line-of-sight between two cells of a tile graph.

use crate::builder::is_tile_grid;
use crate::graph::{graph_contains_node, graph_nodes, TileGraph};
use crate::grid::{in_bounds, Point};
use crate::line::{
    lemma_line_ends, lemma_line_reversed, lemma_line_stays_in_bounds, Line, Path,
};
use vstd::prelude::*;

verus! {

/// Whether `cells[k]` is the first of `cells` that is not among `nodes`.
pub open spec fn is_first_gap(cells: Seq<Point>, nodes: Set<Point>, k: int) -> bool {
    &&& 0 <= k < cells.len()
    &&& !nodes.contains(cells[k])
    &&& forall|j: int| 0 <= j < k ==> nodes.contains(#[trigger] cells[j])
}

/// Whether the straight walk from `from` to `to` passes through a cell that is
/// not a node of `g`.
pub open spec fn blocked_between(g: TileGraph, from: Point, to: Point) -> bool {
    let line = Line { first: from, second: to };
    exists|i: int| 0 <= i <= line.steps() && !graph_nodes(g).contains(#[trigger] line.point_at(i))
}

/// Follows `path` up to the first cell that is missing from the graph and
/// returns that cell. The walk is not taken any further: the cells behind
/// the gap are still to come. Where no cell is missing, the walk is used up
/// and `None` is returned.
pub fn first_gap(path: &mut Path, g: &TileGraph) -> (gap: Option<Point>)
    ensures
        match gap {
            Some(cell) => exists|k: int|
                is_first_gap(old(path)@, graph_nodes(*g), k) && cell == old(path)@[k]
                    && final(path)@ == old(path)@.skip(k + 1),
            None => final(path)@.len() == 0 && forall|j: int|
                0 <= j < old(path)@.len() ==> graph_nodes(*g).contains(#[trigger] old(path)@[j]),
        },
{
    let ghost cells = path@;
    let ghost mut seen: int = 0;
    loop
        invariant
            cells == old(path)@,
            0 <= seen <= cells.len(),
            path@ == cells.skip(seen),
            forall|j: int| 0 <= j < seen ==> graph_nodes(*g).contains(#[trigger] cells[j]),
        decreases cells.len() - seen,
    {
        match path.next() {
            Some(step) => {
                assert(step == cells[seen]);
                assert(cells.skip(seen).skip(1) =~= cells.skip(seen + 1));
                if !graph_contains_node(g, step) {
                    assert(is_first_gap(cells, graph_nodes(*g), seen));
                    return Some(step);
                }
                proof {
                    seen = seen + 1;
                }
            },
            None => {
                return None;
            },
        }
    }
}

/// Tells whether something stands between `from` and `to`: whether any cell on
/// the straight walk from one to the other, the two ends included, is
/// missing from the graph. The walk is given up at the first missing cell.
pub fn collision_between(from: Point, to: Point, g: &TileGraph) -> (blocked: bool)
    ensures
        blocked == blocked_between(*g, from, to),
{
    let line = Line { first: from, second: to };
    let mut path = Path::new(line);
    let gap = first_gap(&mut path, g);
    proof {
        match gap {
            Some(cell) => {
                let k = choose|k: int|
                    is_first_gap(line.points(), graph_nodes(*g), k) && cell == line.points()[k];
                assert(!graph_nodes(*g).contains(line.point_at(k)));
            },
            None => {
                assert forall|i: int| 0 <= i <= line.steps() implies graph_nodes(*g).contains(
                    #[trigger] line.point_at(i),
                ) by {
                    assert(line.points()[i] == line.point_at(i));
                }
            },
        }
    }
    gap.is_some()
}

/// A cell that is missing from the graph cannot be seen from anywhere, nor
/// can anything be seen from it.
pub proof fn lemma_missing_end_blocks(g: TileGraph, from: Point, to: Point)
    requires
        !graph_nodes(g).contains(from) || !graph_nodes(g).contains(to),
    ensures
        blocked_between(g, from, to),
{
    let line = Line { first: from, second: to };
    lemma_line_ends(line);
    if !graph_nodes(g).contains(from) {
        assert(!graph_nodes(g).contains(line.point_at(0)));
    } else {
        assert(!graph_nodes(g).contains(line.point_at(line.steps())));
    }
}

/// On the tile graph of an empty grid nothing stands between any two cells
/// of the grid.
pub proof fn lemma_empty_grid_is_clear(
    g: TileGraph,
    x_size: int,
    y_size: int,
    from: Point,
    to: Point,
)
    requires
        is_tile_grid(g, x_size, y_size),
        in_bounds(from, x_size, y_size),
        in_bounds(to, x_size, y_size),
    ensures
        !blocked_between(g, from, to),
{
    let line = Line { first: from, second: to };
    assert forall|i: int| 0 <= i <= line.steps() implies graph_nodes(g).contains(
        #[trigger] line.point_at(i),
    ) by {
        lemma_line_stays_in_bounds(line, x_size, y_size, i);
    }
}

/// What stands between `from` and `to` stands between `to` and `from`.
pub proof fn lemma_sight_is_mutual(g: TileGraph, from: Point, to: Point)
    ensures
        blocked_between(g, from, to) == blocked_between(g, to, from),
{
    let there = Line { first: from, second: to };
    let back = Line { first: to, second: from };
    assert(back == there.reversed() && there == back.reversed());
    if blocked_between(g, from, to) {
        let i = choose|i: int|
            0 <= i <= there.steps() && !graph_nodes(g).contains(#[trigger] there.point_at(i));
        lemma_line_reversed(there, i);
        assert(!graph_nodes(g).contains(back.point_at(there.steps() - i)));
    }
    if blocked_between(g, to, from) {
        let i = choose|i: int|
            0 <= i <= back.steps() && !graph_nodes(g).contains(#[trigger] back.point_at(i));
        lemma_line_reversed(back, i);
        assert(!graph_nodes(g).contains(there.point_at(back.steps() - i)));
    }
}

} // verus!
