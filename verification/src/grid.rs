//! Grid cells, grid bounds and 8-connected adjacency.

use crate::error::GridError;
use vstd::prelude::*;

verus! {

/// A grid cell, addressed by its `(x, y)` coordinates.
pub type Point = (i32, i32);

/// Whether `p` lies in the half-open rectangle `[0, x_len) x [0, y_len)`.
pub open spec fn in_bounds(p: Point, x_len: int, y_len: int) -> bool {
    0 <= p.0 < x_len && 0 <= p.1 < y_len
}

/// Whether `a` and `b` are distinct cells that touch along a side or at a corner.
pub open spec fn adjacent(a: Point, b: Point) -> bool {
    a != b && -1 <= a.0 - b.0 <= 1 && -1 <= a.1 - b.1 <= 1
}

/// The cell reached from `p` by moving `dx` columns and `dy` rows.
pub open spec fn shifted(p: Point, dx: int, dy: int) -> Point {
    ((p.0 + dx) as i32, (p.1 + dy) as i32)
}

/// The eight cells around `p`, by ascending x and, within one x, ascending y.
pub open spec fn surroundings(p: Point) -> Seq<Point> {
    seq![
        shifted(p, -1, -1),
        shifted(p, -1, 0),
        shifted(p, -1, 1),
        shifted(p, 0, -1),
        shifted(p, 0, 1),
        shifted(p, 1, -1),
        shifted(p, 1, 0),
        shifted(p, 1, 1),
    ]
}

/// The neighbors of `p` in a grid of `x_len` columns and `y_len` rows: the
/// surrounding cells that lie within the bounds, in their fixed order.
pub open spec fn neighbors_spec(p: Point, x_len: int, y_len: int) -> Seq<Point> {
    surroundings(p).filter(|q: Point| in_bounds(q, x_len, y_len))
}

/// How many of the surrounding cells come before the offset `(dx, dy)`.
spec fn rank(dx: int, dy: int) -> int {
    let cell = 3 * (dx + 1) + (dy + 1);
    if cell <= 4 {
        cell
    } else {
        cell - 1
    }
}

proof fn lemma_filter_step(s: Seq<Point>, k: int, pred: spec_fn(Point) -> bool)
    requires
        0 <= k < s.len(),
    ensures
        s.take(k + 1).filter(pred) == if pred(s[k]) {
            s.take(k).filter(pred).push(s[k])
        } else {
            s.take(k).filter(pred)
        },
{
    reveal(Seq::filter);
    assert(s.take(k + 1).drop_last() =~= s.take(k));
}

/// Lists the neighbors of `p` in a grid of `x_len` columns and `y_len` rows:
/// those of the eight cells around `p` that lie within the grid, by ascending
/// x and, within one x, ascending y. A `p` outside the grid is refused.
pub fn neighbors(p: Point, x_len: i32, y_len: i32) -> (r: Result<Vec<Point>, GridError>)
    ensures
        match r {
            Ok(v) => in_bounds(p, x_len as int, y_len as int) && v@ == neighbors_spec(
                p,
                x_len as int,
                y_len as int,
            ),
            Err(e) => !in_bounds(p, x_len as int, y_len as int) && e == GridError::OutOfBounds,
        },
        0 < p.0 < x_len - 1 && 0 < p.1 < y_len - 1 ==> (r matches Ok(v) && v@ == surroundings(p)
            && v@.len() == 8),
{
    if p.0 < 0 || p.1 < 0 || p.0 >= x_len || p.1 >= y_len {
        return Err(GridError::OutOfBounds);
    }
    let ghost around = surroundings(p);
    let ghost inside = |q: Point| in_bounds(q, x_len as int, y_len as int);
    let mut found: Vec<Point> = Vec::new();
    let mut dx: i32 = -1;
    proof {
        reveal(Seq::filter);
        assert(around.take(0).filter(inside) =~= Seq::<Point>::empty());
    }
    while dx <= 1
        invariant
            -1 <= dx <= 2,
            in_bounds(p, x_len as int, y_len as int),
            around == surroundings(p),
            inside == |q: Point| in_bounds(q, x_len as int, y_len as int),
            found@ == around.take(rank(dx as int, -1)).filter(inside),
        decreases 2 - dx,
    {
        let mut dy: i32 = -1;
        while dy <= 1
            invariant
                -1 <= dx <= 1,
                -1 <= dy <= 2,
                in_bounds(p, x_len as int, y_len as int),
                around == surroundings(p),
                inside == |q: Point| in_bounds(q, x_len as int, y_len as int),
                found@ == around.take(rank(dx as int, dy as int)).filter(inside),
            decreases 2 - dy,
        {
            if !(dx == 0 && dy == 0) {
                let q: Point = (p.0 + dx, p.1 + dy);
                proof {
                    let k = rank(dx as int, dy as int);
                    assert(around[k] == q);
                    assert(rank(dx as int, dy + 1) == k + 1);
                    lemma_filter_step(around, k, inside);
                }
                if q.0 >= 0 && q.1 >= 0 && q.0 < x_len && q.1 < y_len {
                    found.push(q);
                }
            }
            dy = dy + 1;
        }
        dx = dx + 1;
    }
    proof {
        assert(around.take(8) =~= around);
        if 0 < p.0 < x_len - 1 && 0 < p.1 < y_len - 1 {
            lemma_interior_keeps_all(p, x_len, y_len);
        }
    }
    Ok(found)
}

/// Away from every border of the grid, all eight surrounding cells are neighbors.
pub proof fn lemma_interior_keeps_all(p: Point, x_len: i32, y_len: i32)
    requires
        0 < p.0 < x_len - 1,
        0 < p.1 < y_len - 1,
    ensures
        neighbors_spec(p, x_len as int, y_len as int) == surroundings(p),
        neighbors_spec(p, x_len as int, y_len as int).len() == 8,
{
    let inside = |q: Point| in_bounds(q, x_len as int, y_len as int);
    let around = surroundings(p);
    assert(around.take(0).filter(inside) =~= Seq::<Point>::empty()) by {
        reveal(Seq::filter);
    }
    assert forall|k: int| 0 <= k < 8 implies around.take(k + 1).filter(inside) == around.take(
        k,
    ).filter(inside).push(around[k]) by {
        assert(inside(around[0]) && inside(around[1]) && inside(around[2]) && inside(around[3]));
        assert(inside(around[4]) && inside(around[5]) && inside(around[6]) && inside(around[7]));
        lemma_filter_step(around, k, inside);
    }
    assert(around.take(1).filter(inside) =~= around.take(1));
    assert(around.take(2).filter(inside) =~= around.take(2));
    assert(around.take(3).filter(inside) =~= around.take(3));
    assert(around.take(4).filter(inside) =~= around.take(4));
    assert(around.take(5).filter(inside) =~= around.take(5));
    assert(around.take(6).filter(inside) =~= around.take(6));
    assert(around.take(7).filter(inside) =~= around.take(7));
    assert(around.take(8) =~= around);
    assert(around.take(8).filter(inside) =~= around);
}

/// A cell is a neighbor of `p` exactly when it touches `p` and lies within the bounds.
pub proof fn lemma_neighbors_touch(p: Point, x_len: i32, y_len: i32, q: Point)
    requires
        in_bounds(p, x_len as int, y_len as int),
    ensures
        neighbors_spec(p, x_len as int, y_len as int).contains(q) <==> in_bounds(
            q,
            x_len as int,
            y_len as int,
        ) && adjacent(p, q),
{
    let inside = |c: Point| in_bounds(c, x_len as int, y_len as int);
    let around = surroundings(p);
    let kept = around.filter(inside);
    if kept.contains(q) {
        around.lemma_filter_contains_rev(inside, q);
        let i = choose|i: int| 0 <= i < kept.len() && kept[i] == q;
        around.lemma_filter_pred(inside, i);
    }
    if in_bounds(q, x_len as int, y_len as int) && adjacent(p, q) {
        let k = rank(q.0 - p.0, q.1 - p.1);
        assert(0 <= k < 8 && around[k] == q);
        around.lemma_filter_contains(inside, k);
    }
}

proof fn lemma_filter_keeps_distinct(s: Seq<Point>, pred: spec_fn(Point) -> bool)
    requires
        s.no_duplicates(),
    ensures
        s.filter(pred).no_duplicates(),
    decreases s.len(),
{
    reveal(Seq::filter);
    if s.len() > 0 {
        let front = s.drop_last();
        lemma_filter_keeps_distinct(front, pred);
        if front.filter(pred).contains(s.last()) {
            front.lemma_filter_contains_rev(pred, s.last());
            let j = choose|j: int| 0 <= j < front.len() && front[j] == s.last();
            assert(s[j] == s[s.len() - 1]);
        }
    }
}

/// No cell is listed twice among the neighbors of `p`.
pub proof fn lemma_neighbors_distinct(p: Point, x_len: i32, y_len: i32)
    requires
        in_bounds(p, x_len as int, y_len as int),
    ensures
        neighbors_spec(p, x_len as int, y_len as int).no_duplicates(),
{
    let inside = |c: Point| in_bounds(c, x_len as int, y_len as int);
    let around = surroundings(p);
    assert(around.no_duplicates()) by {
        assert(around[0] == shifted(p, -1, -1) && around[1] == shifted(p, -1, 0) && around[2]
            == shifted(p, -1, 1) && around[3] == shifted(p, 0, -1));
        assert(around[4] == shifted(p, 0, 1) && around[5] == shifted(p, 1, -1) && around[6]
            == shifted(p, 1, 0) && around[7] == shifted(p, 1, 1));
    }
    lemma_filter_keeps_distinct(around, inside);
}

/// Lists the neighbors of `p` in a grid of three columns and three rows.
pub fn _neighbors_3x3(p: Point) -> (r: Result<Vec<Point>, GridError>)
    ensures
        match r {
            Ok(v) => in_bounds(p, 3, 3) && v@ == neighbors_spec(p, 3, 3),
            Err(e) => !in_bounds(p, 3, 3) && e == GridError::OutOfBounds,
        },
{
    neighbors(p, 3, 3)
}

} // verus!
