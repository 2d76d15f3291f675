//! Straight lines between grid cells and their rasterization: the cells that
//! a walk from one end to the other passes through.

use crate::error::GridError;
use crate::grid::{adjacent, in_bounds, shifted, Point};
use vstd::arithmetic::div_mod::{
    lemma_div_is_ordered, lemma_fundamental_div_mod, lemma_fundamental_div_mod_converse,
    lemma_mod_bound,
};
use vstd::prelude::*;

verus! {

/// The size of `v` without its sign.
pub open spec fn magnitude(v: int) -> int {
    if v < 0 {
        -v
    } else {
        v
    }
}

/// The displacement of `k` cells towards the side to which `v` points:
/// backwards for a negative `v`, forwards for a positive one, none for zero.
pub open spec fn toward(v: int, k: int) -> int {
    if v < 0 {
        -k
    } else if v > 0 {
        k
    } else {
        0
    }
}

/// The integer nearest to `i * m / n`, a half counting upwards.
pub open spec fn rounded_share(i: int, m: int, n: int) -> int {
    (2 * i * m + n) / (2 * n)
}

/// What is left over when [`rounded_share`] divides.
pub open spec fn share_rest(i: int, m: int, n: int) -> int {
    (2 * i * m + n) % (2 * n)
}

/// A share and its rest make up what was divided.
pub proof fn lemma_share_parts(i: int, m: int, n: int)
    requires
        0 < n,
    ensures
        2 * i * m + n == 2 * n * rounded_share(i, m, n) + share_rest(i, m, n),
        0 <= share_rest(i, m, n) < 2 * n,
{
    lemma_fundamental_div_mod(2 * i * m + n, 2 * n);
    lemma_mod_bound(2 * i * m + n, 2 * n);
}

/// Any way of writing `2 * i * m + n` as a multiple of `2 * n` and a rest
/// below `2 * n` gives the share and its rest.
pub proof fn lemma_share_unique(i: int, m: int, n: int, q: int, r: int)
    requires
        0 < n,
        0 <= r < 2 * n,
        2 * i * m + n == 2 * n * q + r,
    ensures
        rounded_share(i, m, n) == q,
        share_rest(i, m, n) == r,
{
    assert(2 * n * q == q * (2 * n)) by (nonlinear_arith);
    lemma_fundamental_div_mod_converse(2 * i * m + n, 2 * n, q, r);
}

/// From one index to the next the rest changes by `2 * m`, and the share
/// moves by one exactly when that takes the rest out of its range.
pub proof fn lemma_share_step(i: int, m: int, n: int)
    requires
        -n <= m <= n,
        0 < n,
    ensures
        share_rest(i, m, n) + 2 * m >= 2 * n ==> rounded_share(i + 1, m, n) == rounded_share(
            i,
            m,
            n,
        ) + 1 && share_rest(i + 1, m, n) == share_rest(i, m, n) + 2 * m - 2 * n,
        share_rest(i, m, n) + 2 * m < 0 ==> rounded_share(i + 1, m, n) == rounded_share(i, m, n)
            - 1 && share_rest(i + 1, m, n) == share_rest(i, m, n) + 2 * m + 2 * n,
        0 <= share_rest(i, m, n) + 2 * m < 2 * n ==> rounded_share(i + 1, m, n) == rounded_share(
            i,
            m,
            n,
        ) && share_rest(i + 1, m, n) == share_rest(i, m, n) + 2 * m,
{
    let q = rounded_share(i, m, n);
    let r = share_rest(i, m, n);
    lemma_share_parts(i, m, n);
    assert(2 * (i + 1) * m == 2 * i * m + 2 * m) by (nonlinear_arith);
    if r + 2 * m >= 2 * n {
        assert(2 * n * (q + 1) == 2 * n * q + 2 * n) by (nonlinear_arith);
        lemma_share_unique(i + 1, m, n, q + 1, r + 2 * m - 2 * n);
    } else if r + 2 * m < 0 {
        assert(2 * n * (q - 1) == 2 * n * q - 2 * n) by (nonlinear_arith);
        lemma_share_unique(i + 1, m, n, q - 1, r + 2 * m + 2 * n);
    } else {
        lemma_share_unique(i + 1, m, n, q, r + 2 * m);
    }
}

/// At the start nothing has been covered, and the rest stands at half a step.
pub proof fn lemma_share_start(m: int, n: int)
    requires
        0 < n,
    ensures
        rounded_share(0, m, n) == 0,
        share_rest(0, m, n) == n,
{
    assert(2 * 0 * m == 0) by (nonlinear_arith);
    assert(2 * n * 0 == 0) by (nonlinear_arith);
    lemma_share_unique(0, m, n, 0, n);
}

/// After all `n` steps the whole of `m` has been covered.
pub proof fn lemma_share_end(m: int, n: int)
    requires
        0 < n,
    ensures
        rounded_share(n, m, n) == m,
        share_rest(n, m, n) == n,
{
    lemma_share_unique(n, m, n, m, n);
}

/// Along the longer side the share is the index itself, forwards or backwards.
pub proof fn lemma_share_of_whole(i: int, m: int, n: int)
    requires
        0 < n,
        m == n || m == -n,
    ensures
        rounded_share(i, m, n) == toward(m, i),
        share_rest(i, m, n) == n,
{
    if m == n {
        assert(2 * i * n + n == 2 * n * i + n) by (nonlinear_arith);
        lemma_share_unique(i, m, n, i, n);
    } else {
        assert(2 * i * (-n) + n == 2 * n * (-i) + n) by (nonlinear_arith);
        lemma_share_unique(i, m, n, -i, n);
    }
}

/// Where nothing is to be covered the share stays at zero.
pub proof fn lemma_share_of_nothing(i: int, n: int)
    requires
        0 < n,
    ensures
        rounded_share(i, 0, n) == 0,
        share_rest(i, 0, n) == n,
{
    assert(2 * i * 0 == 0) by (nonlinear_arith);
    assert(2 * n * 0 == 0) by (nonlinear_arith);
    lemma_share_unique(i, 0, n, 0, n);
}

/// A share never leaves the range between zero and `m`.
pub proof fn lemma_share_bounds(i: int, m: int, n: int)
    requires
        0 <= i <= n,
        0 < n,
    ensures
        0 <= rounded_share(i, m, n) <= m || m <= rounded_share(i, m, n) <= 0,
{
    lemma_share_start(m, n);
    lemma_share_end(m, n);
    if m >= 0 {
        assert(0 <= 2 * i * m <= 2 * n * m) by (nonlinear_arith)
            requires
                0 <= i <= n,
                0 <= m,
        ;
        lemma_div_is_ordered(2 * 0 * m + n, 2 * i * m + n, 2 * n);
        lemma_div_is_ordered(2 * i * m + n, 2 * n * m + n, 2 * n);
    } else {
        assert(2 * n * m <= 2 * i * m <= 0) by (nonlinear_arith)
            requires
                0 <= i <= n,
                m < 0,
        ;
        lemma_div_is_ordered(2 * i * m + n, 2 * 0 * m + n, 2 * n);
        lemma_div_is_ordered(2 * n * m + n, 2 * i * m + n, 2 * n);
    }
}

/// A share lies within half a unit of the exact `i * m / n`.
pub proof fn lemma_share_close(i: int, m: int, n: int)
    requires
        0 < n,
    ensures
        -n < 2 * (n * rounded_share(i, m, n) - i * m) <= n,
{
    let q = rounded_share(i, m, n);
    lemma_share_parts(i, m, n);
    assert(2 * (n * q - i * m) == 2 * n * q - 2 * i * m) by (nonlinear_arith);
}

/// Counted from the far end, what is still to be covered is rounded the
/// same way as what has been covered.
pub proof fn lemma_share_mirrored(i: int, m: int, n: int)
    requires
        0 < n,
    ensures
        rounded_share(n - i, -m, n) == rounded_share(i, m, n) - m,
{
    let q = rounded_share(i, m, n);
    let r = share_rest(i, m, n);
    lemma_share_parts(i, m, n);
    assert(2 * (n - i) * (-m) + n == 2 * n * (q - m) + r) by (nonlinear_arith)
        requires
            2 * i * m + n == 2 * n * q + r,
    ;
    lemma_share_unique(n - i, -m, n, q - m, r);
}

/// The straight segment from `first` to `second`.
#[derive(Clone, Copy, Debug, PartialEq, Eq)]
pub struct Line {
    pub first: Point,
    pub second: Point,
}

impl Line {
    /// How far `second` lies to the right of `first`.
    pub open spec fn run(self) -> int {
        self.second.0 - self.first.0
    }

    /// How far `second` lies above `first`.
    pub open spec fn rise(self) -> int {
        self.second.1 - self.first.1
    }

    /// The number of moves from `first` to `second`: the longer of the two
    /// sides of the line's bounding box.
    pub open spec fn steps(self) -> int {
        if magnitude(self.run()) >= magnitude(self.rise()) {
            magnitude(self.run())
        } else {
            magnitude(self.rise())
        }
    }

    /// Where the walk stands after `i` moves, relative to `first`: each
    /// coordinate has covered its share of the way, rounded to a whole cell.
    pub open spec fn offset_at(self, i: int) -> (int, int) {
        if self.steps() == 0 {
            (0, 0)
        } else {
            (
                rounded_share(i, self.run(), self.steps()),
                rounded_share(i, self.rise(), self.steps()),
            )
        }
    }

    /// The cell in which the walk stands after `i` moves.
    pub open spec fn point_at(self, i: int) -> Point {
        shifted(self.first, self.offset_at(i).0, self.offset_at(i).1)
    }

    /// The cells of the line in the order of the walk, both ends included.
    pub open spec fn points(self) -> Seq<Point> {
        Seq::new((self.steps() + 1) as nat, |i: int| self.point_at(i))
    }

    /// The same segment, taken from `second` to `first`.
    pub open spec fn reversed(self) -> Line {
        Line { first: self.second, second: self.first }
    }

    /// The slope of the line as the pair of its rise and its run. A line
    /// whose ends share their x coordinate has none.
    pub fn slope(&self) -> (r: Result<(i64, i64), GridError>)
        ensures
            match r {
                Ok(s) => self.run() != 0 && s.0 == self.rise() && s.1 == self.run(),
                Err(e) => self.run() == 0 && e == GridError::DegenerateLine,
            },
    {
        if self.first.0 == self.second.0 {
            Err(GridError::DegenerateLine)
        } else {
            Ok((span(self.first.1, self.second.1), span(self.first.0, self.second.0)))
        }
    }
}

/// The walk begins in `first` and, after all its moves, stands in `second`.
pub proof fn lemma_line_ends(line: Line)
    ensures
        line.steps() >= 0,
        line.point_at(0) == line.first,
        line.point_at(line.steps()) == line.second,
        line.points().len() == line.steps() + 1,
        line.points().first() == line.first,
        line.points().last() == line.second,
{
    let n = line.steps();
    if n > 0 {
        lemma_share_start(line.run(), n);
        lemma_share_start(line.rise(), n);
        lemma_share_end(line.run(), n);
        lemma_share_end(line.rise(), n);
    }
}

/// No cell of the walk lies outside the rectangle spanned by the two ends.
pub proof fn lemma_line_stays_between_ends(line: Line, i: int)
    requires
        0 <= i <= line.steps(),
    ensures
        line.first.0 <= line.point_at(i).0 <= line.second.0 || line.second.0 <= line.point_at(i).0
            <= line.first.0,
        line.first.1 <= line.point_at(i).1 <= line.second.1 || line.second.1 <= line.point_at(i).1
            <= line.first.1,
        line.point_at(i).0 == line.first.0 + line.offset_at(i).0,
        line.point_at(i).1 == line.first.1 + line.offset_at(i).1,
{
    let n = line.steps();
    if n > 0 {
        lemma_share_bounds(i, line.run(), n);
        lemma_share_bounds(i, line.rise(), n);
    }
}

/// A walk between two cells of a grid never leaves the grid.
pub proof fn lemma_line_stays_in_bounds(line: Line, x_len: int, y_len: int, i: int)
    requires
        in_bounds(line.first, x_len, y_len),
        in_bounds(line.second, x_len, y_len),
        0 <= i <= line.steps(),
    ensures
        in_bounds(line.point_at(i), x_len, y_len),
{
    lemma_line_stays_between_ends(line, i);
}

/// Along the longer side of its bounding box the walk advances by one cell
/// with every move: in x where the line is rather flat, in y where it is
/// rather steep.
pub proof fn lemma_line_advances_steadily(line: Line, i: int)
    requires
        0 <= i <= line.steps(),
    ensures
        magnitude(line.run()) >= magnitude(line.rise()) ==> line.point_at(i).0 == line.first.0
            + toward(line.run(), i),
        magnitude(line.rise()) >= magnitude(line.run()) ==> line.point_at(i).1 == line.first.1
            + toward(line.rise(), i),
{
    let n = line.steps();
    lemma_line_stays_between_ends(line, i);
    if n > 0 {
        if magnitude(line.run()) == n {
            lemma_share_of_whole(i, line.run(), n);
        }
        if magnitude(line.rise()) == n {
            lemma_share_of_whole(i, line.rise(), n);
        }
    }
}

/// Each move of the walk leads to one of the eight cells around.
pub proof fn lemma_line_moves_to_neighbors(line: Line, i: int)
    requires
        0 <= i < line.steps(),
    ensures
        adjacent(line.point_at(i), line.point_at(i + 1)),
{
    let n = line.steps();
    lemma_line_stays_between_ends(line, i);
    lemma_line_stays_between_ends(line, i + 1);
    lemma_line_advances_steadily(line, i);
    lemma_line_advances_steadily(line, i + 1);
    lemma_share_step(i, line.run(), n);
    lemma_share_step(i, line.rise(), n);
}

/// Each cell of the walk lies within half a cell of the exact line, in
/// either coordinate.
pub proof fn lemma_line_is_close(line: Line, i: int)
    requires
        0 < line.steps(),
    ensures
        -line.steps() < 2 * (line.steps() * line.offset_at(i).0 - i * line.run()) <= line.steps(),
        -line.steps() < 2 * (line.steps() * line.offset_at(i).1 - i * line.rise()) <= line.steps(),
{
    lemma_share_close(i, line.run(), line.steps());
    lemma_share_close(i, line.rise(), line.steps());
}

/// A line whose ends share their x coordinate is walked along y alone,
/// one row at a time.
pub proof fn lemma_vertical_line(line: Line, i: int)
    requires
        line.run() == 0,
        0 <= i <= line.steps(),
    ensures
        line.steps() == magnitude(line.rise()),
        line.point_at(i).0 == line.first.0,
        line.point_at(i).1 == line.first.1 + toward(line.rise(), i),
{
    let n = line.steps();
    lemma_line_advances_steadily(line, i);
    if n > 0 {
        lemma_share_of_nothing(i, n);
    }
}

/// Walked from its other end, a line passes through the same cells in the
/// opposite order.
pub proof fn lemma_line_reversed(line: Line, i: int)
    requires
        0 <= i <= line.steps(),
    ensures
        line.reversed().steps() == line.steps(),
        line.reversed().point_at(line.steps() - i) == line.point_at(i),
{
    let n = line.steps();
    lemma_line_stays_between_ends(line, i);
    lemma_line_stays_between_ends(line.reversed(), n - i);
    if n > 0 {
        lemma_share_mirrored(i, line.run(), n);
        lemma_share_mirrored(i, line.rise(), n);
    }
}

/// A walk along a line that hands out one cell at a time, from `first` to
/// `second`. Seen from outside it is the sequence of the cells still to come.
#[derive(Debug)]
pub struct Path {
    line: Line,
    /// How many cells have been handed out.
    taken: i64,
    /// The column of the cell that comes next, while one is left.
    x: i32,
    /// The row of the cell that comes next, while one is left.
    y: i32,
    /// The rest of the share that x has covered.
    rest_x: i64,
    /// The rest of the share that y has covered.
    rest_y: i64,
}

impl View for Path {
    type V = Seq<Point>;

    closed spec fn view(&self) -> Seq<Point> {
        self.line.points().skip(self.taken as int)
    }
}

/// The distance from `a` to `b` along one axis, with its sign.
fn span(a: i32, b: i32) -> (d: i64)
    ensures
        d == b - a,
{
    b as i64 - a as i64
}

/// The size of `v` without its sign.
fn size(v: i64) -> (m: i64)
    requires
        v > i64::MIN,
    ensures
        m == magnitude(v as int),
{
    if v < 0 {
        -v
    } else {
        v
    }
}

/// The number of moves that the walk along `line` takes.
fn moves(line: &Line) -> (n: i64)
    ensures
        n == line.steps(),
        0 <= n <= 0xFFFF_FFFF,
{
    let run = size(span(line.first.0, line.second.0));
    let rise = size(span(line.first.1, line.second.1));
    if run >= rise {
        run
    } else {
        rise
    }
}

/// Moves one coordinate by one step of the walk: the rest changes by twice
/// the side's length, and each time it leaves its range the coordinate
/// moves by one cell.
fn advance(coordinate: i32, rest: i64, delta: i64, n: i64) -> (moved: (i32, i64))
    requires
        0 < n <= 0xFFFF_FFFF,
        -n <= delta <= n,
        0 <= rest < 2 * n,
        rest + 2 * delta >= 2 * n ==> coordinate < i32::MAX,
        rest + 2 * delta < 0 ==> coordinate > i32::MIN,
    ensures
        rest + 2 * delta >= 2 * n ==> moved.0 == coordinate + 1 && moved.1 == rest + 2 * delta - 2
            * n,
        rest + 2 * delta < 0 ==> moved.0 == coordinate - 1 && moved.1 == rest + 2 * delta + 2 * n,
        0 <= rest + 2 * delta < 2 * n ==> moved.0 == coordinate && moved.1 == rest + 2 * delta,
{
    let raised = rest + 2 * delta;
    if raised >= 2 * n {
        (coordinate + 1, raised - 2 * n)
    } else if raised < 0 {
        (coordinate - 1, raised + 2 * n)
    } else {
        (coordinate, raised)
    }
}

impl Path {
    #[verifier::type_invariant]
    spec fn well_formed(self) -> bool {
        let n = self.line.steps();
        &&& 0 <= self.taken <= n + 1
        &&& self.taken <= n ==> (self.x, self.y) == self.line.point_at(self.taken as int)
        &&& self.taken <= n && n > 0 ==> {
            &&& self.rest_x == share_rest(self.taken as int, self.line.run(), n)
            &&& self.rest_y == share_rest(self.taken as int, self.line.rise(), n)
        }
    }

    /// Starts a walk along `line`. Every call with the same line gives the
    /// same cells from the start.
    pub fn new(line: Line) -> (path: Path)
        ensures
            path@ == line.points(),
    {
        let n = moves(&line);
        proof {
            lemma_line_ends(line);
            if n > 0 {
                lemma_share_start(line.run(), n as int);
                lemma_share_start(line.rise(), n as int);
            }
        }
        let path = Path { line, taken: 0, x: line.first.0, y: line.first.1, rest_x: n, rest_y: n };
        assert(path@ =~= line.points());
        path
    }

    /// Hands out the next cell of the walk, or `None` once `second` has been
    /// handed out.
    pub fn next(&mut self) -> (step: Option<Point>)
        ensures
            old(self)@.len() > 0 ==> step == Some(old(self)@[0]) && final(self)@ == old(
                self,
            )@.skip(1),
            old(self)@.len() == 0 ==> step.is_none() && final(self)@ == old(self)@,
    {
        proof {
            use_type_invariant(&*self);
        }
        let line = self.line;
        let taken = self.taken;
        let here: Point = (self.x, self.y);
        let n = moves(&line);
        if taken > n {
            return None;
        }
        let ghost before = self@;
        assert(before.len() == n + 1 - taken);
        assert(before[0] == here);
        let mut x = here.0;
        let mut y = here.1;
        let mut rest_x = self.rest_x;
        let mut rest_y = self.rest_y;
        if taken < n {
            proof {
                lemma_line_stays_between_ends(line, taken as int);
                lemma_line_stays_between_ends(line, taken + 1);
                lemma_share_step(taken as int, line.run(), n as int);
                lemma_share_step(taken as int, line.rise(), n as int);
            }
            match line.slope() {
                Ok((rise, run)) => {
                    let along_x = advance(x, rest_x, run, n);
                    let along_y = advance(y, rest_y, rise, n);
                    x = along_x.0;
                    rest_x = along_x.1;
                    y = along_y.0;
                    rest_y = along_y.1;
                },
                Err(_) => {
                    // Without a slope the walk goes along y alone, one row at a time.
                    proof {
                        lemma_vertical_line(line, taken as int);
                        lemma_vertical_line(line, taken + 1);
                        lemma_share_of_whole(taken + 1, line.rise(), n as int);
                    }
                    if line.second.1 < line.first.1 {
                        y = y - 1;
                    } else {
                        y = y + 1;
                    }
                },
            }
        }
        *self = Path { line, taken: taken + 1, x, y, rest_x, rest_y };
        assert(self@ =~= before.skip(1));
        Some(here)
    }
}

} // verus!
