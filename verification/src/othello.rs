//! The board engine: board state, legality of placement, and piece
//! flipping.
//!
//! A board is a square grid of cells. Placing a piece is legal exactly
//! when, in at least one of the eight directions, a contiguous run of
//! opponent pieces starting next to the placed piece ends at a piece of
//! the mover's own colour; all such runs are flipped.

use vstd::assert_seqs_equal;
use vstd::prelude::*;

verus! {

/// One square coordinate on a board: `x` is the column, `y` the row,
/// both counted from the top-left corner.
#[derive(Debug, Clone, Copy, PartialEq, Eq, Structural)]
pub struct Point {
    pub x: usize,
    pub y: usize,
}

/// Returned by primitive board accesses when a point lies outside the
/// grid, and by [`Point::move_for`] when a coordinate would leave the
/// `usize` range.
#[derive(Debug, Clone, Copy, PartialEq, Eq, Structural)]
pub struct OutOfBoundaryError();

/// A step delta: each component is `-1`, `0` or `1` for the eight board
/// directions, or a multiple of such a delta (see [`Direction::times`]).
#[derive(Debug, Clone, Copy, PartialEq, Eq, Structural)]
pub struct Direction {
    pub x: isize,
    pub y: isize,
}

impl Point {
    pub fn new(x: usize, y: usize) -> (r: Self)
        ensures
            r == (Point { x, y }),
    {
        Point { x, y }
    }

    /// Moves this point by `d`, failing when a coordinate would become
    /// negative or exceed `usize::MAX`.
    pub fn move_for(&self, d: Direction) -> (r: Result<Self, OutOfBoundaryError>)
        ensures
            r is Ok <==> (0 <= self.x + d.x <= usize::MAX && 0 <= self.y + d.y <= usize::MAX),
            r matches Ok(p) ==> p.x == self.x + d.x && p.y == self.y + d.y,
            r matches Err(e) ==> e == OutOfBoundaryError(),
    {
        let x = match self.x.checked_add_signed(d.x) {
            Some(x) => x,
            None => {
                return Err(OutOfBoundaryError());
            },
        };
        let y = match self.y.checked_add_signed(d.y) {
            Some(y) => y,
            None => {
                return Err(OutOfBoundaryError());
            },
        };
        Ok(Point { x, y })
    }
}

impl Direction {
    /// Scales the delta by an integer factor, for stepping several
    /// cells at once.
    pub fn times(&self, times: isize) -> (r: Self)
        requires
            isize::MIN <= self.x * times <= isize::MAX,
            isize::MIN <= self.y * times <= isize::MAX,
        ensures
            r.x == self.x * times,
            r.y == self.y * times,
    {
        Self { x: self.x * times, y: self.y * times }
    }
}

/// One of the two players. Unlike [`Cell`], a piece is never empty.
#[derive(Debug, Clone, Copy, PartialEq, Eq, Structural)]
pub enum Piece {
    Black,
    White,
}

impl Piece {
    /// The opposing colour.
    pub open spec fn spec_flip(self) -> Piece {
        match self {
            Piece::Black => Piece::White,
            Piece::White => Piece::Black,
        }
    }

    /// The opposing colour.
    pub fn flip(&self) -> (r: Self)
        ensures
            r == self.spec_flip(),
    {
        match self {
            Piece::Black => Piece::White,
            Piece::White => Piece::Black,
        }
    }

    /// The cell occupied by this piece.
    pub open spec fn spec_cell(self) -> Cell {
        match self {
            Piece::Black => Cell::Black,
            Piece::White => Cell::White,
        }
    }

    /// The cell occupied by this piece (a lossless conversion).
    pub fn cell(&self) -> (r: Cell)
        ensures
            r == self.spec_cell(),
    {
        match self {
            Piece::Black => Cell::Black,
            Piece::White => Cell::White,
        }
    }
}

/// The content of one board square.
#[derive(Debug, Clone, Copy, PartialEq, Eq, Structural)]
pub enum Cell {
    Empty,
    Black,
    White,
}

impl Cell {
    /// Swaps the two colours; an empty cell stays empty.
    pub open spec fn spec_flip(self) -> Cell {
        match self {
            Cell::Empty => Cell::Empty,
            Cell::Black => Cell::White,
            Cell::White => Cell::Black,
        }
    }

    /// Swaps the two colours; an empty cell stays empty.
    pub fn flip(&self) -> (r: Cell)
        ensures
            r == self.spec_flip(),
    {
        match self {
            Cell::Empty => Cell::Empty,
            Cell::Black => Cell::White,
            Cell::White => Cell::Black,
        }
    }

    /// The piece occupying this cell, if any.
    pub open spec fn spec_piece(self) -> Option<Piece> {
        match self {
            Cell::Empty => None,
            Cell::Black => Some(Piece::Black),
            Cell::White => Some(Piece::White),
        }
    }

    /// The piece occupying this cell, if any (an empty cell holds none).
    pub fn piece(&self) -> (r: Option<Piece>)
        ensures
            r == self.spec_piece(),
    {
        match self {
            Cell::Empty => None,
            Cell::Black => Some(Piece::Black),
            Cell::White => Some(Piece::White),
        }
    }
}

/// Whether `(dx, dy)` is one of the eight unit direction deltas.
pub open spec fn is_unit_dir(dx: int, dy: int) -> bool {
    -1 <= dx <= 1 && -1 <= dy <= 1 && !(dx == 0 && dy == 0)
}

/// The eight unit directions in the order the engine scans them.
pub open spec fn dir8(i: int) -> (int, int) {
    if i == 0 {
        (-1, -1)
    } else if i == 1 {
        (0, -1)
    } else if i == 2 {
        (1, -1)
    } else if i == 3 {
        (1, 0)
    } else if i == 4 {
        (1, 1)
    } else if i == 5 {
        (0, 1)
    } else if i == 6 {
        (-1, 1)
    } else {
        (-1, 0)
    }
}

/// How many steps can be taken from coordinate `c` along delta `d`
/// before leaving `[0, n)`; `n` itself when the axis does not move.
pub open spec fn axis_room(n: int, c: int, d: int) -> int {
    if d > 0 {
        n - 1 - c
    } else if d < 0 {
        c
    } else {
        n
    }
}

/// Steps available from `(x, y)` along `(dx, dy)` inside an `n`-sized
/// grid; a termination measure for the direction walks.
pub open spec fn room(n: int, x: int, y: int, dx: int, dy: int) -> int {
    vstd::math::min(axis_room(n, x, dx), axis_room(n, y, dy))
}

/// The length of the contiguous run of `p.flip()` pieces starting one
/// step away from `(x, y)` in direction `(dx, dy)`.
pub open spec fn opp_run(b: Board, x: int, y: int, dx: int, dy: int, p: Piece) -> nat
    decreases room(b.size as int, x, y, dx, dy),
{
    if is_unit_dir(dx, dy) && b.in_bounds(x + dx, y + dy) && b.at(x + dx, y + dy)
        == p.spec_flip().spec_cell() {
        1 + opp_run(b, x + dx, y + dy, dx, dy, p)
    } else {
        0
    }
}

/// How many pieces placing `p` at `(x, y)` would flip in direction
/// `(dx, dy)`: the length of the adjacent opponent run when a piece of
/// `p`'s own colour closes it off, and zero otherwise.
pub open spec fn dir_flips(b: Board, x: int, y: int, dx: int, dy: int, p: Piece) -> nat {
    let k = opp_run(b, x, y, dx, dy, p) as int;
    if b.in_bounds(x + (k + 1) * dx, y + (k + 1) * dy) && b.at(x + (k + 1) * dx, y + (k + 1) * dy)
        == p.spec_cell() {
        k as nat
    } else {
        0
    }
}

/// The pieces flipped by placing `p` at `(x, y)`, summed over the first
/// `n` of the eight directions.
pub open spec fn flips_upto(b: Board, x: int, y: int, p: Piece, n: int) -> nat
    decreases n,
{
    if n <= 0 {
        0
    } else {
        flips_upto(b, x, y, p, n - 1) + dir_flips(b, x, y, dir8(n - 1).0, dir8(n - 1).1, p)
    }
}

/// The total number of pieces that placing `p` at `(x, y)` flips; zero
/// when the square is off the grid or already occupied.
pub open spec fn spec_count_flips(b: Board, x: int, y: int, p: Piece) -> nat {
    if b.in_bounds(x, y) && b.at(x, y) == Cell::Empty {
        flips_upto(b, x, y, p, 8)
    } else {
        0
    }
}

/// Whether `(x, y)` lies on the ray from `(px, py)` along `(dx, dy)`,
/// between one and `upto` steps out.
pub open spec fn on_ray(px: int, py: int, dx: int, dy: int, upto: int, x: int, y: int) -> bool {
    exists|j: int| #![trigger j * dx, j * dy] 1 <= j <= upto && x == px + j * dx && y == py + j * dy
}

/// Whether the cell `(x, y)` lies within flipping range of a placement
/// of `p` at `(px, py)`, on one of the first `n` scan directions.
pub open spec fn flipped_upto(b: Board, px: int, py: int, p: Piece, n: int, x: int, y: int) -> bool {
    exists|i: int|
        #![trigger dir8(i)]
        0 <= i < n && on_ray(
            px,
            py,
            dir8(i).0,
            dir8(i).1,
            dir_flips(b, px, py, dir8(i).0, dir8(i).1, p) as int,
            x,
            y,
        )
}

/// Whether the cell `(x, y)` is flipped when `p` is placed at
/// `(px, py)`: it lies within flipping range on one of the eight rays.
pub open spec fn flipped_by_place(b: Board, px: int, py: int, p: Piece, x: int, y: int) -> bool {
    flipped_upto(b, px, py, p, 8, x, y)
}

/// The cell at `(x, y)` after `p` is legally placed at `(px, py)` on
/// `b`: the placed square and every flipped square hold `p`'s colour,
/// everything else is unchanged.
pub open spec fn place_result_at(b: Board, px: int, py: int, p: Piece, x: int, y: int) -> Cell {
    if x == px && y == py {
        p.spec_cell()
    } else if flipped_by_place(b, px, py, p, x, y) {
        p.spec_cell()
    } else {
        b.at(x, y)
    }
}

/// A run never exceeds the room available in its direction.
proof fn lemma_opp_run_bound(b: Board, x: int, y: int, dx: int, dy: int, p: Piece)
    ensures
        opp_run(b, x, y, dx, dy, p) <= vstd::math::max(room(b.size as int, x, y, dx, dy), 0),
    decreases room(b.size as int, x, y, dx, dy),
{
    if is_unit_dir(dx, dy) && b.in_bounds(x + dx, y + dy) && b.at(x + dx, y + dy)
        == p.spec_flip().spec_cell() {
        lemma_opp_run_bound(b, x + dx, y + dy, dx, dy, p);
    }
}

/// Every cell within the run is on the grid and holds the opponent's
/// colour, and a run starting in the grid stays below the grid size.
pub(crate) proof fn lemma_opp_run_cells(b: Board, x: int, y: int, dx: int, dy: int, p: Piece)
    requires
        is_unit_dir(dx, dy),
    ensures
        forall|j: int|
            #![trigger j * dx, j * dy]
            1 <= j <= opp_run(b, x, y, dx, dy, p) ==> b.in_bounds(x + j * dx, y + j * dy) && b.at(
                x + j * dx,
                y + j * dy,
            ) == p.spec_flip().spec_cell(),
        opp_run(b, x, y, dx, dy, p) <= b.size,
    decreases room(b.size as int, x, y, dx, dy),
{
    let k = opp_run(b, x, y, dx, dy, p);
    if b.in_bounds(x + dx, y + dy) && b.at(x + dx, y + dy) == p.spec_flip().spec_cell() {
        lemma_opp_run_cells(b, x + dx, y + dy, dx, dy, p);
        lemma_opp_run_bound(b, x + dx, y + dy, dx, dy, p);
        assert(room(b.size as int, x + dx, y + dy, dx, dy) <= b.size - 1);
        assert forall|j: int| #![trigger j * dx, j * dy] 1 <= j <= k implies b.in_bounds(
            x + j * dx,
            y + j * dy,
        ) && b.at(
            x + j * dx,
            y + j * dy,
        ) == p.spec_flip().spec_cell() by {
            if j == 1 {
                assert(x + 1 * dx == x + dx) by (nonlinear_arith);
                assert(y + 1 * dy == y + dy) by (nonlinear_arith);
            } else {
                assert(1 <= j - 1 <= opp_run(b, x + dx, y + dy, dx, dy, p));
                assert((x + dx) + (j - 1) * dx == x + j * dx) by (nonlinear_arith);
                assert((y + dy) + (j - 1) * dy == y + j * dy) by (nonlinear_arith);
            }
        }
    }
}

/// Runs read only the cells on their ray: two equally sized boards that
/// agree there have the same run length and flip count.
proof fn lemma_run_frame(b1: Board, b2: Board, x: int, y: int, dx: int, dy: int, p: Piece)
    requires
        b1.size == b2.size,
        forall|j: int|
            1 <= j && #[trigger] b1.in_bounds(x + j * dx, y + j * dy) ==> b1.at(
                x + j * dx,
                y + j * dy,
            ) == b2.at(x + j * dx, y + j * dy),
    ensures
        opp_run(b1, x, y, dx, dy, p) == opp_run(b2, x, y, dx, dy, p),
        dir_flips(b1, x, y, dx, dy, p) == dir_flips(b2, x, y, dx, dy, p),
    decreases room(b1.size as int, x, y, dx, dy),
{
    if is_unit_dir(dx, dy) {
        assert(x + 1 * dx == x + dx && y + 1 * dy == y + dy) by (nonlinear_arith);
        if b1.in_bounds(x + dx, y + dy) {
            assert(b1.at(x + dx, y + dy) == b2.at(x + dx, y + dy));
        }
        if b1.in_bounds(x + dx, y + dy) && b1.at(x + dx, y + dy) == p.spec_flip().spec_cell() {
            assert forall|j: int|
                1 <= j && #[trigger] b1.in_bounds((x + dx) + j * dx, (y + dy) + j * dy) implies b1.at(
                (x + dx) + j * dx,
                (y + dy) + j * dy,
            ) == b2.at((x + dx) + j * dx, (y + dy) + j * dy) by {
                assert((x + dx) + j * dx == x + (j + 1) * dx) by (nonlinear_arith);
                assert((y + dy) + j * dy == y + (j + 1) * dy) by (nonlinear_arith);
                assert(b1.in_bounds(x + (j + 1) * dx, y + (j + 1) * dy));
            }
            lemma_run_frame(b1, b2, x + dx, y + dy, dx, dy, p);
        }
        let k = opp_run(b1, x, y, dx, dy, p) as int;
        if b1.in_bounds(x + (k + 1) * dx, y + (k + 1) * dy) {
            assert(b1.at(x + (k + 1) * dx, y + (k + 1) * dy) == b2.at(
                x + (k + 1) * dx,
                y + (k + 1) * dy,
            ));
        }
    }
}

/// How many cells of one row hold the value `c`.
pub open spec fn row_count(r: Seq<Cell>, c: Cell) -> nat
    decreases r.len(),
{
    if r.len() == 0 {
        0
    } else {
        row_count(r.drop_last(), c) + (if r.last() == c {
            1nat
        } else {
            0nat
        })
    }
}

/// How many cells of the whole grid hold the value `c`.
pub open spec fn grid_count(g: Seq<Seq<Cell>>, c: Cell) -> nat
    decreases g.len(),
{
    if g.len() == 0 {
        0
    } else {
        grid_count(g.drop_last(), c) + row_count(g.last(), c)
    }
}

/// Two rows that agree, cell by cell, on which positions hold `c`
/// hold equally many copies of `c`.
pub(crate) proof fn lemma_row_count_agree(r1: Seq<Cell>, r2: Seq<Cell>, c: Cell)
    requires
        r1.len() == r2.len(),
        forall|i: int| 0 <= i < r1.len() ==> ((#[trigger] r1[i] == c) <==> (#[trigger] r2[i] == c)),
    ensures
        row_count(r1, c) == row_count(r2, c),
    decreases r1.len(),
{
    if r1.len() > 0 {
        assert forall|i: int|
            0 <= i < r1.drop_last().len() implies ((#[trigger] r1.drop_last()[i] == c) <==> (
        #[trigger] r2.drop_last()[i] == c)) by {
            assert(r1.drop_last()[i] == r1[i] && r2.drop_last()[i] == r2[i]);
        }
        lemma_row_count_agree(r1.drop_last(), r2.drop_last(), c);
        assert(r1.last() == r1[r1.len() - 1] && r2.last() == r2[r1.len() - 1]);
    }
}

/// Losing one copy of `c` at position `px`, all else agreeing, drops
/// the row's count of `c` by one.
pub(crate) proof fn lemma_row_count_drop(r1: Seq<Cell>, r2: Seq<Cell>, c: Cell, px: int)
    requires
        r1.len() == r2.len(),
        0 <= px < r1.len(),
        forall|i: int|
            0 <= i < r1.len() && i != px ==> ((#[trigger] r1[i] == c) <==> (#[trigger] r2[i] == c)),
        r1[px] == c,
        r2[px] != c,
    ensures
        row_count(r2, c) == row_count(r1, c) - 1,
    decreases r1.len(),
{
    assert forall|i: int|
        0 <= i < r1.drop_last().len() && i != px implies ((#[trigger] r1.drop_last()[i] == c) <==> (
    #[trigger] r2.drop_last()[i] == c)) by {
        assert(r1.drop_last()[i] == r1[i] && r2.drop_last()[i] == r2[i]);
    }
    assert(r1.last() == r1[r1.len() - 1] && r2.last() == r2[r1.len() - 1]);
    if px == r1.len() - 1 {
        lemma_row_count_agree(r1.drop_last(), r2.drop_last(), c);
    } else {
        lemma_row_count_drop(r1.drop_last(), r2.drop_last(), c, px);
    }
}

/// Two grids that agree, cell by cell, on which positions hold `c`
/// hold equally many copies of `c`.
pub(crate) proof fn lemma_grid_count_agree(g1: Seq<Seq<Cell>>, g2: Seq<Seq<Cell>>, c: Cell)
    requires
        g1.len() == g2.len(),
        forall|y: int| 0 <= y < g1.len() ==> (#[trigger] g1[y]).len() == g2[y].len(),
        forall|y: int, x: int|
            0 <= y < g1.len() && 0 <= x < g1[y].len() ==> ((#[trigger] g1[y][x] == c) <==> (
            #[trigger] g2[y][x] == c)),
    ensures
        grid_count(g1, c) == grid_count(g2, c),
    decreases g1.len(),
{
    if g1.len() > 0 {
        assert forall|y: int, x: int|
            0 <= y < g1.drop_last().len() && 0 <= x < g1.drop_last()[y].len() implies ((#[trigger] g1.drop_last()[y][x]
            == c) <==> (#[trigger] g2.drop_last()[y][x] == c)) by {
            assert(g1.drop_last()[y] == g1[y] && g2.drop_last()[y] == g2[y]);
        }
        assert forall|y: int|
            0 <= y < g1.drop_last().len() implies (#[trigger] g1.drop_last()[y]).len()
            == g2.drop_last()[y].len() by {
            assert(g1.drop_last()[y] == g1[y] && g2.drop_last()[y] == g2[y]);
        }
        lemma_grid_count_agree(g1.drop_last(), g2.drop_last(), c);
        let n = g1.len() - 1;
        assert(g1.last() == g1[n] && g2.last() == g2[n]);
        assert forall|x: int|
            0 <= x < g1[n].len() implies ((#[trigger] g1[n][x] == c) <==> (#[trigger] g2[n][x]
            == c)) by {}
        lemma_row_count_agree(g1[n], g2[n], c);
    }
}

/// Losing one copy of `c` at `(px, py)`, all else agreeing, drops the
/// grid's count of `c` by one.
pub(crate) proof fn lemma_grid_count_drop(g1: Seq<Seq<Cell>>, g2: Seq<Seq<Cell>>, c: Cell, px: int, py: int)
    requires
        g1.len() == g2.len(),
        forall|y: int| 0 <= y < g1.len() ==> (#[trigger] g1[y]).len() == g2[y].len(),
        0 <= py < g1.len(),
        0 <= px < g1[py].len(),
        forall|y: int, x: int|
            0 <= y < g1.len() && 0 <= x < g1[y].len() && !(x == px && y == py) ==> ((
            #[trigger] g1[y][x] == c) <==> (#[trigger] g2[y][x] == c)),
        g1[py][px] == c,
        g2[py][px] != c,
    ensures
        grid_count(g2, c) == grid_count(g1, c) - 1,
    decreases g1.len(),
{
    assert forall|y: int|
        0 <= y < g1.drop_last().len() implies (#[trigger] g1.drop_last()[y]).len()
        == g2.drop_last()[y].len() by {
        assert(g1.drop_last()[y] == g1[y] && g2.drop_last()[y] == g2[y]);
    }
    let n = g1.len() - 1;
    assert(g1.last() == g1[n] && g2.last() == g2[n]);
    if py == n {
        assert forall|y: int, x: int|
            0 <= y < g1.drop_last().len() && 0 <= x < g1.drop_last()[y].len() implies ((
        #[trigger] g1.drop_last()[y][x] == c) <==> (#[trigger] g2.drop_last()[y][x] == c)) by {
            assert(g1.drop_last()[y] == g1[y] && g2.drop_last()[y] == g2[y]);
        }
        lemma_grid_count_agree(g1.drop_last(), g2.drop_last(), c);
        assert forall|x: int|
            0 <= x < g1[n].len() && x != px implies ((#[trigger] g1[n][x] == c) <==> (
        #[trigger] g2[n][x] == c)) by {}
        lemma_row_count_drop(g1[n], g2[n], c, px);
    } else {
        assert forall|y: int, x: int|
            0 <= y < g1.drop_last().len() && 0 <= x < g1.drop_last()[y].len() && !(x == px && y
                == py) implies ((#[trigger] g1.drop_last()[y][x] == c) <==> (
        #[trigger] g2.drop_last()[y][x] == c)) by {
            assert(g1.drop_last()[y] == g1[y] && g2.drop_last()[y] == g2[y]);
        }
        assert(g1.drop_last()[py] == g1[py] && g2.drop_last()[py] == g2[py]);
        lemma_grid_count_drop(g1.drop_last(), g2.drop_last(), c, px, py);
        assert forall|x: int|
            0 <= x < g1[n].len() implies ((#[trigger] g1[n][x] == c) <==> (#[trigger] g2[n][x]
            == c)) by {}
        lemma_row_count_agree(g1[n], g2[n], c);
    }
}

/// The points of column-scan order `(x, 0) .. (x, upto_y - 1)` where
/// placing `p` would flip at least one piece.
pub open spec fn placeable_col(b: Board, p: Piece, x: int, upto_y: int) -> Seq<Point>
    decreases upto_y,
{
    if upto_y <= 0 {
        Seq::empty()
    } else {
        placeable_col(b, p, x, upto_y - 1) + (if spec_count_flips(b, x, upto_y - 1, p) > 0 {
            seq![Point { x: x as usize, y: (upto_y - 1) as usize }]
        } else {
            Seq::empty()
        })
    }
}

/// The legal placement points for `p`, in the engine's scan order:
/// column by column from the left, top to bottom within a column.
pub open spec fn spec_placeable(b: Board, p: Piece, upto_x: int) -> Seq<Point>
    decreases upto_x,
{
    if upto_x <= 0 {
        Seq::empty()
    } else {
        spec_placeable(b, p, upto_x - 1) + placeable_col(b, p, upto_x - 1, b.size as int)
    }
}

/// The flip sum reads only the grid: boards of equal size and grid
/// agree on it.
proof fn lemma_flips_upto_frame(b1: Board, b2: Board, x: int, y: int, p: Piece, n: int)
    requires
        b1.size == b2.size,
        b1.grid() == b2.grid(),
    ensures
        flips_upto(b1, x, y, p, n) == flips_upto(b2, x, y, p, n),
    decreases n,
{
    if n > 0 {
        lemma_flips_upto_frame(b1, b2, x, y, p, n - 1);
        lemma_run_frame(b1, b2, x, y, dir8(n - 1).0, dir8(n - 1).1, p);
    }
}

/// Flip counts read only the grid: two boards of equal size and grid
/// agree on every one of them.
pub proof fn lemma_count_flips_frame(b1: Board, b2: Board, x: int, y: int, p: Piece)
    requires
        b1.size == b2.size,
        b1.grid() == b2.grid(),
    ensures
        spec_count_flips(b1, x, y, p) == spec_count_flips(b2, x, y, p),
{
    lemma_flips_upto_frame(b1, b2, x, y, p, 8);
}

/// The placement outcome reads only the grid: boards of equal size
/// and grid agree on every cell of the result.
pub proof fn lemma_place_result_frame(b1: Board, b2: Board, px: int, py: int, p: Piece)
    requires
        b1.size == b2.size,
        b1.grid() == b2.grid(),
    ensures
        forall|x: int, y: int|
            #[trigger] place_result_at(b1, px, py, p, x, y) == place_result_at(b2, px, py, p, x, y),
{
    assert forall|i: int|
        0 <= i < 8 implies #[trigger] dir_flips(b1, px, py, dir8(i).0, dir8(i).1, p) == dir_flips(
        b2,
        px,
        py,
        dir8(i).0,
        dir8(i).1,
        p,
    ) by {
        lemma_run_frame(b1, b2, px, py, dir8(i).0, dir8(i).1, p);
    }
    assert forall|x: int, y: int| #[trigger]
        flipped_by_place(b1, px, py, p, x, y) == flipped_by_place(b2, px, py, p, x, y) by {
        if flipped_by_place(b1, px, py, p, x, y) {
            let i = choose|i: int|
                #![trigger dir8(i)]
                0 <= i < 8 && on_ray(
                    px,
                    py,
                    dir8(i).0,
                    dir8(i).1,
                    dir_flips(b1, px, py, dir8(i).0, dir8(i).1, p) as int,
                    x,
                    y,
                );
            assert(0 <= i < 8 && on_ray(
                px,
                py,
                dir8(i).0,
                dir8(i).1,
                dir_flips(b2, px, py, dir8(i).0, dir8(i).1, p) as int,
                x,
                y,
            ));
        }
        if flipped_by_place(b2, px, py, p, x, y) {
            let i = choose|i: int|
                #![trigger dir8(i)]
                0 <= i < 8 && on_ray(
                    px,
                    py,
                    dir8(i).0,
                    dir8(i).1,
                    dir_flips(b2, px, py, dir8(i).0, dir8(i).1, p) as int,
                    x,
                    y,
                );
            assert(0 <= i < 8 && on_ray(
                px,
                py,
                dir8(i).0,
                dir8(i).1,
                dir_flips(b1, px, py, dir8(i).0, dir8(i).1, p) as int,
                x,
                y,
            ));
        }
    }
}

/// One column of the scan reads only the grid.
proof fn lemma_placeable_col_frame(b1: Board, b2: Board, p: Piece, x: int, upto_y: int)
    requires
        b1.size == b2.size,
        b1.grid() == b2.grid(),
    ensures
        placeable_col(b1, p, x, upto_y) == placeable_col(b2, p, x, upto_y),
    decreases upto_y,
{
    if upto_y > 0 {
        lemma_placeable_col_frame(b1, b2, p, x, upto_y - 1);
        lemma_count_flips_frame(b1, b2, x, upto_y - 1, p);
    }
}

/// The scan reads only the grid: boards of equal size and grid list
/// the same legal points.
pub proof fn lemma_spec_placeable_frame(b1: Board, b2: Board, p: Piece, upto_x: int)
    requires
        b1.size == b2.size,
        b1.grid() == b2.grid(),
    ensures
        spec_placeable(b1, p, upto_x) == spec_placeable(b2, p, upto_x),
    decreases upto_x,
{
    if upto_x > 0 {
        lemma_spec_placeable_frame(b1, b2, p, upto_x - 1);
        lemma_placeable_col_frame(b1, b2, p, upto_x - 1, b1.size as int);
    }
}

/// One scanned column lists exactly its legal points, in order.
proof fn lemma_placeable_col_members(b: Board, p: Piece, x: int, upto_y: int)
    requires
        0 <= x,
        0 <= upto_y <= 255,
    ensures
        forall|i: int|
            0 <= i < placeable_col(b, p, x, upto_y).len() ==> {
                let pt = #[trigger] placeable_col(b, p, x, upto_y)[i];
                pt.x == x && pt.y < upto_y && spec_count_flips(b, x, pt.y as int, p) > 0
            },
        forall|yy: int|
            0 <= yy < upto_y && spec_count_flips(b, x, yy, p) > 0 ==> placeable_col(
                b,
                p,
                x,
                upto_y,
            ).contains(Point { x: x as usize, y: yy as usize }),
        placeable_col(b, p, x, upto_y).len() <= upto_y,
        forall|i: int, j: int|
            #![trigger placeable_col(b, p, x, upto_y)[i], placeable_col(b, p, x, upto_y)[j]]
            0 <= i < j < placeable_col(b, p, x, upto_y).len() ==> placeable_col(b, p, x, upto_y)[i].y
                < placeable_col(b, p, x, upto_y)[j].y,
    decreases upto_y,
{
    if upto_y > 0 {
        lemma_placeable_col_members(b, p, x, upto_y - 1);
        if spec_count_flips(b, x, upto_y - 1, p) > 0 {
            assert(placeable_col(b, p, x, upto_y).last() == (Point {
                x: x as usize,
                y: (upto_y - 1) as usize,
            }));
        }
        assert forall|yy: int| 0 <= yy < upto_y && spec_count_flips(b, x, yy, p) > 0 implies placeable_col(
            b,
            p,
            x,
            upto_y,
        ).contains(Point { x: x as usize, y: yy as usize }) by {
            let pt = Point { x: x as usize, y: yy as usize };
            if yy < upto_y - 1 {
                assert(placeable_col(b, p, x, upto_y - 1).contains(pt));
                let i = choose|i: int|
                    0 <= i < placeable_col(b, p, x, upto_y - 1).len() && #[trigger] placeable_col(
                        b,
                        p,
                        x,
                        upto_y - 1,
                    )[i] == pt;
                assert(placeable_col(b, p, x, upto_y)[i] == pt);
            } else {
                let n = placeable_col(b, p, x, upto_y).len();
                assert(placeable_col(b, p, x, upto_y)[n - 1] == pt);
            }
        }
    }
}

/// The scan lists exactly the legal points of the first `upto_x`
/// columns, in order.
proof fn lemma_spec_placeable_members(b: Board, p: Piece, upto_x: int)
    requires
        0 <= upto_x <= 255,
        b.size <= 255,
    ensures
        forall|i: int|
            0 <= i < spec_placeable(b, p, upto_x).len() ==> {
                let pt = #[trigger] spec_placeable(b, p, upto_x)[i];
                pt.x < upto_x && pt.y < b.size && spec_count_flips(b, pt.x as int, pt.y as int, p)
                    > 0
            },
        forall|x: int, y: int|
            0 <= x < upto_x && 0 <= y < b.size && spec_count_flips(b, x, y, p) > 0
                ==> spec_placeable(b, p, upto_x).contains(Point { x: x as usize, y: y as usize }),
        spec_placeable(b, p, upto_x).len() <= upto_x * 255,
        forall|i: int, j: int|
            #![trigger spec_placeable(b, p, upto_x)[i], spec_placeable(b, p, upto_x)[j]]
            0 <= i < j < spec_placeable(b, p, upto_x).len() ==> (spec_placeable(b, p, upto_x)[i].x
                < spec_placeable(b, p, upto_x)[j].x || (spec_placeable(b, p, upto_x)[i].x
                == spec_placeable(b, p, upto_x)[j].x && spec_placeable(b, p, upto_x)[i].y
                < spec_placeable(b, p, upto_x)[j].y)),
    decreases upto_x,
{
    if upto_x > 0 {
        lemma_spec_placeable_members(b, p, upto_x - 1);
        lemma_placeable_col_members(b, p, upto_x - 1, b.size as int);
        let prefix = spec_placeable(b, p, upto_x - 1);
        let col = placeable_col(b, p, upto_x - 1, b.size as int);
        assert forall|x: int, y: int|
            0 <= x < upto_x && 0 <= y < b.size && spec_count_flips(b, x, y, p)
                > 0 implies spec_placeable(b, p, upto_x).contains(
            Point { x: x as usize, y: y as usize },
        ) by {
            let pt = Point { x: x as usize, y: y as usize };
            if x < upto_x - 1 {
                assert(prefix.contains(pt));
                let i = choose|i: int| 0 <= i < prefix.len() && #[trigger] prefix[i] == pt;
                assert(spec_placeable(b, p, upto_x)[i] == pt);
            } else {
                assert(col.contains(pt));
                let i = choose|i: int| 0 <= i < col.len() && #[trigger] col[i] == pt;
                assert(spec_placeable(b, p, upto_x)[prefix.len() + i] == pt);
            }
        }
    }
}

/// The scan lists exactly the points where placing `p` flips at least
/// one piece, and lists nothing exactly when `p` has no legal move.
pub proof fn lemma_placeable_exact(b: Board, p: Piece)
    requires
        b.wf(),
    ensures
        forall|i: int|
            0 <= i < spec_placeable(b, p, b.size as int).len() ==> {
                let pt = #[trigger] spec_placeable(b, p, b.size as int)[i];
                pt.x < b.size && pt.y < b.size && spec_count_flips(b, pt.x as int, pt.y as int, p)
                    > 0
            },
        forall|x: int, y: int|
            b.in_bounds(x, y) && spec_count_flips(b, x, y, p) > 0 ==> spec_placeable(
                b,
                p,
                b.size as int,
            ).contains(Point { x: x as usize, y: y as usize }),
        spec_placeable(b, p, b.size as int).len() == 0 <==> (forall|x: int, y: int|
            b.in_bounds(x, y) ==> spec_count_flips(b, x, y, p) == 0),
        spec_placeable(b, p, b.size as int).len() <= b.size * 255,
        forall|i: int, j: int|
            #![trigger spec_placeable(b, p, b.size as int)[i], spec_placeable(b, p, b.size as int)[j]]
            0 <= i < j < spec_placeable(b, p, b.size as int).len() ==> spec_placeable(
                b,
                p,
                b.size as int,
            )[i] != spec_placeable(b, p, b.size as int)[j],
{
    lemma_spec_placeable_members(b, p, b.size as int);
    let r = spec_placeable(b, p, b.size as int);
    if r.len() == 0 {
        assert forall|x: int, y: int| b.in_bounds(x, y) implies spec_count_flips(b, x, y, p)
            == 0 by {
            if spec_count_flips(b, x, y, p) > 0 {
                assert(r.contains(Point { x: x as usize, y: y as usize }));
            }
        }
    } else {
        let pt = r[0];
        assert(r.contains(pt));
        assert(spec_count_flips(b, pt.x as int, pt.y as int, p) > 0);
    }
}

/// Each direction's flip count is bounded by the sum over directions.
pub(crate) proof fn lemma_flips_upto_parts(b: Board, x: int, y: int, p: Piece, n: int)
    ensures
        forall|i: int|
            #![trigger dir8(i)]
            0 <= i < n ==> dir_flips(b, x, y, dir8(i).0, dir8(i).1, p) <= flips_upto(b, x, y, p, n),
    decreases n,
{
    if n > 0 {
        lemma_flips_upto_parts(b, x, y, p, n - 1);
    }
}

/// Multiplying by a unit delta only negates, zeroes or keeps a factor.
pub(crate) proof fn lemma_unit_mul(j: int, d: int)
    requires
        -1 <= d <= 1,
    ensures
        d == 1 ==> j * d == j,
        d == 0 ==> j * d == 0,
        d == -1 ==> j * d == -j,
{
    assert(d == 1 ==> j * d == j) by (nonlinear_arith);
    assert(d == 0 ==> j * d == 0) by (nonlinear_arith);
    assert(d == -1 ==> j * d == -j) by (nonlinear_arith);
}

/// A ray never passes through its own origin.
pub(crate) proof fn lemma_ray_misses_origin(px: int, py: int, dx: int, dy: int, j: int)
    requires
        is_unit_dir(dx, dy),
        j >= 1,
    ensures
        !(px + j * dx == px && py + j * dy == py),
{
    lemma_unit_mul(j, dx);
    lemma_unit_mul(j, dy);
}

/// Rays cast from one origin in two different directions share no cell.
pub(crate) proof fn lemma_rays_disjoint(
    px: int,
    py: int,
    d1x: int,
    d1y: int,
    d2x: int,
    d2y: int,
    j1: int,
    j2: int,
)
    requires
        is_unit_dir(d1x, d1y),
        is_unit_dir(d2x, d2y),
        !(d1x == d2x && d1y == d2y),
        j1 >= 1,
        j2 >= 1,
    ensures
        !(px + j1 * d1x == px + j2 * d2x && py + j1 * d1y == py + j2 * d2y),
{
    lemma_unit_mul(j1, d1x);
    lemma_unit_mul(j1, d1y);
    lemma_unit_mul(j2, d2x);
    lemma_unit_mul(j2, d2y);
}

/// A square Othello board holding one [`Cell`] per square, row-major.
#[derive(Debug)]
pub struct Board {
    /// The side length of the square grid.
    pub size: usize,
    /// The rows of the grid, each of length `size` (see [`Board::wf`]).
    pub data: Vec<Vec<Cell>>,
}

impl Board {
    /// The mathematical content of the board: the sequence of its rows.
    pub open spec fn grid(self) -> Seq<Seq<Cell>> {
        self.data@.map_values(|row: Vec<Cell>| row@)
    }

    /// Well-formedness: a square grid of the declared size, below 255.
    pub open spec fn wf(self) -> bool {
        &&& self.grid().len() == self.size
        &&& forall|y: int| 0 <= y < self.size ==> (#[trigger] self.grid()[y]).len() == self.size
        &&& self.size < 255
    }

    /// Whether `(x, y)` lies on the grid.
    pub open spec fn in_bounds(self, x: int, y: int) -> bool {
        0 <= x < self.size && 0 <= y < self.size
    }

    /// The cell in column `x` of row `y`.
    pub open spec fn at(self, x: int, y: int) -> Cell {
        self.grid()[y][x]
    }

    /// Primitive write: sets one cell, enforcing no game rule. Fails
    /// exactly when `at` is out of the grid, leaving the board as it
    /// was.
    pub fn set(&mut self, at: Point, cell: Cell) -> (r: Result<(), OutOfBoundaryError>)
        requires
            old(self).wf(),
        ensures
            final(self).wf(),
            final(self).size == old(self).size,
            r is Ok <==> old(self).in_bounds(at.x as int, at.y as int),
            old(self).in_bounds(at.x as int, at.y as int) ==> final(self).grid() == old(
                self,
            ).grid().update(at.y as int, old(self).grid()[at.y as int].update(at.x as int, cell)),
            !old(self).in_bounds(at.x as int, at.y as int) ==> final(self).grid() == old(
                self,
            ).grid() && r == Err::<(), OutOfBoundaryError>(OutOfBoundaryError()),
    {
        if at.y < self.data.len() {
            proof {
                assert(self.grid()[at.y as int] == self.data@[at.y as int]@);
            }
            if at.x < self.data[at.y].len() {
                let ghost old_grid = self.grid();
                self.data[at.y][at.x] = cell;
                proof {
                    assert_seqs_equal!(
                        self.grid() ==
                        old_grid.update(at.y as int, old_grid[at.y as int].update(at.x as int, cell))
                    );
                }
                return Ok(());
            }
        }
        Err(OutOfBoundaryError())
    }

    /// Primitive read of one cell. Fails exactly when `at` is out of
    /// the grid.
    pub fn get(&self, at: Point) -> (r: Result<Cell, OutOfBoundaryError>)
        requires
            self.wf(),
        ensures
            r is Ok <==> self.in_bounds(at.x as int, at.y as int),
            self.in_bounds(at.x as int, at.y as int) ==> r == Ok::<Cell, OutOfBoundaryError>(
                self.at(at.x as int, at.y as int),
            ),
            r matches Err(e) ==> e == OutOfBoundaryError(),
    {
        if at.y < self.data.len() {
            if at.x < self.data[at.y].len() {
                return Ok(self.data[at.y][at.x]);
            }
        }
        Err(OutOfBoundaryError())
    }

    /// A fresh game: an all-empty grid except for the standard four-
    /// piece opening in the two centre rows.
    pub fn new(size: usize) -> (r: Board)
        requires
            size % 2 == 0,
            2 <= size < 255,
        ensures
            r.wf(),
            r.size == size,
            r.at(size as int / 2 - 1, size as int / 2 - 1) == Cell::Black,
            r.at(size as int / 2 - 1, size as int / 2) == Cell::White,
            r.at(size as int / 2, size as int / 2 - 1) == Cell::White,
            r.at(size as int / 2, size as int / 2) == Cell::Black,
            forall|x: int, y: int|
                r.in_bounds(x, y) && !(size as int / 2 - 1 <= x <= size as int / 2 && size as int
                    / 2 - 1 <= y <= size as int / 2) ==> r.at(x, y) == Cell::Empty,
    {
        let mut data: Vec<Vec<Cell>> = Vec::new();
        let mut y: usize = 0;
        while y < size
            invariant
                y <= size,
                data@.len() == y,
                forall|i: int|
                    0 <= i < y ==> (#[trigger] data@[i])@.len() == size && forall|j: int|
                        0 <= j < size ==> data@[i]@[j] == Cell::Empty,
            decreases size - y,
        {
            let mut row: Vec<Cell> = Vec::new();
            let mut x: usize = 0;
            while x < size
                invariant
                    x <= size,
                    row@.len() == x,
                    forall|j: int| 0 <= j < x ==> row@[j] == Cell::Empty,
                decreases size - x,
            {
                row.push(Cell::Empty);
                x += 1;
            }
            data.push(row);
            y += 1;
        }
        let mut board = Board { size, data };
        proof {
            assert(forall|yy: int|
                0 <= yy < size ==> (#[trigger] board.grid()[yy]).len() == size);
            assert(forall|xx: int, yy: int|
                0 <= yy < size && 0 <= xx < size ==> board.at(xx, yy) == Cell::Empty);
        }
        let half = size / 2;
        let _ = board.set(Point::new(half - 1, half - 1), Piece::Black.cell());
        let _ = board.set(Point::new(half - 1, half), Piece::White.cell());
        let _ = board.set(Point::new(half, half - 1), Piece::White.cell());
        let _ = board.set(Point::new(half, half), Piece::Black.cell());
        board
    }

    /// Places `piece` at `at`, flipping every closed-off opponent run,
    /// and returns the new board with the number of pieces flipped.
    /// Fails with `OutOfBoundary` off the grid, `AlreadyOccupied` on a
    /// non-empty square, and `NoPiecesChanged` when no piece would
    /// flip; a legal move always flips at least one piece, and a
    /// rejected one carries the board back unchanged.
    pub fn place(self, at: Point, piece: Piece) -> (r: Result<(Board, usize), PlaceError>)
        requires
            self.wf(),
        ensures
            r is Ok <==> spec_count_flips(self, at.x as int, at.y as int, piece) > 0,
            r matches Ok(p) ==> {
                &&& p.0.wf()
                &&& p.0.size == self.size
                &&& p.1 == spec_count_flips(self, at.x as int, at.y as int, piece)
                &&& forall|x: int, y: int|
                    p.0.in_bounds(x, y) ==> p.0.at(x, y) == place_result_at(
                        self,
                        at.x as int,
                        at.y as int,
                        piece,
                        x,
                        y,
                    )
                &&& grid_count(p.0.grid(), piece.spec_cell()) == grid_count(
                    self.grid(),
                    piece.spec_cell(),
                ) + p.1 + 1
                &&& grid_count(p.0.grid(), piece.spec_flip().spec_cell()) == grid_count(
                    self.grid(),
                    piece.spec_flip().spec_cell(),
                ) - p.1
            },
            r matches Err(e) ==> e.at == at && e.player == piece && e.board == self,
            !self.in_bounds(at.x as int, at.y as int) ==> (r matches Err(e) && e.kind
                == PlaceErrorKind::OutOfBoundary),
            self.in_bounds(at.x as int, at.y as int) && self.at(at.x as int, at.y as int)
                != Cell::Empty ==> (r matches Err(e) && e.kind == PlaceErrorKind::AlreadyOccupied),
            self.in_bounds(at.x as int, at.y as int) && self.at(at.x as int, at.y as int)
                == Cell::Empty && spec_count_flips(self, at.x as int, at.y as int, piece) == 0 ==> (
            r matches Err(e) && e.kind == PlaceErrorKind::NoPiecesChanged),
    {
        let mut board = self;
        let ghost b0 = board;
        let prev = match board.get(at) {
            Ok(c) => c,
            Err(_) => {
                return Err(
                    PlaceError {
                        board,
                        at,
                        player: piece,
                        kind: PlaceErrorKind::OutOfBoundary,
                    },
                );
            },
        };
        if prev != Cell::Empty {
            return Err(
                PlaceError { board, at, player: piece, kind: PlaceErrorKind::AlreadyOccupied },
            );
        }
        let planned = board.count_flips(at, piece);
        if planned == 0 {
            return Err(
                PlaceError { board, at, player: piece, kind: PlaceErrorKind::NoPiecesChanged },
            );
        }
        let _ = board.set(at, piece.cell());
        proof {
            let own = piece.spec_cell();
            let opp = piece.spec_flip().spec_cell();
            assert forall|yy: int| 0 <= yy < board.grid().len() implies (
            #[trigger] board.grid()[yy]).len() == b0.grid()[yy].len() by {}
            assert forall|yy: int, xx: int|
                0 <= yy < board.grid().len() && 0 <= xx < board.grid()[yy].len() && !(xx
                    == at.x as int && yy == at.y as int) implies #[trigger] board.grid()[yy][xx]
                == b0.grid()[yy][xx] by {}
            assert(board.grid()[at.y as int][at.x as int] == own);
            assert(b0.grid()[at.y as int][at.x as int] == Cell::Empty);
            lemma_grid_count_drop(board.grid(), b0.grid(), own, at.x as int, at.y as int);
            assert forall|yy: int, xx: int|
                0 <= yy < board.grid().len() && 0 <= xx < board.grid()[yy].len() implies ((
            #[trigger] board.grid()[yy][xx] == opp) <==> (#[trigger] b0.grid()[yy][xx]
                == opp)) by {}
            lemma_grid_count_agree(board.grid(), b0.grid(), opp);
        }
        let mut count: usize = 0;
        let mut i: usize = 0;
        while i < 8
            invariant
                board.wf(),
                board.size == b0.size,
                b0.wf(),
                at.x < b0.size,
                at.y < b0.size,
                b0.at(at.x as int, at.y as int) == Cell::Empty,
                i <= 8,
                count <= i * 255,
                count == flips_upto(b0, at.x as int, at.y as int, piece, i as int),
                grid_count(board.grid(), piece.spec_cell()) == grid_count(
                    b0.grid(),
                    piece.spec_cell(),
                ) + count + 1,
                grid_count(board.grid(), piece.spec_flip().spec_cell()) == grid_count(
                    b0.grid(),
                    piece.spec_flip().spec_cell(),
                ) - count,
                forall|x: int, y: int|
                    board.in_bounds(x, y) ==> board.at(x, y) == (if x == at.x as int && y
                        == at.y as int {
                        piece.spec_cell()
                    } else if flipped_upto(b0, at.x as int, at.y as int, piece, i as int, x, y) {
                        piece.spec_cell()
                    } else {
                        b0.at(x, y)
                    }),
            decreases 8 - i,
        {
            let ghost px = at.x as int;
            let ghost py = at.y as int;
            let d = dir_at(i);
            let ghost ddx = d.x as int;
            let ghost ddy = d.y as int;
            let ghost b_cur = board;
            proof {
                assert forall|j: int|
                    1 <= j && #[trigger] b_cur.in_bounds(px + j * ddx, py + j * ddy) implies b_cur.at(
                    px + j * ddx,
                    py + j * ddy,
                ) == b0.at(px + j * ddx, py + j * ddy) by {
                    lemma_ray_misses_origin(px, py, ddx, ddy, j);
                    if flipped_upto(b0, px, py, piece, i as int, px + j * ddx, py + j * ddy) {
                        let i2 = choose|i2: int|
                            #![trigger dir8(i2)]
                            0 <= i2 < i && on_ray(
                                px,
                                py,
                                dir8(i2).0,
                                dir8(i2).1,
                                dir_flips(b0, px, py, dir8(i2).0, dir8(i2).1, piece) as int,
                                px + j * ddx,
                                py + j * ddy,
                            );
                        let j2 = choose|j2: int|
                            #![trigger j2 * dir8(i2).0, j2 * dir8(i2).1]
                            1 <= j2 <= dir_flips(b0, px, py, dir8(i2).0, dir8(i2).1, piece) as int
                                && px + j * ddx == px + j2 * dir8(i2).0 && py + j * ddy == py + j2
                                * dir8(i2).1;
                        lemma_rays_disjoint(px, py, dir8(i2).0, dir8(i2).1, ddx, ddy, j2, j);
                        assert(false);
                    }
                }
                lemma_run_frame(b_cur, b0, px, py, ddx, ddy, piece);
            }
            let c = flip_in_direction(&mut board, at, piece, d);
            i += 1;
            count += c;
            proof {
                assert(dir8(i as int - 1) == (ddx, ddy));
                assert forall|x: int, y: int| board.in_bounds(x, y) implies board.at(x, y) == (if x
                    == px && y == py {
                    piece.spec_cell()
                } else if flipped_upto(b0, px, py, piece, i as int, x, y) {
                    piece.spec_cell()
                } else {
                    b0.at(x, y)
                }) by {
                    if on_ray(px, py, ddx, ddy, c as int, x, y) {
                        assert(board.at(x, y) == piece.spec_cell());
                        assert(flipped_upto(b0, px, py, piece, i as int, x, y));
                        let j = choose|j: int|
                            #![trigger j * ddx, j * ddy]
                            1 <= j <= c && x == px + j * ddx && y == py + j * ddy;
                        lemma_ray_misses_origin(px, py, ddx, ddy, j);
                    } else {
                        assert(board.at(x, y) == b_cur.at(x, y));
                        if flipped_upto(b0, px, py, piece, i as int, x, y) {
                            let i2 = choose|i2: int|
                                #![trigger dir8(i2)]
                                0 <= i2 < i && on_ray(
                                    px,
                                    py,
                                    dir8(i2).0,
                                    dir8(i2).1,
                                    dir_flips(b0, px, py, dir8(i2).0, dir8(i2).1, piece) as int,
                                    x,
                                    y,
                                );
                            if i2 == i - 1 {
                                assert(false);
                            } else {
                                assert(flipped_upto(b0, px, py, piece, i as int - 1, x, y));
                            }
                        } else {
                            assert(!flipped_upto(b0, px, py, piece, i as int - 1, x, y)) by {
                                if flipped_upto(b0, px, py, piece, i as int - 1, x, y) {
                                    let i2 = choose|i2: int|
                                        #![trigger dir8(i2)]
                                        0 <= i2 < i - 1 && on_ray(
                                            px,
                                            py,
                                            dir8(i2).0,
                                            dir8(i2).1,
                                            dir_flips(b0, px, py, dir8(i2).0, dir8(i2).1, piece)
                                                as int,
                                            x,
                                            y,
                                        );
                                    assert(flipped_upto(b0, px, py, piece, i as int, x, y));
                                }
                            }
                        }
                    }
                }
            }
        }
        Ok((board, count))
    }

    /// Counts the pieces of `player` on the board.
    pub fn score(&self, player: Piece) -> (r: usize)
        requires
            self.wf(),
        ensures
            r == grid_count(self.grid(), player.spec_cell()),
            r <= self.size * 255,
    {
        let target = player.cell();
        let mut count: usize = 0;
        let mut y: usize = 0;
        while y < self.data.len()
            invariant
                self.wf(),
                y <= self.data@.len(),
                self.data@.len() == self.size,
                count == grid_count(self.grid().take(y as int), target),
                count <= y * 255,
                target == player.spec_cell(),
            decreases self.data@.len() - y,
        {
            proof {
                assert(self.grid()[y as int] == self.data@[y as int]@);
            }
            let row_len = self.data[y].len();
            let mut row_cnt: usize = 0;
            let mut x: usize = 0;
            while x < row_len
                invariant
                    self.wf(),
                    y < self.data@.len(),
                    self.data@.len() == self.size,
                    row_len == self.grid()[y as int].len(),
                    row_len < 255,
                    x <= row_len,
                    row_cnt == row_count(self.grid()[y as int].take(x as int), target),
                    row_cnt <= x,
                decreases row_len - x,
            {
                proof {
                    assert(self.grid()[y as int] == self.data@[y as int]@);
                    assert(self.grid()[y as int].take(x as int + 1).drop_last() =~= self.grid()[
                        y as int
                    ].take(x as int));
                }
                if self.data[y][x] == target {
                    row_cnt += 1;
                }
                x += 1;
            }
            proof {
                assert(self.grid()[y as int].take(row_len as int) =~= self.grid()[y as int]);
                assert(self.grid().take(y as int + 1).drop_last() =~= self.grid().take(y as int));
                assert(self.grid().take(y as int + 1).last() == self.grid()[y as int]);
            }
            count += row_cnt;
            y += 1;
        }
        proof {
            assert(self.grid().take(self.data@.len() as int) =~= self.grid());
        }
        count
    }

    /// Every point where placing `next` is legal, in a deterministic
    /// order: column by column from the left, top to bottom within a
    /// column.
    pub fn placeable(&self, next: Piece) -> (r: Vec<Point>)
        requires
            self.wf(),
        ensures
            r@ == spec_placeable(*self, next, self.size as int),
    {
        let mut ret: Vec<Point> = Vec::new();
        let mut x: usize = 0;
        while x < self.size
            invariant
                self.wf(),
                x <= self.size,
                ret@ == spec_placeable(*self, next, x as int),
            decreases self.size - x,
        {
            let mut y: usize = 0;
            while y < self.size
                invariant
                    self.wf(),
                    x < self.size,
                    y <= self.size,
                    ret@ == spec_placeable(*self, next, x as int) + placeable_col(
                        *self,
                        next,
                        x as int,
                        y as int,
                    ),
                decreases self.size - y,
            {
                let point = Point::new(x, y);
                if self.count_flips(point, next) > 0 {
                    ret.push(point);
                }
                proof {
                    if spec_count_flips(*self, x as int, y as int, next) > 0 {
                        assert(ret@ =~= spec_placeable(*self, next, x as int) + placeable_col(
                            *self,
                            next,
                            x as int,
                            y as int + 1,
                        ));
                    } else {
                        assert(ret@ =~= spec_placeable(*self, next, x as int) + placeable_col(
                            *self,
                            next,
                            x as int,
                            y as int + 1,
                        ));
                    }
                }
                y += 1;
            }
            proof {
                assert(ret@ =~= spec_placeable(*self, next, x as int + 1));
            }
            x += 1;
        }
        ret
    }

    /// Walks outward from `(x, y)` along `d`, counting the contiguous
    /// opponent pieces adjacent to the start.
    fn run_len(&self, x: usize, y: usize, d: Direction, piece: Piece) -> (r: usize)
        requires
            self.wf(),
            is_unit_dir(d.x as int, d.y as int),
        ensures
            r == opp_run(*self, x as int, y as int, d.x as int, d.y as int, piece),
            r <= self.size,
        decreases room(self.size as int, x as int, y as int, d.x as int, d.y as int),
    {
        let nx = match x.checked_add_signed(d.x) {
            Some(v) => v,
            None => {
                return 0;
            },
        };
        let ny = match y.checked_add_signed(d.y) {
            Some(v) => v,
            None => {
                return 0;
            },
        };
        if nx < self.size && ny < self.size {
            proof {
                assert(self.grid()[ny as int] == self.data@[ny as int]@);
            }
            let c = self.data[ny][nx];
            if c == piece.flip().cell() {
                proof {
                    lemma_opp_run_bound(*self, nx as int, ny as int, d.x as int, d.y as int, piece);
                }
                let rest = self.run_len(nx, ny, d, piece);
                return rest + 1;
            }
        }
        0
    }

    /// The number of pieces that placing `piece` at `at` would flip,
    /// summed over all eight directions; zero when `at` is off the grid
    /// or the square is occupied, since placing there is never legal.
    pub fn count_flips(&self, at: Point, piece: Piece) -> (r: usize)
        requires
            self.wf(),
        ensures
            r == spec_count_flips(*self, at.x as int, at.y as int, piece),
            r <= 8 * 255,
    {
        let prev = match self.get(at) {
            Ok(c) => c,
            Err(_) => {
                return 0;
            },
        };
        if prev != Cell::Empty {
            return 0;
        }
        let mut flippable: usize = 0;
        let mut i: usize = 0;
        while i < 8
            invariant
                self.wf(),
                i <= 8,
                at.x < self.size,
                at.y < self.size,
                flippable == flips_upto(*self, at.x as int, at.y as int, piece, i as int),
                flippable <= i * 255,
            decreases 8 - i,
        {
            let d = dir_at(i);
            let c = count_planned_flip_in_direction(self, at, piece, d);
            flippable += c;
            i += 1;
        }
        flippable
    }
}

impl Clone for Board {
    /// An independent copy with the same size and grid.
    fn clone(&self) -> (r: Self)
        ensures
            r.size == self.size,
            r.grid() == self.grid(),
    {
        let mut data: Vec<Vec<Cell>> = Vec::new();
        let mut y: usize = 0;
        while y < self.data.len()
            invariant
                y <= self.data@.len(),
                data@.len() == y,
                forall|i: int| 0 <= i < y ==> (#[trigger] data@[i])@ == self.data@[i]@,
            decreases self.data@.len() - y,
        {
            let src_len = self.data[y].len();
            let mut row: Vec<Cell> = Vec::new();
            let mut x: usize = 0;
            while x < src_len
                invariant
                    y < self.data@.len(),
                    src_len == self.data@[y as int]@.len(),
                    x <= src_len,
                    row@.len() == x,
                    forall|j: int| 0 <= j < x ==> row@[j] == self.data@[y as int]@[j],
                decreases src_len - x,
            {
                row.push(self.data[y][x]);
                x += 1;
            }
            proof {
                assert(row@ =~= self.data@[y as int]@);
            }
            data.push(row);
            y += 1;
        }
        let r = Board { size: self.size, data };
        proof {
            assert forall|i: int| 0 <= i < r.grid().len() implies r.grid()[i] == self.grid()[i] by {
                assert(r.grid()[i] == r.data@[i]@);
                assert(self.grid()[i] == self.data@[i]@);
            }
            assert(r.grid() =~= self.grid());
        }
        r
    }
}

impl PartialEq for Board {
    /// Two boards are equal when they declare the same size and hold
    /// the same grid of cells.
    fn eq(&self, other: &Self) -> (r: bool) {
        if self.size != other.size {
            return false;
        }
        if self.data.len() != other.data.len() {
            proof {
                assert(self.grid().len() != other.grid().len());
            }
            return false;
        }
        let mut y: usize = 0;
        while y < self.data.len()
            invariant
                self.data@.len() == other.data@.len(),
                y <= self.data@.len(),
                self.size == other.size,
                forall|i: int| 0 <= i < y ==> (#[trigger] self.grid()[i]) == other.grid()[i],
            decreases self.data@.len() - y,
        {
            proof {
                assert(self.grid()[y as int] == self.data@[y as int]@);
                assert(other.grid()[y as int] == other.data@[y as int]@);
            }
            if self.data[y].len() != other.data[y].len() {
                proof {
                    assert(self.grid()[y as int].len() != other.grid()[y as int].len());
                }
                return false;
            }
            let row_len = self.data[y].len();
            let mut x: usize = 0;
            while x < row_len
                invariant
                    y < self.data@.len(),
                    self.data@.len() == other.data@.len(),
                    row_len == self.grid()[y as int].len(),
                    row_len == other.grid()[y as int].len(),
                    x <= row_len,
                    forall|j: int|
                        0 <= j < x ==> (#[trigger] self.grid()[y as int][j]) == other.grid()[
                            y as int
                        ][j],
                decreases row_len - x,
            {
                proof {
                    assert(self.grid()[y as int] == self.data@[y as int]@);
                    assert(other.grid()[y as int] == other.data@[y as int]@);
                }
                if self.data[y][x] != other.data[y][x] {
                    return false;
                }
                x += 1;
            }
            proof {
                assert(self.grid()[y as int] =~= other.grid()[y as int]);
            }
            y += 1;
        }
        proof {
            assert(self.grid() =~= other.grid());
        }
        true
    }
}

impl vstd::std_specs::cmp::PartialEqSpecImpl for Board {
    open spec fn obeys_eq_spec() -> bool {
        true
    }

    open spec fn eq_spec(&self, other: &Board) -> bool {
        self.size == other.size && self.grid() == other.grid()
    }
}

/// Why a placement was rejected.
#[derive(Debug, Clone, Copy, PartialEq, Eq, Structural)]
pub enum PlaceErrorKind {
    /// The target square is already occupied.
    AlreadyOccupied,
    /// The target point lies outside the grid.
    OutOfBoundary,
    /// The placement would flip no piece, which Othello forbids.
    NoPiecesChanged,
}

/// A rejected placement, carrying the board, point and piece involved
/// for diagnostics.
#[derive(Debug)]
pub struct PlaceError {
    /// The board the placement was tried on, unchanged.
    pub board: Board,
    /// The rejected target point.
    pub at: Point,
    /// The piece that was to be placed.
    pub player: Piece,
    /// The reason for the rejection.
    pub kind: PlaceErrorKind,
}

/// The `i`-th of the eight scan directions.
fn dir_at(i: usize) -> (r: Direction)
    requires
        i < 8,
    ensures
        r.x as int == dir8(i as int).0,
        r.y as int == dir8(i as int).1,
        is_unit_dir(r.x as int, r.y as int),
{
    if i == 0 {
        Direction { x: -1, y: -1 }
    } else if i == 1 {
        Direction { x: 0, y: -1 }
    } else if i == 2 {
        Direction { x: 1, y: -1 }
    } else if i == 3 {
        Direction { x: 1, y: 0 }
    } else if i == 4 {
        Direction { x: 1, y: 1 }
    } else if i == 5 {
        Direction { x: 0, y: 1 }
    } else if i == 6 {
        Direction { x: -1, y: 1 }
    } else {
        Direction { x: -1, y: 0 }
    }
}

/// Flips the pieces that a placement at `at` wins in one direction:
/// exactly the cells of the closed-off opponent run turn to the
/// mover's colour, and nothing else changes. Returns how many flipped.
pub fn flip_in_direction(b: &mut Board, at: Point, piece: Piece, direction: Direction) -> (r:
    usize)
    requires
        old(b).wf(),
        is_unit_dir(direction.x as int, direction.y as int),
    ensures
        final(b).wf(),
        final(b).size == old(b).size,
        r == dir_flips(
            *old(b),
            at.x as int,
            at.y as int,
            direction.x as int,
            direction.y as int,
            piece,
        ),
        r <= old(b).size,
        forall|x: int, y: int|
            final(b).in_bounds(x, y) ==> final(b).at(x, y) == (if on_ray(
                at.x as int,
                at.y as int,
                direction.x as int,
                direction.y as int,
                r as int,
                x,
                y,
            ) {
                piece.spec_cell()
            } else {
                old(b).at(x, y)
            }),
        grid_count(final(b).grid(), piece.spec_cell()) == grid_count(
            old(b).grid(),
            piece.spec_cell(),
        ) + r,
        grid_count(final(b).grid(), piece.spec_flip().spec_cell()) == grid_count(
            old(b).grid(),
            piece.spec_flip().spec_cell(),
        ) - r,
{
    let ghost px = at.x as int;
    let ghost py = at.y as int;
    let ghost dx = direction.x as int;
    let ghost dy = direction.y as int;
    let k = count_planned_flip_in_direction(b, at, piece, direction);
    if k == 0 {
        return 0;
    }
    let ghost b0 = *b;
    proof {
        lemma_opp_run_cells(b0, px, py, dx, dy, piece);
        assert(k == opp_run(b0, px, py, dx, dy, piece));
    }
    let mut i: usize = 0;
    let mut cx = at.x;
    let mut cy = at.y;
    while i < k
        invariant
            b.wf(),
            b.size == b0.size,
            b0.wf(),
            is_unit_dir(dx, dy),
            direction.x as int == dx,
            direction.y as int == dy,
            at.x as int == px,
            at.y as int == py,
            i <= k,
            k == opp_run(b0, px, py, dx, dy, piece),
            k <= b0.size,
            forall|j: int|
                #![trigger j * dx, j * dy]
                1 <= j <= k ==> b0.in_bounds(px + j * dx, py + j * dy),
            cx as int == px + i * dx,
            cy as int == py + i * dy,
            forall|x: int, y: int|
                b.in_bounds(x, y) ==> b.at(x, y) == (if on_ray(px, py, dx, dy, i as int, x, y) {
                    piece.spec_cell()
                } else {
                    b0.at(x, y)
                }),
            grid_count(b.grid(), piece.spec_cell()) == grid_count(b0.grid(), piece.spec_cell())
                + i,
            grid_count(b.grid(), piece.spec_flip().spec_cell()) == grid_count(
                b0.grid(),
                piece.spec_flip().spec_cell(),
            ) - i,
        decreases k - i,
    {
        proof {
            assert((i + 1) * dx == i * dx + dx) by (nonlinear_arith);
            assert((i + 1) * dy == i * dy + dy) by (nonlinear_arith);
            assert(b0.in_bounds(px + (i + 1) * dx, py + (i + 1) * dy));
        }
        let nx = match cx.checked_add_signed(direction.x) {
            Some(v) => v,
            None => {
                proof {
                    assert(false);
                }
                0
            },
        };
        let ny = match cy.checked_add_signed(direction.y) {
            Some(v) => v,
            None => {
                proof {
                    assert(false);
                }
                0
            },
        };
        cx = nx;
        cy = ny;
        i += 1;
        let ghost b_prev = *b;
        let _ = b.set(Point { x: cx, y: cy }, piece.cell());
        proof {
            assert forall|x: int, y: int| b.in_bounds(x, y) implies b.at(x, y) == (if on_ray(
                px,
                py,
                dx,
                dy,
                i as int,
                x,
                y,
            ) {
                piece.spec_cell()
            } else {
                b0.at(x, y)
            }) by {
                if x == cx as int && y == cy as int {
                    assert(x == px + (i as int) * dx && y == py + (i as int) * dy);
                    assert(on_ray(px, py, dx, dy, i as int, x, y));
                } else {
                    assert(b.at(x, y) == b_prev.at(x, y));
                    if on_ray(px, py, dx, dy, i as int, x, y) {
                        let j = choose|j: int|
                            #![trigger j * dx, j * dy]
                            1 <= j <= i && x == px + j * dx && y == py + j * dy;
                        assert(j != i);
                        assert(on_ray(px, py, dx, dy, i as int - 1, x, y));
                    } else {
                        assert(!on_ray(px, py, dx, dy, i as int - 1, x, y)) by {
                            if on_ray(px, py, dx, dy, i as int - 1, x, y) {
                                let j = choose|j: int|
                                    #![trigger j * dx, j * dy]
                                    1 <= j <= i - 1 && x == px + j * dx && y == py + j * dy;
                                assert(on_ray(px, py, dx, dy, i as int, x, y));
                            }
                        }
                    }
                }
            }
            lemma_opp_run_cells(b0, px, py, dx, dy, piece);
            assert(!on_ray(px, py, dx, dy, i as int - 1, cx as int, cy as int)) by {
                if on_ray(px, py, dx, dy, i as int - 1, cx as int, cy as int) {
                    let j = choose|j: int|
                        #![trigger j * dx, j * dy]
                        1 <= j <= i - 1 && cx as int == px + j * dx && cy as int == py + j * dy;
                    lemma_unit_mul(j, dx);
                    lemma_unit_mul(j, dy);
                    lemma_unit_mul(i as int, dx);
                    lemma_unit_mul(i as int, dy);
                    assert(false);
                }
            }
            let own = piece.spec_cell();
            let opp = piece.spec_flip().spec_cell();
            assert(b_prev.at(cx as int, cy as int) == b0.at(cx as int, cy as int));
            assert(b0.at(cx as int, cy as int) == opp);
            assert forall|yy: int| 0 <= yy < b.grid().len() implies (#[trigger] b.grid()[yy]).len()
                == b_prev.grid()[yy].len() by {}
            assert forall|yy: int, xx: int|
                0 <= yy < b.grid().len() && 0 <= xx < b.grid()[yy].len() && !(xx == cx as int && yy
                    == cy as int) implies #[trigger] b.grid()[yy][xx] == b_prev.grid()[yy][xx] by {}
            assert(b.grid()[cy as int][cx as int] == own);
            assert(b_prev.grid()[cy as int][cx as int] == opp);
            lemma_grid_count_drop(b.grid(), b_prev.grid(), own, cx as int, cy as int);
            lemma_grid_count_drop(b_prev.grid(), b.grid(), opp, cx as int, cy as int);
        }
    }
    k
}

/// Counts the pieces that would be flipped in one direction, without
/// flipping them: the length of the adjacent opponent run when a piece
/// of the mover's colour closes it off, and zero otherwise.
pub fn count_planned_flip_in_direction(
    b: &Board,
    at: Point,
    piece: Piece,
    direction: Direction,
) -> (r: usize)
    requires
        b.wf(),
        is_unit_dir(direction.x as int, direction.y as int),
    ensures
        r == dir_flips(*b, at.x as int, at.y as int, direction.x as int, direction.y as int, piece),
        r <= b.size,
{
    let k = b.run_len(at.x, at.y, direction, piece);
    proof {
        let t = k as int + 1;
        assert(-t <= direction.x as int * t <= t && direction.x as int * t == t
            * direction.x as int) by (nonlinear_arith)
            requires
                -1 <= direction.x as int <= 1,
                t >= 1,
        ;
        assert(-t <= direction.y as int * t <= t && direction.y as int * t == t
            * direction.y as int) by (nonlinear_arith)
            requires
                -1 <= direction.y as int <= 1,
                t >= 1,
        ;
    }
    let step = direction.times(k as isize + 1);
    match at.move_for(step) {
        Ok(pos) => {
            if pos.x < b.size && pos.y < b.size {
                let c = match b.get(pos) {
                    Ok(c) => c,
                    Err(_) => {
                        return 0;
                    },
                };
                if c == piece.cell() {
                    k
                } else {
                    0
                }
            } else {
                0
            }
        },
        Err(_) => 0,
    }
}

} // verus!
