//! The engine's global guarantees, proved once over the board model:
//! rejected placements, conservation of pieces, and the exact
//! correspondence between the reported flip count and the cells that
//! actually change.

use crate::othello::{
    dir8, dir_flips, flipped_by_place, flipped_upto, flips_upto, grid_count, is_unit_dir,
    lemma_grid_count_agree, lemma_grid_count_drop, lemma_opp_run_cells, lemma_ray_misses_origin,
    lemma_rays_disjoint, lemma_unit_mul, on_ray, opp_run, place_result_at, row_count,
    spec_count_flips, Board, Cell, Piece,
};
use vstd::prelude::*;

verus! {

broadcast use vstd::set::group_set_axioms;

/// A placement outside the grid never flips: its flip count is zero,
/// and `place` rejects it as out of boundary.
pub proof fn lemma_count_flips_out_of_bounds(b: Board, x: int, y: int, p: Piece)
    requires
        !b.in_bounds(x, y),
    ensures
        spec_count_flips(b, x, y, p) == 0,
{
}

/// A placement on an occupied square never flips: its flip count is
/// zero, and `place` rejects it as already occupied.
pub proof fn lemma_count_flips_occupied(b: Board, x: int, y: int, p: Piece)
    requires
        b.at(x, y) != Cell::Empty,
    ensures
        spec_count_flips(b, x, y, p) == 0,
{
}

/// A cell flipped by a placement lies on the grid, is not the placed
/// square, and held the opponent's colour before the move.
proof fn lemma_flipped_cell_is_opponent(b: Board, px: int, py: int, p: Piece, x: int, y: int)
    requires
        flipped_by_place(b, px, py, p, x, y),
    ensures
        b.in_bounds(x, y),
        b.at(x, y) == p.spec_flip().spec_cell(),
        !(x == px && y == py),
{
    let i = choose|i: int|
        #![trigger dir8(i)]
        0 <= i < 8 && on_ray(
            px,
            py,
            dir8(i).0,
            dir8(i).1,
            dir_flips(b, px, py, dir8(i).0, dir8(i).1, p) as int,
            x,
            y,
        );
    let dx = dir8(i).0;
    let dy = dir8(i).1;
    let j = choose|j: int|
        #![trigger j * dx, j * dy]
        1 <= j <= dir_flips(b, px, py, dx, dy, p) as int && x == px + j * dx && y == py + j * dy;
    assert(dir_flips(b, px, py, dx, dy, p) <= opp_run(b, px, py, dx, dy, p));
    lemma_opp_run_cells(b, px, py, dx, dy, p);
    lemma_ray_misses_origin(px, py, dx, dy, j);
}

/// The total number of cells in a grid.
spec fn grid_total(g: Seq<Seq<Cell>>) -> nat
    decreases g.len(),
{
    if g.len() == 0 {
        0
    } else {
        grid_total(g.drop_last()) + g.last().len()
    }
}

/// Every cell of a row is empty, black or white.
proof fn lemma_row_partition(r: Seq<Cell>)
    ensures
        row_count(r, Cell::Empty) + row_count(r, Cell::Black) + row_count(r, Cell::White)
            == r.len(),
    decreases r.len(),
{
    if r.len() > 0 {
        lemma_row_partition(r.drop_last());
    }
}

/// Every cell of a grid is empty, black or white.
proof fn lemma_grid_partition(g: Seq<Seq<Cell>>)
    ensures
        grid_count(g, Cell::Empty) + grid_count(g, Cell::Black) + grid_count(g, Cell::White)
            == grid_total(g),
    decreases g.len(),
{
    if g.len() > 0 {
        lemma_grid_partition(g.drop_last());
        lemma_row_partition(g.last());
    }
}

/// Grids of the same shape hold the same number of cells.
proof fn lemma_grid_total_agree(g1: Seq<Seq<Cell>>, g2: Seq<Seq<Cell>>)
    requires
        g1.len() == g2.len(),
        forall|y: int| 0 <= y < g1.len() ==> (#[trigger] g1[y]).len() == g2[y].len(),
    ensures
        grid_total(g1) == grid_total(g2),
    decreases g1.len(),
{
    if g1.len() > 0 {
        assert forall|y: int|
            0 <= y < g1.drop_last().len() implies (#[trigger] g1.drop_last()[y]).len()
            == g2.drop_last()[y].len() by {
            assert(g1.drop_last()[y] == g1[y] && g2.drop_last()[y] == g2[y]);
        }
        lemma_grid_total_agree(g1.drop_last(), g2.drop_last());
        assert(g1.last() == g1[g1.len() - 1] && g2.last() == g2[g1.len() - 1]);
    }
}

/// Placing never loses a piece: a legal placement adds exactly one to
/// the total number of pieces on the board, since the placed square
/// was empty and flipping only recolours.
pub proof fn lemma_place_grows_piece_count(b1: Board, b2: Board, px: int, py: int, p: Piece)
    requires
        b1.wf(),
        b2.wf(),
        b2.size == b1.size,
        b1.in_bounds(px, py),
        b1.at(px, py) == Cell::Empty,
        forall|x: int, y: int|
            b1.in_bounds(x, y) ==> #[trigger] b2.at(x, y) == place_result_at(b1, px, py, p, x, y),
    ensures
        grid_count(b2.grid(), Cell::Black) + grid_count(b2.grid(), Cell::White) == grid_count(
            b1.grid(),
            Cell::Black,
        ) + grid_count(b1.grid(), Cell::White) + 1,
{
    let g1 = b1.grid();
    let g2 = b2.grid();
    assert forall|y: int, x: int|
        0 <= y < g1.len() && 0 <= x < g1[y].len() && !(x == px && y == py) implies ((
    #[trigger] g1[y][x] == Cell::Empty) <==> (#[trigger] g2[y][x] == Cell::Empty)) by {
        assert(b1.in_bounds(x, y));
        assert(b2.at(x, y) == place_result_at(b1, px, py, p, x, y));
        if flipped_by_place(b1, px, py, p, x, y) {
            lemma_flipped_cell_is_opponent(b1, px, py, p, x, y);
        }
    }
    assert(g1[py][px] == Cell::Empty);
    assert(b2.at(px, py) == p.spec_cell());
    assert(g2[py][px] != Cell::Empty);
    lemma_grid_count_drop(g1, g2, Cell::Empty, px, py);
    lemma_grid_partition(g1);
    lemma_grid_partition(g2);
    lemma_grid_total_agree(g1, g2);
}

/// The cells a placement changes, other than the placed square.
pub open spec fn changed_cells(b1: Board, b2: Board, px: int, py: int) -> Set<(int, int)> {
    Set::new(
        |t: (int, int)|
            b1.in_bounds(t.0, t.1) && !(t.0 == px && t.1 == py) && b2.at(t.0, t.1) != b1.at(
                t.0,
                t.1,
            ),
    )
}

/// The first `k` cells of the ray from `(px, py)` along `(dx, dy)`.
spec fn ray_set(px: int, py: int, dx: int, dy: int, k: int) -> Set<(int, int)>
    decreases k,
{
    if k <= 0 {
        Set::empty()
    } else {
        ray_set(px, py, dx, dy, k - 1).insert((px + k * dx, py + k * dy))
    }
}

/// A ray set holds exactly the points up to `k` steps out.
proof fn lemma_ray_set_members(px: int, py: int, dx: int, dy: int, k: int)
    ensures
        forall|t: (int, int)|
            #[trigger] ray_set(px, py, dx, dy, k).contains(t) <==> exists|j: int|
                #![trigger j * dx, j * dy]
                1 <= j <= k && t.0 == px + j * dx && t.1 == py + j * dy,
    decreases k,
{
    if k > 0 {
        lemma_ray_set_members(px, py, dx, dy, k - 1);
        assert forall|t: (int, int)| #[trigger]
            ray_set(px, py, dx, dy, k).contains(t) implies exists|j: int|
            #![trigger j * dx, j * dy]
            1 <= j <= k && t.0 == px + j * dx && t.1 == py + j * dy by {
            if t == (px + k * dx, py + k * dy) {
                assert(1 <= k <= k && t.0 == px + k * dx && t.1 == py + k * dy);
            } else {
                assert(ray_set(px, py, dx, dy, k - 1).contains(t));
                let j = choose|j: int|
                    #![trigger j * dx, j * dy]
                    1 <= j <= k - 1 && t.0 == px + j * dx && t.1 == py + j * dy;
                assert(1 <= j <= k && t.0 == px + j * dx && t.1 == py + j * dy);
            }
        }
        assert forall|t: (int, int)|
            exists|j: int|
                #![trigger j * dx, j * dy]
                1 <= j <= k && t.0 == px + j * dx && t.1 == py + j * dy implies #[trigger] ray_set(
            px,
            py,
            dx,
            dy,
            k,
        ).contains(t) by {
            let j = choose|j: int|
                #![trigger j * dx, j * dy]
                1 <= j <= k && t.0 == px + j * dx && t.1 == py + j * dy;
            if j == k {
                assert(t == (px + k * dx, py + k * dy));
            } else {
                assert(ray_set(px, py, dx, dy, k - 1).contains(t));
            }
        }
    }
}

/// Adding a ray that misses a finite set grows it by the ray's length.
proof fn lemma_union_ray_len(u: Set<(int, int)>, px: int, py: int, dx: int, dy: int, k: int)
    requires
        u.finite(),
        is_unit_dir(dx, dy),
        0 <= k,
        forall|j: int| #![trigger j * dx, j * dy] 1 <= j <= k ==> !u.contains((px + j * dx, py + j * dy)),
    ensures
        u.union(ray_set(px, py, dx, dy, k)).finite(),
        u.union(ray_set(px, py, dx, dy, k)).len() == u.len() + k,
    decreases k,
{
    if k <= 0 {
        assert(u.union(ray_set(px, py, dx, dy, k)) =~= u);
    } else {
        lemma_union_ray_len(u, px, py, dx, dy, k - 1);
        let pt = (px + k * dx, py + k * dy);
        assert(u.union(ray_set(px, py, dx, dy, k)) =~= u.union(
            ray_set(px, py, dx, dy, k - 1),
        ).insert(pt));
        assert(!u.contains(pt));
        assert(!ray_set(px, py, dx, dy, k - 1).contains(pt)) by {
            lemma_ray_set_members(px, py, dx, dy, k - 1);
            if ray_set(px, py, dx, dy, k - 1).contains(pt) {
                let j = choose|j: int|
                    #![trigger j * dx, j * dy]
                    1 <= j <= k - 1 && pt.0 == px + j * dx && pt.1 == py + j * dy;
                lemma_unit_mul(j, dx);
                lemma_unit_mul(j, dy);
                lemma_unit_mul(k, dx);
                lemma_unit_mul(k, dy);
                assert(false);
            }
        }
    }
}

/// The flipped cells of the first `n` directions, as a set.
spec fn flipped_sets(b: Board, px: int, py: int, p: Piece, n: int) -> Set<(int, int)>
    decreases n,
{
    if n <= 0 {
        Set::empty()
    } else {
        flipped_sets(b, px, py, p, n - 1).union(
            ray_set(
                px,
                py,
                dir8(n - 1).0,
                dir8(n - 1).1,
                dir_flips(b, px, py, dir8(n - 1).0, dir8(n - 1).1, p) as int,
            ),
        )
    }
}

/// The flipped set of the first `n` directions holds exactly the cells
/// within flipping range there, and its size is the flip sum: the rays
/// are pairwise disjoint, so no cell is counted twice.
proof fn lemma_flipped_sets_card(b: Board, px: int, py: int, p: Piece, n: int)
    requires
        0 <= n <= 8,
    ensures
        flipped_sets(b, px, py, p, n).finite(),
        flipped_sets(b, px, py, p, n).len() == flips_upto(b, px, py, p, n),
        forall|t: (int, int)|
            #[trigger] flipped_sets(b, px, py, p, n).contains(t) <==> flipped_upto(
                b,
                px,
                py,
                p,
                n,
                t.0,
                t.1,
            ),
    decreases n,
{
    if n > 0 {
        lemma_flipped_sets_card(b, px, py, p, n - 1);
        let dx = dir8(n - 1).0;
        let dy = dir8(n - 1).1;
        let k = dir_flips(b, px, py, dx, dy, p) as int;
        let prev = flipped_sets(b, px, py, p, n - 1);
        lemma_ray_set_members(px, py, dx, dy, k);
        assert forall|j: int| #![trigger j * dx, j * dy] 1 <= j <= k implies !prev.contains(
            (px + j * dx, py + j * dy),
        ) by {
            if prev.contains((px + j * dx, py + j * dy)) {
                assert(flipped_upto(b, px, py, p, n - 1, px + j * dx, py + j * dy));
                let i2 = choose|i2: int|
                    #![trigger dir8(i2)]
                    0 <= i2 < n - 1 && on_ray(
                        px,
                        py,
                        dir8(i2).0,
                        dir8(i2).1,
                        dir_flips(b, px, py, dir8(i2).0, dir8(i2).1, p) as int,
                        px + j * dx,
                        py + j * dy,
                    );
                let j2 = choose|j2: int|
                    #![trigger j2 * dir8(i2).0, j2 * dir8(i2).1]
                    1 <= j2 <= dir_flips(b, px, py, dir8(i2).0, dir8(i2).1, p) as int && px + j
                        * dx == px + j2 * dir8(i2).0 && py + j * dy == py + j2 * dir8(i2).1;
                lemma_rays_disjoint(px, py, dir8(i2).0, dir8(i2).1, dx, dy, j2, j);
                assert(false);
            }
        }
        lemma_union_ray_len(prev, px, py, dx, dy, k);
        assert forall|t: (int, int)| #[trigger]
            flipped_sets(b, px, py, p, n).contains(t) implies flipped_upto(
            b,
            px,
            py,
            p,
            n,
            t.0,
            t.1,
        ) by {
            if prev.contains(t) {
                assert(flipped_upto(b, px, py, p, n - 1, t.0, t.1));
                let i2 = choose|i2: int|
                    #![trigger dir8(i2)]
                    0 <= i2 < n - 1 && on_ray(
                        px,
                        py,
                        dir8(i2).0,
                        dir8(i2).1,
                        dir_flips(b, px, py, dir8(i2).0, dir8(i2).1, p) as int,
                        t.0,
                        t.1,
                    );
                assert(0 <= i2 < n);
            } else {
                let j = choose|j: int|
                    #![trigger j * dx, j * dy]
                    1 <= j <= k && t.0 == px + j * dx && t.1 == py + j * dy;
                assert(on_ray(px, py, dx, dy, k, t.0, t.1));
                assert(0 <= n - 1 < n && on_ray(
                    px,
                    py,
                    dir8(n - 1).0,
                    dir8(n - 1).1,
                    dir_flips(b, px, py, dir8(n - 1).0, dir8(n - 1).1, p) as int,
                    t.0,
                    t.1,
                ));
            }
        }
        assert forall|t: (int, int)|
            flipped_upto(b, px, py, p, n, t.0, t.1) implies #[trigger] flipped_sets(
            b,
            px,
            py,
            p,
            n,
        ).contains(t) by {
            let i2 = choose|i2: int|
                #![trigger dir8(i2)]
                0 <= i2 < n && on_ray(
                    px,
                    py,
                    dir8(i2).0,
                    dir8(i2).1,
                    dir_flips(b, px, py, dir8(i2).0, dir8(i2).1, p) as int,
                    t.0,
                    t.1,
                );
            if i2 < n - 1 {
                assert(flipped_upto(b, px, py, p, n - 1, t.0, t.1));
                assert(prev.contains(t));
            } else {
                let j2 = choose|j2: int|
                    #![trigger j2 * dir8(i2).0, j2 * dir8(i2).1]
                    1 <= j2 <= dir_flips(b, px, py, dir8(i2).0, dir8(i2).1, p) as int && t.0 == px
                        + j2 * dir8(i2).0 && t.1 == py + j2 * dir8(i2).1;
                assert(ray_set(px, py, dx, dy, k).contains(t));
            }
        }
    }
}

/// The reported flip count is exact: a legal placement changes, apart
/// from the placed square itself, exactly `count_flips` cells.
pub proof fn lemma_flip_count_matches_changed_cells(
    b1: Board,
    b2: Board,
    px: int,
    py: int,
    p: Piece,
)
    requires
        b1.wf(),
        b2.size == b1.size,
        b1.in_bounds(px, py),
        b1.at(px, py) == Cell::Empty,
        forall|x: int, y: int|
            b1.in_bounds(x, y) ==> #[trigger] b2.at(x, y) == place_result_at(b1, px, py, p, x, y),
    ensures
        changed_cells(b1, b2, px, py).finite(),
        changed_cells(b1, b2, px, py).len() == spec_count_flips(b1, px, py, p),
{
    lemma_flipped_sets_card(b1, px, py, p, 8);
    assert forall|t: (int, int)|
        #![trigger changed_cells(b1, b2, px, py).contains(t)]
        changed_cells(b1, b2, px, py).contains(t) == flipped_sets(b1, px, py, p, 8).contains(
        t,
    ) by {
        if changed_cells(b1, b2, px, py).contains(t) {
            assert(b2.at(t.0, t.1) == place_result_at(b1, px, py, p, t.0, t.1));
            assert(flipped_by_place(b1, px, py, p, t.0, t.1));
            assert(flipped_sets(b1, px, py, p, 8).contains(t));
        }
        if flipped_sets(b1, px, py, p, 8).contains(t) {
            assert(flipped_by_place(b1, px, py, p, t.0, t.1));
            lemma_flipped_cell_is_opponent(b1, px, py, p, t.0, t.1);
            assert(b2.at(t.0, t.1) == p.spec_cell());
            assert(changed_cells(b1, b2, px, py).contains(t));
        }
    }
    assert(changed_cells(b1, b2, px, py) =~= flipped_sets(b1, px, py, p, 8));
}

} // verus!
