//! The move predictor: a depth- and breadth-limited adversarial
//! search over board engine operations, ranking candidate moves by a
//! static evaluation.
//!
//! The evaluation combines four features: material (own piece count);
//! mobility (three points per legal move of advantage, with a
//! hundred-point bonus when exactly one side is immobilized); a
//! terminal signal (`isize::MAX / 2` when the opponent is wiped out,
//! `isize::MIN / 2` when the mover is) that dominates everything
//! else; and positional weights folded into the top-left quadrant
//! (corner 20, the block next to a corner -5, other edge squares 3,
//! the ring inside the edge -3, interior 0). Scores of different
//! search layers combine by saturating addition.

use crate::othello::{
    grid_count, lemma_count_flips_frame, lemma_place_result_frame, lemma_placeable_exact,
    lemma_spec_placeable_frame, place_result_at, spec_count_flips, spec_placeable, Board, Cell,
    Piece, Point,
};
use vstd::prelude::*;

verus! {

/// Whether a candidate list is ordered best-first.
pub open spec fn sorted_desc(s: Seq<(Point, isize)>) -> bool {
    forall|i: int, j: int| #![trigger s[i], s[j]] 0 <= i <= j < s.len() ==> s[i].1 >= s[j].1
}

/// The sign of the immobilization bonus: it applies only when exactly
/// one side has no legal move, against the mover when it is the mover.
pub open spec fn mobility_bonus(own_moves: int, opp_moves: int) -> int {
    if own_moves == 0 && opp_moves == 0 {
        0
    } else if own_moves == 0 {
        -1
    } else if opp_moves == 0 {
        1
    } else {
        0
    }
}

/// A candidate paired with the mathematical value of its score.
pub open spec fn pair_score(pr: (Point, isize)) -> (Point, int) {
    (pr.0, pr.1 as int)
}

/// Inserts a scored candidate behind every at-least-as-good entry:
/// the step of a stable best-first ordering.
pub open spec fn insert_ranked(s: Seq<(Point, int)>, e: (Point, int)) -> Seq<(Point, int)>
    decreases s.len(),
{
    if s.len() == 0 {
        seq![e]
    } else if s.last().1 < e.1 {
        insert_ranked(s.drop_last(), e).push(s.last())
    } else {
        s.push(e)
    }
}

/// The first `n` entries of `v`, ordered best-first; entries with
/// equal scores keep their order in `v`.
pub open spec fn spec_rank(v: Seq<(Point, int)>, n: int) -> Seq<(Point, int)>
    decreases n,
{
    if n <= 0 {
        Seq::empty()
    } else {
        insert_ranked(spec_rank(v, n - 1), v[n - 1])
    }
}

/// Inserting adds exactly one entry.
proof fn lemma_insert_ranked_len(s: Seq<(Point, int)>, e: (Point, int))
    ensures
        insert_ranked(s, e).len() == s.len() + 1,
    decreases s.len(),
{
    if s.len() > 0 && s.last().1 < e.1 {
        lemma_insert_ranked_len(s.drop_last(), e);
    }
}

/// Ranking keeps the number of entries.
proof fn lemma_spec_rank_len(v: Seq<(Point, int)>, n: int)
    requires
        0 <= n,
    ensures
        spec_rank(v, n).len() == n,
    decreases n,
{
    if n > 0 {
        lemma_spec_rank_len(v, n - 1);
        lemma_insert_ranked_len(spec_rank(v, n - 1), v[n - 1]);
    }
}

/// Insertion lands exactly at the scanned slot: before every worse
/// entry, behind the rest.
proof fn lemma_insert_ranked_at(s: Seq<(Point, int)>, e: (Point, int), pos: int)
    requires
        0 <= pos <= s.len(),
        forall|k: int| pos <= k < s.len() ==> (#[trigger] s[k]).1 < e.1,
        pos > 0 ==> s[pos - 1].1 >= e.1,
    ensures
        insert_ranked(s, e) == s.insert(pos, e),
    decreases s.len(),
{
    if s.len() == 0 {
        assert(insert_ranked(s, e) =~= s.insert(0, e));
    } else if s.last().1 < e.1 {
        assert(pos < s.len());
        assert forall|k: int| pos <= k < s.drop_last().len() implies (#[trigger] s.drop_last()[k]).1
            < e.1 by {
            assert(s.drop_last()[k] == s[k]);
        }
        if pos > 0 {
            assert(s.drop_last()[pos - 1] == s[pos - 1]);
        }
        lemma_insert_ranked_at(s.drop_last(), e, pos);
        assert(insert_ranked(s, e) =~= s.insert(pos, e));
    } else {
        assert(pos == s.len());
        assert(insert_ranked(s, e) =~= s.insert(pos, e));
    }
}

/// Saturating signed addition, used to combine search-layer scores.
fn sat_add(a: isize, b: isize) -> (r: isize)
    ensures
        r == (if a + b > isize::MAX {
            isize::MAX
        } else if a + b < isize::MIN {
            isize::MIN
        } else {
            (a + b) as isize
        }),
{
    if a > 0 && b > isize::MAX - a {
        isize::MAX
    } else if a < 0 && b < isize::MIN - a {
        isize::MIN
    } else {
        a + b
    }
}

/// Mobility: three points per legal move of advantage, with a large
/// bonus or penalty when exactly one side is immobilized — a penalty
/// when it is the mover, a bonus when it is the opponent.
fn eval_flexibility(state: &Board, playing: Piece) -> (r: isize)
    requires
        state.wf(),
    ensures
        r == 3 * (spec_placeable(*state, playing, state.size as int).len() - spec_placeable(
            *state,
            playing.spec_flip(),
            state.size as int,
        ).len()) + 100 * mobility_bonus(
            spec_placeable(*state, playing, state.size as int).len() as int,
            spec_placeable(*state, playing.spec_flip(), state.size as int).len() as int,
        ),
        -194410 <= r <= 194410,
{
    proof {
        lemma_placeable_exact(*state, playing);
        lemma_placeable_exact(*state, playing.spec_flip());
    }
    let player_opportunity = state.placeable(playing).len() as isize;
    let opponent_opportunity = state.placeable(playing.flip()).len() as isize;
    let base = (player_opportunity - opponent_opportunity) * 3;
    let unplaceable: isize = if player_opportunity == 0 && opponent_opportunity == 0 {
        0
    } else if player_opportunity == 0 {
        -1
    } else if opponent_opportunity == 0 {
        1
    } else {
        0
    };
    base + unplaceable * 100
}

/// Terminal signal: a board where the opponent has no piece counts as
/// won, one where the mover has none as lost. Its magnitude dominates
/// every other evaluation term.
fn eval_win(state: &Board, playing: Piece) -> (r: isize)
    requires
        state.wf(),
    ensures
        r == (if grid_count(state.grid(), playing.spec_flip().spec_cell()) == 0 {
            isize::MAX / 2
        } else if grid_count(state.grid(), playing.spec_cell()) == 0 {
            isize::MIN / 2
        } else {
            0
        }),
{
    let opponent = state.score(playing.flip());
    let own = state.score(playing);
    if opponent == 0 {
        isize::MAX / 2
    } else if own == 0 {
        isize::MIN / 2
    } else {
        0
    }
}

/// The positional weight of square `(x, y)`, folded into the top-left
/// quadrant: corners strong, the block beside a corner dangerous,
/// other edge squares mildly good, the ring inside the edge mildly
/// bad, the interior neutral.
pub open spec fn pos_weight(size: int, x: int, y: int) -> int {
    let sx = if x > size - 1 - x {
        size - 1 - x
    } else {
        x
    };
    let sy = if y > size - 1 - y {
        size - 1 - y
    } else {
        y
    };
    if sx == 0 && sy == 0 {
        20
    } else if sx <= 1 && sy <= 1 {
        -5
    } else if sx == 0 || sy == 0 {
        3
    } else if sx == 1 || sy == 1 {
        -3
    } else {
        0
    }
}

/// The positional weights are mirror-symmetric: folding across either
/// midline leaves every square's weight unchanged.
pub proof fn lemma_pos_weight_symmetric(size: int, x: int, y: int)
    ensures
        pos_weight(size, x, y) == pos_weight(size, size - 1 - x, y),
        pos_weight(size, x, y) == pos_weight(size, x, size - 1 - y),
{
}

/// How a cell counts for `playing`: its weight, negated for the
/// opponent's pieces, nothing for an empty square.
pub open spec fn cell_sign(c: Cell, playing: Piece) -> int {
    if c == Cell::Empty {
        0
    } else if c == playing.spec_cell() {
        1
    } else {
        -1
    }
}

/// The positional score contributed by one row.
pub open spec fn pos_row_score(r: Seq<Cell>, size: int, y: int, playing: Piece) -> int
    decreases r.len(),
{
    if r.len() == 0 {
        0
    } else {
        pos_row_score(r.drop_last(), size, y, playing) + pos_weight(size, r.len() - 1, y)
            * cell_sign(r.last(), playing)
    }
}

/// The positional score of a whole grid.
pub open spec fn pos_score(g: Seq<Seq<Cell>>, size: int, playing: Piece) -> int
    decreases g.len(),
{
    if g.len() == 0 {
        0
    } else {
        pos_score(g.drop_last(), size, playing) + pos_row_score(g.last(), size, g.len() - 1, playing)
    }
}

/// Sums the positional weights of all occupied squares, counted for
/// `playing`.
fn eval_positional_score(state: &Board, playing: Piece) -> (r: isize)
    requires
        state.wf(),
    ensures
        r == pos_score(state.grid(), state.size as int, playing),
        -5100 * 255 <= r <= 5100 * 255,
{
    let size = state.size;
    let playing_cell = playing.cell();
    let mut acc: isize = 0;
    let mut y: usize = 0;
    while y < state.data.len()
        invariant
            state.wf(),
            y <= state.data@.len(),
            state.data@.len() == state.size,
            size == state.size,
            playing_cell == playing.spec_cell(),
            acc == pos_score(state.grid().take(y as int), size as int, playing),
            -5100 * (y as int) <= acc <= 5100 * (y as int),
        decreases state.data@.len() - y,
    {
        proof {
            assert(state.grid()[y as int] == state.data@[y as int]@);
        }
        let row_len = state.data[y].len();
        let mut row_acc: isize = 0;
        let mut x: usize = 0;
        while x < row_len
            invariant
                state.wf(),
                y < state.data@.len(),
                state.data@.len() == state.size,
                size == state.size,
                playing_cell == playing.spec_cell(),
                row_len == state.grid()[y as int].len(),
                row_len < 255,
                x <= row_len,
                row_acc == pos_row_score(
                    state.grid()[y as int].take(x as int),
                    size as int,
                    y as int,
                    playing,
                ),
                -20 * (x as int) <= row_acc <= 20 * (x as int),
            decreases row_len - x,
        {
            proof {
                assert(state.grid()[y as int] == state.data@[y as int]@);
                assert(state.grid()[y as int].take(x as int + 1).drop_last() =~= state.grid()[
                    y as int
                ].take(x as int));
            }
            let sx = if x > size - 1 - x {
                size - 1 - x
            } else {
                x
            };
            let sy = if y > size - 1 - y {
                size - 1 - y
            } else {
                y
            };
            let weight: isize = if sx == 0 && sy == 0 {
                20
            } else if sx <= 1 && sy <= 1 {
                -5
            } else if sx == 0 || sy == 0 {
                3
            } else if sx == 1 || sy == 1 {
                -3
            } else {
                0
            };
            let cell = state.data[y][x];
            let contribution: isize = if cell == Cell::Empty {
                0
            } else if cell == playing_cell {
                weight
            } else {
                -weight
            };
            proof {
                assert(state.grid()[y as int].take(x as int + 1).last() == state.grid()[y as int][x as int]);
                let pw = pos_weight(size as int, x as int, y as int);
                let cs = cell_sign(state.grid()[y as int][x as int], playing);
                assert(cs == 0 ==> pw * cs == 0) by (nonlinear_arith);
                assert(cs == 1 ==> pw * cs == pw) by (nonlinear_arith);
                assert(cs == -1 ==> pw * cs == -pw) by (nonlinear_arith);
                assert(contribution as int == pw * cs);
            }
            row_acc += contribution;
            x += 1;
        }
        proof {
            assert(state.grid()[y as int].take(row_len as int) =~= state.grid()[y as int]);
            assert(state.grid().take(y as int + 1).drop_last() =~= state.grid().take(y as int));
            assert(state.grid().take(y as int + 1).last() == state.grid()[y as int]);
        }
        acc += row_acc;
        y += 1;
    }
    proof {
        assert(state.grid().take(state.data@.len() as int) =~= state.grid());
    }
    acc
}

/// The static evaluation of a position for `playing`: material,
/// mobility, terminal signal and positional weighting, summed.
pub open spec fn spec_eval(b: Board, playing: Piece) -> int {
    let own_moves = spec_placeable(b, playing, b.size as int).len() as int;
    let opp_moves = spec_placeable(b, playing.spec_flip(), b.size as int).len() as int;
    pos_score(b.grid(), b.size as int, playing) + grid_count(b.grid(), playing.spec_cell()) + 3 * (
    own_moves - opp_moves) + 100 * mobility_bonus(own_moves, opp_moves) + (if grid_count(
        b.grid(),
        playing.spec_flip().spec_cell(),
    ) == 0 {
        isize::MAX / 2
    } else if grid_count(b.grid(), playing.spec_cell()) == 0 {
        isize::MIN / 2
    } else {
        0
    })
}

/// The static evaluation of a position for `playing`.
fn eval(state: &Board, playing: Piece) -> (r: isize)
    requires
        state.wf(),
    ensures
        r == spec_eval(*state, playing),
{
    proof {
        lemma_placeable_exact(*state, playing);
        lemma_placeable_exact(*state, playing.spec_flip());
    }
    let base_score = state.score(playing) as isize;
    let flexibility_score = eval_flexibility(state, playing);
    let win_score = eval_win(state, playing);
    let positional_score = eval_positional_score(state, playing);
    positional_score + base_score + flexibility_score + win_score
}

/// Whether `nb` is the position reached by legally playing `p` at
/// `pt` on `b`.
pub open spec fn is_successor(b: Board, pt: Point, p: Piece, nb: Board) -> bool {
    &&& nb.wf()
    &&& nb.size == b.size
    &&& forall|x: int, y: int|
        nb.in_bounds(x, y) ==> #[trigger] nb.at(x, y) == place_result_at(
            b,
            pt.x as int,
            pt.y as int,
            p,
            x,
            y,
        )
}

/// The evaluation, for `p`, of the position reached by playing `pt`
/// on `b`. Well defined: the evaluation reads only a board's grid and
/// size, and the placement determines both.
pub open spec fn move_score(b: Board, p: Piece, pt: Point) -> int {
    spec_eval(choose|nb: Board| is_successor(b, pt, p, nb), p)
}

/// The evaluation reads only the grid: boards of equal size and grid
/// evaluate alike.
proof fn lemma_spec_eval_frame(b1: Board, b2: Board, p: Piece)
    requires
        b1.size == b2.size,
        b1.grid() == b2.grid(),
    ensures
        spec_eval(b1, p) == spec_eval(b2, p),
{
    lemma_spec_placeable_frame(b1, b2, p, b1.size as int);
    lemma_spec_placeable_frame(b1, b2, p.spec_flip(), b1.size as int);
}

/// Every board meeting the successor description carries the move's
/// score.
proof fn lemma_move_score(b: Board, pt: Point, p: Piece, nb: Board)
    requires
        is_successor(b, pt, p, nb),
    ensures
        spec_eval(nb, p) == move_score(b, p, pt),
{
    let nb0 = choose|nb0: Board| is_successor(b, pt, p, nb0);
    assert(is_successor(b, pt, p, nb0));
    assert forall|y: int| 0 <= y < nb.grid().len() implies #[trigger] nb.grid()[y] == nb0.grid()[y] by {
        assert forall|x: int| 0 <= x < nb.grid()[y].len() implies #[trigger] nb.grid()[y][x]
            == nb0.grid()[y][x] by {
            assert(nb.in_bounds(x, y) && nb0.in_bounds(x, y));
            assert(nb.at(x, y) == place_result_at(b, pt.x as int, pt.y as int, p, x, y));
            assert(nb0.at(x, y) == place_result_at(b, pt.x as int, pt.y as int, p, x, y));
        }
        assert(nb.grid()[y] =~= nb0.grid()[y]);
    }
    assert(nb.grid() =~= nb0.grid());
    lemma_spec_eval_frame(nb, nb0, p);
}

/// Each legal candidate of `p`, in scan order, paired with the
/// evaluation of the position after playing it.
pub open spec fn scored_moves(b: Board, p: Piece, n: int) -> Seq<(Point, int)>
    decreases n,
{
    if n <= 0 {
        Seq::empty()
    } else {
        scored_moves(b, p, n - 1).push(
            (
                spec_placeable(b, p, b.size as int)[n - 1],
                move_score(b, p, spec_placeable(b, p, b.size as int)[n - 1]),
            ),
        )
    }
}

/// The candidates ranked best-first by the evaluation after playing
/// them; candidates of equal value keep scan order.
pub open spec fn ranked_moves(b: Board, p: Piece) -> Seq<(Point, int)> {
    spec_rank(
        scored_moves(b, p, spec_placeable(b, p, b.size as int).len() as int),
        spec_placeable(b, p, b.size as int).len() as int,
    )
}

/// The candidate points of a scored list, in order.
pub open spec fn points_of(s: Seq<(Point, int)>) -> Seq<Point> {
    s.map_values(|pr: (Point, int)| pr.0)
}

/// Insertion only reorders: the candidate points come back as a
/// multiset with the inserted one added.
proof fn lemma_insert_ranked_points(s: Seq<(Point, int)>, e: (Point, int))
    ensures
        points_of(insert_ranked(s, e)).to_multiset() == points_of(s).to_multiset().insert(e.0),
    decreases s.len(),
{
    broadcast use vstd::seq_lib::group_to_multiset_ensures;

    if s.len() == 0 {
        assert(points_of(insert_ranked(s, e)) =~= Seq::<Point>::empty().push(e.0));
        assert(points_of(s) =~= Seq::<Point>::empty());
    } else if s.last().1 < e.1 {
        lemma_insert_ranked_points(s.drop_last(), e);
        assert(points_of(insert_ranked(s, e)) =~= points_of(
            insert_ranked(s.drop_last(), e),
        ).push(s.last().0));
        assert(points_of(s) =~= points_of(s.drop_last()).push(s.last().0));
        assert(points_of(insert_ranked(s, e)).to_multiset() =~= points_of(
            s,
        ).to_multiset().insert(e.0));
    } else {
        assert(points_of(insert_ranked(s, e)) =~= points_of(s).push(e.0));
    }
}

/// Ranking only reorders: the first `n` candidate points come back as
/// the same multiset.
proof fn lemma_spec_rank_points(v: Seq<(Point, int)>, n: int)
    requires
        0 <= n <= v.len(),
    ensures
        points_of(spec_rank(v, n)).to_multiset() == points_of(v.take(n)).to_multiset(),
    decreases n,
{
    broadcast use vstd::seq_lib::group_to_multiset_ensures;

    if n > 0 {
        lemma_spec_rank_points(v, n - 1);
        lemma_insert_ranked_points(spec_rank(v, n - 1), v[n - 1]);
        assert(points_of(v.take(n)) =~= points_of(v.take(n - 1)).push(v[n - 1].0));
        assert(points_of(spec_rank(v, n)).to_multiset() =~= points_of(
            v.take(n),
        ).to_multiset());
    } else {
        assert(points_of(spec_rank(v, 0)) =~= Seq::<Point>::empty());
        assert(points_of(v.take(0)) =~= Seq::<Point>::empty());
    }
}

/// The scored list pairs the `k`-th legal candidate with its score.
proof fn lemma_scored_moves_index(b: Board, p: Piece, n: int)
    ensures
        scored_moves(b, p, n).len() == (if n <= 0 {
            0
        } else {
            n
        }),
        forall|k: int|
            0 <= k < n ==> (#[trigger] scored_moves(b, p, n)[k]).0 == spec_placeable(
                b,
                p,
                b.size as int,
            )[k],
    decreases n,
{
    if n > 0 {
        lemma_scored_moves_index(b, p, n - 1);
    }
}

/// The ranking lists each legal candidate exactly once: its points
/// are pairwise distinct.
pub proof fn lemma_ranked_moves_distinct(b: Board, p: Piece)
    requires
        b.wf(),
    ensures
        forall|i: int, j: int|
            #![trigger ranked_moves(b, p)[i], ranked_moves(b, p)[j]]
            0 <= i < j < ranked_moves(b, p).len() ==> ranked_moves(b, p)[i].0 != ranked_moves(
                b,
                p,
            )[j].0,
{
    broadcast use vstd::seq_lib::group_to_multiset_ensures;

    lemma_placeable_exact(b, p);
    let pm = spec_placeable(b, p, b.size as int);
    let n = pm.len() as int;
    let scored = scored_moves(b, p, n);
    lemma_scored_moves_index(b, p, n);
    lemma_spec_rank_points(scored, n);
    assert(scored.take(n) =~= scored);
    let sp = points_of(scored);
    assert forall|i: int, j: int| 0 <= i < j < sp.len() implies #[trigger] sp[i] != #[trigger] sp[j] by {
        assert(sp[i] == scored[i].0 && sp[j] == scored[j].0);
        assert(pm[i] != pm[j]);
    }
    assert(sp.no_duplicates());
    sp.lemma_multiset_has_no_duplicates();
    let rp = points_of(ranked_moves(b, p));
    assert(rp.to_multiset() == sp.to_multiset());
    rp.lemma_multiset_has_no_duplicates_conv();
    assert forall|i: int, j: int|
        #![trigger ranked_moves(b, p)[i], ranked_moves(b, p)[j]]
        0 <= i < j < ranked_moves(b, p).len() implies ranked_moves(b, p)[i].0 != ranked_moves(
        b,
        p,
    )[j].0 by {
        assert(rp[i] == ranked_moves(b, p)[i].0 && rp[j] == ranked_moves(b, p)[j].0);
        assert(rp[i] != rp[j]);
    }
}

/// Plays a move the caller has already established to be legal.
fn play_move(state: &Board, at: Point, piece: Piece) -> (r: Board)
    requires
        state.wf(),
        spec_count_flips(*state, at.x as int, at.y as int, piece) > 0,
    ensures
        is_successor(*state, at, piece, r),
{
    let cloned = state.clone();
    proof {
        lemma_count_flips_frame(cloned, *state, at.x as int, at.y as int, piece);
        lemma_place_result_frame(cloned, *state, at.x as int, at.y as int, piece);
    }
    match cloned.place(at, piece) {
        Ok(p) => p.0,
        Err(_) => {
            proof {
                assert(false);
            }
            state.clone()
        },
    }
}

/// Sorts candidates by score, highest first; equal scores keep their
/// earlier order, so ties fall back to enumeration order.
fn sort_desc(v: Vec<(Point, isize)>) -> (r: Vec<(Point, isize)>)
    ensures
        r@.len() == v@.len(),
        forall|i: int| 0 <= i < r@.len() ==> v@.contains(#[trigger] r@[i]),
        sorted_desc(r@),
        r@.map_values(|pr: (Point, isize)| pair_score(pr)) == spec_rank(
            v@.map_values(|pr: (Point, isize)| pair_score(pr)),
            v@.len() as int,
        ),
{
    let mut r: Vec<(Point, isize)> = Vec::new();
    let mut idx: usize = 0;
    while idx < v.len()
        invariant
            idx <= v@.len(),
            r@.len() == idx,
            forall|i: int| 0 <= i < r@.len() ==> v@.contains(#[trigger] r@[i]),
            sorted_desc(r@),
            r@.map_values(|pr: (Point, isize)| pair_score(pr)) == spec_rank(
                v@.map_values(|pr: (Point, isize)| pair_score(pr)),
                idx as int,
            ),
        decreases v@.len() - idx,
    {
        let e = v[idx];
        let ghost r0 = r@;
        let mut pos = r.len();
        while pos > 0 && r[pos - 1].1 < e.1
            invariant
                pos <= r@.len(),
                r@ == r0,
                forall|k: int| pos <= k < r@.len() ==> (#[trigger] r@[k]).1 < e.1,
            decreases pos,
        {
            pos -= 1;
        }
        r.insert(pos, e);
        proof {
            assert(v@.contains(e)) by {
                assert(v@[idx as int] == e);
            }
            let pair = |pr: (Point, isize)| pair_score(pr);
            let rm0 = r0.map_values(pair);
            assert forall|k: int| pos <= k < rm0.len() implies (#[trigger] rm0[k]).1
                < pair_score(e).1 by {
                assert(rm0[k] == pair_score(r0[k]));
            }
            if pos > 0 {
                assert(rm0[pos as int - 1] == pair_score(r0[pos as int - 1]));
            }
            lemma_insert_ranked_at(rm0, pair_score(e), pos as int);
            assert(r@.map_values(pair) =~= rm0.insert(pos as int, pair_score(e)));
            assert(v@.map_values(pair)[idx as int] == pair_score(e));
            assert forall|i: int| 0 <= i < r@.len() implies v@.contains(#[trigger] r@[i]) by {
                if i < pos {
                    assert(r@[i] == r0[i]);
                } else if i == pos {
                    assert(r@[i] == e);
                } else {
                    assert(r@[i] == r0[i - 1]);
                }
            }
            assert forall|i: int, j: int|
                #![trigger r@[i], r@[j]]
                0 <= i <= j < r@.len() implies r@[i].1 >= r@[j].1 by {
                if j < pos {
                } else if i > pos {
                    assert(r@[i] == r0[i - 1] && r@[j] == r0[j - 1]);
                } else if i == pos && j == pos {
                } else if i < pos && j == pos {
                    // everything kept before the slot is at least `e`
                    assert(r0[pos - 1].1 >= e.1);
                    assert(r0[i].1 >= r0[pos - 1].1);
                } else if i == pos && j > pos {
                    assert(r@[j] == r0[j - 1] && r0[j - 1].1 < e.1);
                } else {
                    assert(i < pos && j > pos);
                    assert(r@[j] == r0[j - 1] && r0[j - 1].1 < e.1);
                    assert(r0[i].1 >= r0[pos - 1].1 && r0[pos - 1].1 >= e.1);
                }
            }
        }
        idx += 1;
    }
    r
}

/// Ranks the candidate moves for `ai_player`, best first: each
/// candidate is scored by playing it and evaluating the result, and
/// only the best `width_lim` survive — without look-ahead, exactly
/// the best-`width_lim` prefix of [`ranked_moves`]. With look-ahead
/// left, each survivor's score adds the value of the position reached
/// after a one-ply opponent reply and the mover's own best follow-up,
/// found recursively with a narrow width.
fn predict_rec(state: &Board, ai_player: Piece, rec: usize, width_lim: usize) -> (r: Vec<
    (Point, isize),
>)
    requires
        state.wf(),
        rec <= 10,
    ensures
        forall|i: int|
            0 <= i < r@.len() ==> spec_count_flips(
                *state,
                (#[trigger] r@[i]).0.x as int,
                r@[i].0.y as int,
                ai_player,
            ) > 0,
        r@.len() <= width_lim,
        (r@.len() == 0) <==> (width_lim == 0 || spec_placeable(
            *state,
            ai_player,
            state.size as int,
        ).len() == 0),
        sorted_desc(r@),
        rec == 0 ==> r@.len() == vstd::math::min(
            width_lim as int,
            spec_placeable(*state, ai_player, state.size as int).len() as int,
        ),
        rec == 0 ==> r@.map_values(|pr: (Point, isize)| pair_score(pr)) == ranked_moves(
            *state,
            ai_player,
        ).take(r@.len() as int),
    decreases rec,
{
    let possible = state.placeable(ai_player);
    proof {
        lemma_placeable_exact(*state, ai_player);
    }
    let mut scored: Vec<(Point, isize)> = Vec::new();
    let mut idx: usize = 0;
    while idx < possible.len()
        invariant
            state.wf(),
            possible@ == spec_placeable(*state, ai_player, state.size as int),
            forall|i: int|
                0 <= i < possible@.len() ==> spec_count_flips(
                    *state,
                    (#[trigger] possible@[i]).x as int,
                    possible@[i].y as int,
                    ai_player,
                ) > 0,
            idx <= possible@.len(),
            scored@.len() == idx,
            forall|i: int|
                0 <= i < scored@.len() ==> spec_count_flips(
                    *state,
                    (#[trigger] scored@[i]).0.x as int,
                    scored@[i].0.y as int,
                    ai_player,
                ) > 0,
            scored@.map_values(|pr: (Point, isize)| pair_score(pr)) == scored_moves(
                *state,
                ai_player,
                idx as int,
            ),
        decreases possible@.len() - idx,
    {
        let play = possible[idx];
        let next = play_move(state, play, ai_player);
        let sc = eval(&next, ai_player);
        scored.push((play, sc));
        proof {
            lemma_move_score(*state, play, ai_player, next);
            assert(scored@.map_values(|pr: (Point, isize)| pair_score(pr)) =~= scored_moves(
                *state,
                ai_player,
                idx as int,
            ).push((play, sc as int)));
        }
        idx += 1;
    }
    let mut ranked = sort_desc(scored);
    let ghost full = ranked@;
    ranked.truncate(width_lim);
    proof {
        if width_lim <= full.len() {
            assert(ranked@ == full.subrange(0, width_lim as int));
        }
        assert forall|i: int|
            0 <= i < ranked@.len() implies spec_count_flips(
            *state,
            (#[trigger] ranked@[i]).0.x as int,
            ranked@[i].0.y as int,
            ai_player,
        ) > 0 by {
            assert(scored@.contains(ranked@[i])) by {
                assert(full.contains(full[i]));
            }
            let j = choose|j: int| 0 <= j < scored@.len() && #[trigger] scored@[j] == ranked@[i];
        }
        let pair = |pr: (Point, isize)| pair_score(pr);
        assert(full.map_values(pair) == ranked_moves(*state, ai_player));
        assert forall|i: int| 0 <= i < ranked@.len() implies #[trigger] ranked@.map_values(pair)[i]
            == ranked_moves(*state, ai_player).take(ranked@.len() as int)[i] by {
            assert(ranked@.map_values(pair)[i] == pair_score(ranked@[i]));
            assert(full.map_values(pair)[i] == pair_score(full[i]));
        }
        assert(ranked@.map_values(pair) =~= ranked_moves(*state, ai_player).take(
            ranked@.len() as int,
        ));
    }
    if rec == 0 {
        return ranked;
    }
    let mut out: Vec<(Point, isize)> = Vec::new();
    let mut i: usize = 0;
    while i < ranked.len()
        invariant
            state.wf(),
            1 <= rec <= 10,
            i <= ranked@.len(),
            out@.len() == i,
            forall|k: int|
                0 <= k < ranked@.len() ==> spec_count_flips(
                    *state,
                    (#[trigger] ranked@[k]).0.x as int,
                    ranked@[k].0.y as int,
                    ai_player,
                ) > 0,
            forall|k: int|
                0 <= k < out@.len() ==> spec_count_flips(
                    *state,
                    (#[trigger] out@[k]).0.x as int,
                    out@[k].0.y as int,
                    ai_player,
                ) > 0,
        decreases ranked@.len() - i,
    {
        let init_play = ranked[i].0;
        let init_score = ranked[i].1;
        let after_ai = play_move(state, init_play, ai_player);
        let human_plays = predict_rec(&after_ai, ai_player.flip(), 0, 1);
        let mut after_human = after_ai.clone();
        if human_plays.len() > 0 {
            let hp = human_plays[0].0;
            proof {
                lemma_count_flips_frame(
                    after_human,
                    after_ai,
                    hp.x as int,
                    hp.y as int,
                    ai_player.spec_flip(),
                );
            }
            after_human = play_move(&after_human, hp, ai_player.flip());
        }
        let deeper = predict_rec(&after_human, ai_player, rec - 1, 2);
        let next_ai_score: isize = if deeper.len() > 0 {
            let dp = deeper[0].0;
            let dscore = deeper[0].1;
            let dboard = play_move(&after_human, dp, ai_player);
            let sc = eval(&dboard, ai_player);
            sat_add(sc, dscore)
        } else {
            eval(&after_human, ai_player)
        };
        let total = sat_add(init_score, next_ai_score);
        out.push((init_play, total));
        i += 1;
    }
    let out_sorted = sort_desc(out);
    proof {
        assert forall|k: int|
            0 <= k < out_sorted@.len() implies spec_count_flips(
            *state,
            (#[trigger] out_sorted@[k]).0.x as int,
            out_sorted@[k].0.y as int,
            ai_player,
        ) > 0 by {
            assert(out@.contains(out_sorted@[k]));
            let j = choose|j: int| 0 <= j < out@.len() && #[trigger] out@[j] == out_sorted@[k];
        }
    }
    out_sorted
}

/// The best point for `ai_player` to play, or nothing exactly when no
/// legal move exists: without look-ahead it is the head of
/// [`ranked_moves`], the candidate whose immediate evaluation ranks
/// first. Larger `rec` and `width_lim` search deeper and wider; `rec`
/// is capped at ten as a resource bound, and at least one candidate
/// must be kept per layer.
pub fn predict(state: &Board, ai_player: Piece, rec: usize, width_lim: usize) -> (r: Option<Point>)
    requires
        state.wf(),
        rec <= 10,
        width_lim >= 1,
    ensures
        r is Some <==> spec_placeable(*state, ai_player, state.size as int).len() > 0,
        r matches Some(p) ==> p.x < state.size && p.y < state.size && spec_count_flips(
            *state,
            p.x as int,
            p.y as int,
            ai_player,
        ) > 0,
        rec == 0 ==> (r matches Some(p) ==> p == ranked_moves(*state, ai_player)[0].0),
    {
        let ranked = predict_rec(state, ai_player, rec, width_lim);
        if ranked.len() > 0 {
            proof {
                if rec == 0 {
                    let pm = spec_placeable(*state, ai_player, state.size as int);
                    lemma_spec_rank_len(
                        scored_moves(*state, ai_player, pm.len() as int),
                        pm.len() as int,
                    );
                    let pair = |pr: (Point, isize)| pair_score(pr);
                    assert(ranked@.map_values(pair)[0] == ranked_moves(*state, ai_player).take(
                        ranked@.len() as int,
                    )[0]);
                    assert(ranked_moves(*state, ai_player).take(ranked@.len() as int)[0]
                        == ranked_moves(*state, ai_player)[0]);
                    assert(ranked@.map_values(pair)[0] == pair_score(ranked@[0]));
                }
            }
            Some(ranked[0].0)
        } else {
            None
        }
    }

} // verus!
