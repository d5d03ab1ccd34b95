//! The tactical verifier: a board evaluator and a depth-limited minimax
//! search with alpha-beta pruning that ranks a handful of candidate shots.

use vstd::prelude::*;
use crate::grid::{Board, CellState, Grid, Position};
use crate::grid::{copy_board, board_width, set_cell};
use crate::grid::{grid_of, height, in_grid, put, well_formed, width};
use crate::grid::{lemma_put_back, lemma_put_shape};
use crate::summation::{grid_sum, row_sum};
use crate::summation::{lemma_grid_sum_bounds, lemma_grid_sum_point, lemma_grid_sum_zero, lemma_row_sum_bounds};

verus! {

/// The cell at column `x`, row `y` lies on the grid and is a `Hit`.
pub open spec fn is_hit(g: Grid, x: int, y: int) -> bool {
    in_grid(g, x, y) && g[y][x] == CellState::Hit
}

/// What one cell adds to the evaluation: 10 for a `Hit`, and 100 more for
/// each `Hit` directly to its right or directly below it.
pub open spec fn cell_score(g: Grid, x: int, y: int) -> int {
    if g[y][x] == CellState::Hit {
        10 + (if is_hit(g, x + 1, y) { 100int } else { 0 })
           + (if is_hit(g, x, y + 1) { 100int } else { 0 })
    } else {
        0
    }
}

/// `cell_score` as a function of the cell alone.
pub open spec fn score_fn(g: Grid) -> spec_fn(int, int) -> int {
    |x: int, y: int| cell_score(g, x, y)
}

/// The evaluation of a grid: 10 for every `Hit` and 100 for every pair of
/// `Hit`s that are horizontal or vertical neighbours.
pub open spec fn evaluation(g: Grid) -> int {
    grid_sum(score_fn(g), width(g), height(g))
}

proof fn lemma_row_score_bounds(g: Grid, y: int, n: int)
    requires
        n >= 0,
    ensures
        0 <= row_sum(score_fn(g), y, n) <= 210 * n,
{
    lemma_row_sum_bounds(score_fn(g), y, n, 210);
}

proof fn lemma_rows_score_bounds(g: Grid, m: int)
    requires
        m >= 0,
        0 <= width(g) <= 255,
    ensures
        0 <= grid_sum(score_fn(g), width(g), m) <= 53550 * m,
{
    assert forall|y: int| 0 <= y < m implies 0 <= #[trigger] row_sum(score_fn(g), y, width(g))
        <= 53550 by {
        lemma_row_score_bounds(g, y, width(g));
    }
    lemma_grid_sum_bounds(score_fn(g), width(g), m, 53550);
}

/// Scores a board for the searching side: 10 for every `Hit`, 100 for every
/// pair of adjacent `Hit`s.
pub fn evaluate_board(board: &Board) -> (score: i32)
    requires
        well_formed(grid_of(*board)),
    ensures
        score == evaluation(grid_of(*board)),
{
    let ghost g = grid_of(*board);
    let h: usize = board.len();
    let w: usize = board_width(board);
    let mut score: i32 = 0;
    let mut y: usize = 0;
    while y < h
        invariant
            g == grid_of(*board),
            well_formed(g),
            h == height(g),
            w == width(g),
            y <= h,
            score == grid_sum(score_fn(g), w as int, y as int),
            0 <= score <= 53550 * y,
        decreases h - y,
    {
        let ghost before = score as int;
        let mut x: usize = 0;
        while x < w
            invariant
                g == grid_of(*board),
                well_formed(g),
                h == height(g),
                w == width(g),
                y < h,
                x <= w,
                0 <= before <= 53550 * y,
                score == before + row_sum(score_fn(g), y as int, x as int),
                0 <= row_sum(score_fn(g), y as int, x as int) <= 210 * x,
            decreases w - x,
        {
            proof {
                assert(g[y as int].len() == w);
                if y + 1 < h {
                    assert(g[y + 1].len() == w);
                }
                lemma_row_score_bounds(g, y as int, x + 1);
                lemma_rows_score_bounds(g, y + 1);
            }
            if board[y][x] == CellState::Hit {
                score += 10;
                if x + 1 < w && board[y][x + 1] == CellState::Hit {
                    score += 100;
                }
                if y + 1 < h && board[y + 1][x] == CellState::Hit {
                    score += 100;
                }
            }
            x += 1;
        }
        y += 1;
    }
    score
}

/// How many of the four neighbours of a cell are `Hit`s.
pub open spec fn hit_neighbours(g: Grid, x: int, y: int) -> int {
    (if is_hit(g, x - 1, y) { 1int } else { 0 }) + (if is_hit(g, x + 1, y) { 1int } else { 0 })
        + (if is_hit(g, x, y - 1) { 1int } else { 0 }) + (if is_hit(g, x, y + 1) { 1int } else { 0 })
}

/// No cell of the grid is a `Hit` except the listed ones.
pub open spec fn hits_are(g: Grid, cells: Set<(int, int)>) -> bool {
    forall|x: int, y: int| in_grid(g, x, y) ==> (g[y][x] == CellState::Hit <==> cells.contains((x, y)))
}

/// Marking a cell that is not yet a `Hit` raises the evaluation by 10, and by
/// 100 for each `Hit` among its four neighbours.
pub proof fn lemma_evaluation_gain(g: Grid, x: int, y: int)
    requires
        well_formed(g),
        in_grid(g, x, y),
        g[y][x] != CellState::Hit,
    ensures
        evaluation(put(g, x, y, CellState::Hit)) == evaluation(g) + 10 + 100 * hit_neighbours(
            g,
            x,
            y,
        ),
{
    let g3 = put(g, x, y, CellState::Hit);
    lemma_put_shape(g, x, y, CellState::Hit);
    let w = width(g);
    let h = height(g);
    let f0 = score_fn(g);
    let f3 = score_fn(g3);
    let f1 = |cx: int, cy: int| if cx == x && cy == y { f3(cx, cy) } else { f0(cx, cy) };
    let f2 = |cx: int, cy: int| if cx == x - 1 && cy == y { f3(cx, cy) } else { f1(cx, cy) };
    let f4 = |cx: int, cy: int| if cx == x && cy == y - 1 { f3(cx, cy) } else { f2(cx, cy) };
    assert forall|cx: int, cy: int| in_grid(g, cx, cy) implies g3[cy][cx] == (if cx == x && cy == y {
        CellState::Hit
    } else {
        g[cy][cx]
    }) by {
        assert(g[cy].len() == w);
        assert(g[y].len() == w);
    }
    lemma_grid_sum_point(f0, f1, w, h, x, y);
    lemma_grid_sum_point(f1, f2, w, h, x - 1, y);
    lemma_grid_sum_point(f2, f4, w, h, x, y - 1);
    assert forall|cx: int, cy: int| 0 <= cx < w && 0 <= cy < h implies #[trigger] f3(cx, cy) == f4(
        cx,
        cy,
    ) by {
        assert(in_grid(g, cx, cy));
        if in_grid(g, cx + 1, cy) {
            assert(g3[cy][cx + 1] == (if cx + 1 == x && cy == y {
                CellState::Hit
            } else {
                g[cy][cx + 1]
            }));
        }
        if in_grid(g, cx, cy + 1) {
            assert(g3[cy + 1][cx] == (if cx == x && cy + 1 == y {
                CellState::Hit
            } else {
                g[cy + 1][cx]
            }));
        }
    }
    lemma_grid_sum_point(f4, f3, w, h, -1, -1);
    assert(f1(x, y) - f0(x, y) == 10 + (if is_hit(g, x + 1, y) { 100int } else { 0 }) + (if is_hit(
        g,
        x,
        y + 1,
    ) { 100int } else { 0 })) by {
        if in_grid(g, x + 1, y) {
            assert(g3[y][x + 1] == g[y][x + 1]);
        }
        if in_grid(g, x, y + 1) {
            assert(g3[y + 1][x] == g[y + 1][x]);
        }
    }
    if in_grid(g, x - 1, y) {
        assert(g3[y][x - 1] == g[y][x - 1]);
        assert(g3[y][x] == CellState::Hit);
        if in_grid(g, x - 1, y + 1) {
            assert(g3[y + 1][x - 1] == g[y + 1][x - 1]);
        }
        assert(f2(x - 1, y) - f1(x - 1, y) == (if is_hit(g, x - 1, y) { 100int } else { 0 }));
    }
    if in_grid(g, x, y - 1) {
        assert(g3[y - 1][x] == g[y - 1][x]);
        assert(g3[y][x] == CellState::Hit);
        if in_grid(g, x + 1, y - 1) {
            assert(g3[y - 1][x + 1] == g[y - 1][x + 1]);
        }
        assert(f4(x, y - 1) - f2(x, y - 1) == (if is_hit(g, x, y - 1) { 100int } else { 0 }));
    }
}

/// Of two shots that both hit, the one next to a `Hit` leaves a board of a
/// higher evaluation than the one with no `Hit` around it.
pub proof fn lemma_extending_beats_isolated(g: Grid, a: (int, int), b: (int, int))
    requires
        well_formed(g),
        in_grid(g, a.0, a.1),
        in_grid(g, b.0, b.1),
        g[a.1][a.0] != CellState::Hit,
        g[b.1][b.0] != CellState::Hit,
        hit_neighbours(g, a.0, a.1) >= 1,
        hit_neighbours(g, b.0, b.1) == 0,
    ensures
        evaluation(put(g, a.0, a.1, CellState::Hit)) >= evaluation(put(g, b.0, b.1, CellState::Hit))
            + 100,
{
    lemma_evaluation_gain(g, a.0, a.1);
    lemma_evaluation_gain(g, b.0, b.1);
}

/// A grid without a `Hit` evaluates to 0.
pub proof fn lemma_evaluation_without_hit(g: Grid)
    requires
        well_formed(g),
        hits_are(g, Set::empty()),
    ensures
        evaluation(g) == 0,
{
    assert forall|x: int, y: int| 0 <= x < width(g) && 0 <= y < height(g) implies #[trigger] score_fn(
        g,
    )(x, y) == 0 by {
        assert(in_grid(g, x, y));
    }
    lemma_grid_sum_zero(score_fn(g), width(g), height(g));
}

/// A grid with a single `Hit` evaluates to exactly 10.
pub proof fn lemma_evaluation_single_hit(g: Grid, a: (int, int))
    requires
        well_formed(g),
        in_grid(g, a.0, a.1),
        hits_are(g, set![a]),
    ensures
        evaluation(g) == 10,
{
    let g0 = put(g, a.0, a.1, CellState::Empty);
    lemma_put_shape(g, a.0, a.1, CellState::Empty);
    assert forall|x: int, y: int| in_grid(g0, x, y) implies (g0[y][x] == CellState::Hit
        <==> Set::<(int, int)>::empty().contains((x, y))) by {
        assert(in_grid(g, x, y));
        assert(g[y].len() == width(g));
        assert(g[a.1].len() == width(g));
        assert(set![a].contains((x, y)) <==> (x, y) == a);
    }
    lemma_evaluation_without_hit(g0);
    lemma_evaluation_gain(g0, a.0, a.1);
    assert(set![a].contains(a));
    assert(g[a.1][a.0] == CellState::Hit);
    assert(g[a.1].len() == width(g));
    assert(put(g0, a.0, a.1, CellState::Hit)[a.1] =~= g[a.1]);
    assert(put(g0, a.0, a.1, CellState::Hit) =~= g);
    assert(hit_neighbours(g0, a.0, a.1) == 0) by {
        assert(forall|x: int, y: int| in_grid(g0, x, y) ==> g0[y][x] != CellState::Hit);
    }
}

/// A grid with exactly two `Hit`s evaluates to 120 where they are horizontal
/// or vertical neighbours, and to 20 where they are not (a diagonal pair, or
/// two cells further apart).
pub proof fn lemma_evaluation_two_hits(g: Grid, a: (int, int), b: (int, int))
    requires
        well_formed(g),
        in_grid(g, a.0, a.1),
        in_grid(g, b.0, b.1),
        a != b,
        hits_are(g, set![a, b]),
    ensures
        evaluation(g) == if (a.0 == b.0 && (a.1 - b.1 == 1 || b.1 - a.1 == 1)) || (a.1 == b.1 && (a.0
            - b.0 == 1 || b.0 - a.0 == 1)) {
            120int
        } else {
            20int
        },
{
    let g1 = put(g, b.0, b.1, CellState::Empty);
    lemma_put_shape(g, b.0, b.1, CellState::Empty);
    assert forall|x: int, y: int| in_grid(g1, x, y) implies (g1[y][x] == CellState::Hit
        <==> set![a].contains((x, y))) by {
        assert(in_grid(g, x, y));
        assert(g[y].len() == width(g));
        assert(g[b.1].len() == width(g));
        assert(set![a, b].contains((x, y)) <==> ((x, y) == a || (x, y) == b));
        assert(set![a].contains((x, y)) <==> (x, y) == a);
    }
    lemma_evaluation_single_hit(g1, a);
    lemma_evaluation_gain(g1, b.0, b.1);
    assert(set![a, b].contains(b));
    assert(g[b.1][b.0] == CellState::Hit);
    assert(g[b.1].len() == width(g));
    assert(put(g1, b.0, b.1, CellState::Hit)[b.1] =~= g[b.1]);
    assert(put(g1, b.0, b.1, CellState::Hit) =~= g);
    assert forall|x: int, y: int| #![trigger is_hit(g1, x, y)] is_hit(g1, x, y) <==> (x, y) == a by {
        if in_grid(g1, x, y) {
            assert(g1[y][x] == CellState::Hit <==> set![a].contains((x, y)));
            assert(set![a].contains((x, y)) <==> (x, y) == a);
        }
        if (x, y) == a {
            assert(set![a].contains(a));
        }
    }
}

/// The `Empty` cells among the first `n` cells of row `y`, left to right.
pub open spec fn row_moves(g: Grid, y: int, n: int) -> Seq<Position>
    decreases n,
{
    if n <= 0 {
        Seq::empty()
    } else if g[y][n - 1] == CellState::Empty {
        row_moves(g, y, n - 1).push(Position { x: (n - 1) as u8, y: y as u8 })
    } else {
        row_moves(g, y, n - 1)
    }
}

/// The `Empty` cells of the first `m` rows, row by row.
pub open spec fn moves_upto(g: Grid, m: int) -> Seq<Position>
    decreases m,
{
    if m <= 0 {
        Seq::empty()
    } else {
        moves_upto(g, m - 1) + row_moves(g, m - 1, width(g))
    }
}

/// Every `Empty` cell of the grid, in row-major order.
pub open spec fn possible_moves(g: Grid) -> Seq<Position> {
    moves_upto(g, height(g))
}

/// The possible moves of a row are its `Empty` cells, each of them.
pub proof fn lemma_row_moves(g: Grid, y: int, n: int)
    requires
        well_formed(g),
        0 <= y < height(g),
        0 <= n <= width(g),
    ensures
        row_moves(g, y, n).len() <= n,
        forall|i: int|
            0 <= i < row_moves(g, y, n).len() ==> {
                let p = #[trigger] row_moves(g, y, n)[i];
                p.y == y && p.x < n && g[y][p.x as int] == CellState::Empty
            },
        forall|x: int|
            0 <= x < n && g[y][x] == CellState::Empty ==> row_moves(g, y, n).contains(
                Position { x: x as u8, y: y as u8 },
            ),
    decreases n,
{
    if n > 0 {
        lemma_row_moves(g, y, n - 1);
        let prev = row_moves(g, y, n - 1);
        let cur = row_moves(g, y, n);
        assert forall|x: int| 0 <= x < n && g[y][x] == CellState::Empty implies cur.contains(
            Position { x: x as u8, y: y as u8 },
        ) by {
            let p = Position { x: x as u8, y: y as u8 };
            if x < n - 1 {
                let i = choose|i: int| 0 <= i < prev.len() && prev[i] == p;
                assert(cur[i] == p);
            } else {
                assert(cur[cur.len() - 1] == p);
            }
        }
    }
}

/// Every possible move is an `Empty` cell of the grid, and every `Empty` cell
/// of the grid is a possible move.
pub proof fn lemma_moves_upto(g: Grid, m: int)
    requires
        well_formed(g),
        0 <= m <= height(g),
    ensures
        moves_upto(g, m).len() <= 255 * m,
        forall|i: int|
            0 <= i < moves_upto(g, m).len() ==> {
                let p = #[trigger] moves_upto(g, m)[i];
                p.y < m && in_grid(g, p.x as int, p.y as int) && g[p.y as int][p.x as int]
                    == CellState::Empty
            },
        forall|x: int, y: int|
            0 <= x < width(g) && 0 <= y < m && g[y][x] == CellState::Empty ==> moves_upto(
                g,
                m,
            ).contains(Position { x: x as u8, y: y as u8 }),
    decreases m,
{
    if m > 0 {
        lemma_moves_upto(g, m - 1);
        lemma_row_moves(g, m - 1, width(g));
        let prev = moves_upto(g, m - 1);
        let row = row_moves(g, m - 1, width(g));
        let cur = moves_upto(g, m);
        assert forall|x: int, y: int|
            0 <= x < width(g) && 0 <= y < m && g[y][x] == CellState::Empty implies cur.contains(
            Position { x: x as u8, y: y as u8 },
        ) by {
            let p = Position { x: x as u8, y: y as u8 };
            if y < m - 1 {
                let i = choose|i: int| 0 <= i < prev.len() && prev[i] == p;
                assert(cur[i] == p);
            } else {
                let i = choose|i: int| 0 <= i < row.len() && row[i] == p;
                assert(cur[prev.len() + i] == p);
            }
        }
    }
}

/// Lists the cells that can still be shot at: the `Empty` ones, row by row.
pub fn get_possible_moves(board: &Board) -> (moves: Vec<Position>)
    requires
        well_formed(grid_of(*board)),
    ensures
        moves@ == possible_moves(grid_of(*board)),
{
    let ghost g = grid_of(*board);
    let h: usize = board.len();
    let w: usize = board_width(board);
    let mut moves: Vec<Position> = Vec::new();
    let mut y: usize = 0;
    while y < h
        invariant
            g == grid_of(*board),
            well_formed(g),
            h == height(g),
            w == width(g),
            y <= h,
            moves@ == moves_upto(g, y as int),
        decreases h - y,
    {
        let ghost before = moves@;
        let mut x: usize = 0;
        while x < w
            invariant
                g == grid_of(*board),
                well_formed(g),
                h == height(g),
                w == width(g),
                y < h,
                x <= w,
                moves@ == before + row_moves(g, y as int, x as int),
            decreases w - x,
        {
            proof {
                assert(g[y as int].len() == w);
            }
            if board[y][x] == CellState::Empty {
                moves.push(Position { x: x as u8, y: y as u8 });
                proof {
                    assert(moves@ =~= before + row_moves(g, y as int, x + 1));
                }
            }
            x += 1;
        }
        y += 1;
    }
    moves
}

/// The grid after the side to move has tried the cell `p`: the maximizer
/// marks it `Hit`, the minimizer marks it `Miss`.
pub open spec fn child(g: Grid, p: Position, maximizing: bool) -> Grid {
    put(
        g,
        p.x as int,
        p.y as int,
        if maximizing {
            CellState::Hit
        } else {
            CellState::Miss
        },
    )
}

/// The minimax value of a grid searched `depth` plies deep. A side that has
/// no cell left to try gets the worst value there is for it.
pub open spec fn minimax(g: Grid, depth: nat, maximizing: bool) -> int
    decreases depth, 0nat,
{
    if depth == 0 {
        evaluation(g)
    } else {
        best_reply(
            g,
            (depth - 1) as nat,
            maximizing,
            possible_moves(g),
            possible_moves(g).len(),
        )
    }
}

/// The best value, for the side to move, among the first `k` of `moves`,
/// each searched `depth` plies deep for the other side.
pub open spec fn best_reply(
    g: Grid,
    depth: nat,
    maximizing: bool,
    moves: Seq<Position>,
    k: nat,
) -> int
    decreases depth, 1 + k,
{
    if k == 0 {
        if maximizing {
            i32::MIN as int
        } else {
            i32::MAX as int
        }
    } else {
        let rest = best_reply(g, depth, maximizing, moves, (k - 1) as nat);
        let v = minimax(child(g, moves[k - 1], maximizing), depth, !maximizing);
        if maximizing {
            if v > rest {
                v
            } else {
                rest
            }
        } else {
            if v < rest {
                v
            } else {
                rest
            }
        }
    }
}

/// What a fail-soft alpha-beta search with the window `(alpha, beta)` tells
/// about the true minimax value `exact` when it returns `value`.
pub open spec fn within_window(value: int, alpha: int, beta: int, exact: int) -> bool {
    &&& value <= alpha ==> exact <= value
    &&& alpha < value < beta ==> exact == value
    &&& value >= beta ==> exact >= value
}

proof fn lemma_evaluation_bounds(g: Grid)
    requires
        well_formed(g),
    ensures
        0 <= evaluation(g) <= 13655250,
{
    lemma_rows_score_bounds(g, height(g));
}

/// The minimax value always fits the machine integers the search works in.
pub proof fn lemma_minimax_range(g: Grid, depth: nat, maximizing: bool)
    requires
        well_formed(g),
    ensures
        i32::MIN <= minimax(g, depth, maximizing) <= i32::MAX,
    decreases depth, 0nat,
{
    if depth == 0 {
        lemma_evaluation_bounds(g);
    } else {
        lemma_moves_upto(g, height(g));
        lemma_best_reply_range(
            g,
            (depth - 1) as nat,
            maximizing,
            possible_moves(g),
            possible_moves(g).len(),
        );
    }
}

proof fn lemma_best_reply_range(
    g: Grid,
    depth: nat,
    maximizing: bool,
    moves: Seq<Position>,
    k: nat,
)
    requires
        well_formed(g),
        k <= moves.len(),
        forall|i: int| 0 <= i < moves.len() ==> in_grid(g, (#[trigger] moves[i]).x as int, moves[i].y as int),
    ensures
        i32::MIN <= best_reply(g, depth, maximizing, moves, k) <= i32::MAX,
    decreases depth, 1 + k,
{
    if k > 0 {
        lemma_best_reply_range(g, depth, maximizing, moves, (k - 1) as nat);
        let p = moves[k - 1];
        lemma_put_shape(
            g,
            p.x as int,
            p.y as int,
            if maximizing {
                CellState::Hit
            } else {
                CellState::Miss
            },
        );
        lemma_minimax_range(child(g, p, maximizing), depth, !maximizing);
    }
}

/// For the maximizer the best reply never falls as more moves are taken in,
/// for the minimizer it never rises.
proof fn lemma_best_reply_monotone(
    g: Grid,
    depth: nat,
    maximizing: bool,
    moves: Seq<Position>,
    j: nat,
    k: nat,
)
    requires
        j <= k,
    ensures
        maximizing ==> best_reply(g, depth, maximizing, moves, j) <= best_reply(
            g,
            depth,
            maximizing,
            moves,
            k,
        ),
        !maximizing ==> best_reply(g, depth, maximizing, moves, j) >= best_reply(
            g,
            depth,
            maximizing,
            moves,
            k,
        ),
    decreases k - j,
{
    if j < k {
        lemma_best_reply_monotone(g, depth, maximizing, moves, j, (k - 1) as nat);
    }
}

/// Searches `depth` plies below `board` with the window `(alpha, beta)`.
///
/// The board is used as scratch space and handed back as it was. With
/// `alpha < beta` the value is exact inside the window and a bound on the
/// minimax value outside it.
pub fn alpha_beta(
    board: &mut Board,
    depth: u32,
    alpha: i32,
    beta: i32,
    is_maximizing_player: bool,
) -> (value: i32)
    requires
        well_formed(grid_of(*old(board))),
    ensures
        grid_of(*final(board)) == grid_of(*old(board)),
        alpha < beta ==> within_window(
            value as int,
            alpha as int,
            beta as int,
            minimax(grid_of(*old(board)), depth as nat, is_maximizing_player),
        ),
    decreases depth,
{
    if depth == 0 {
        return evaluate_board(board);
    }
    let ghost g = grid_of(*board);
    let ghost d = (depth - 1) as nat;
    let moves = get_possible_moves(board);
    proof {
        lemma_moves_upto(g, height(g));
    }
    let mut k: usize = 0;
    let mut cut: bool = false;
    if is_maximizing_player {
        let mut best: i32 = i32::MIN;
        let mut low: i32 = alpha;
        while k < moves.len() && !cut
            invariant
                grid_of(*board) == g,
                well_formed(g),
                depth > 0,
                d == depth - 1,
                moves@ == possible_moves(g),
                forall|i: int|
                    0 <= i < moves@.len() ==> in_grid(
                        g,
                        (#[trigger] moves@[i]).x as int,
                        moves@[i].y as int,
                    ) && g[moves@[i].y as int][moves@[i].x as int] == CellState::Empty,
                k <= moves@.len(),
                alpha < beta ==> {
                    &&& cut ==> best >= beta && minimax(g, depth as nat, true) >= best
                    &&& !cut ==> {
                        &&& alpha <= low < beta
                        &&& low >= best
                        &&& best < beta
                        &&& best <= alpha ==> best_reply(g, d, true, moves@, k as nat) <= best
                            && low == alpha
                        &&& best > alpha ==> best_reply(g, d, true, moves@, k as nat) == best
                            && low == best
                    }
                },
            decreases moves@.len() - k + (if cut { 0int } else { 1 }),
        {
            let mv = moves[k];
            set_cell(board, mv.x as usize, mv.y as usize, CellState::Hit);
            let eval = alpha_beta(board, depth - 1, low, beta, false);
            set_cell(board, mv.x as usize, mv.y as usize, CellState::Empty);
            proof {
                lemma_put_back(g, mv.x as int, mv.y as int, CellState::Hit);
                if alpha < beta {
                    let exact = minimax(child(g, mv, true), d, false);
                    let before = best_reply(g, d, true, moves@, k as nat);
                    let after = best_reply(g, d, true, moves@, (k + 1) as nat);
                    assert(within_window(eval as int, low as int, beta as int, exact));
                    assert(after == if exact > before { exact } else { before });
                    assert(minimax(g, depth as nat, true) == best_reply(
                        g,
                        d,
                        true,
                        moves@,
                        moves@.len(),
                    ));
                    lemma_best_reply_monotone(
                        g,
                        d,
                        true,
                        moves@,
                        (k + 1) as nat,
                        moves@.len(),
                    );
                }
            }
            if eval > best {
                best = eval;
            }
            if eval > low {
                low = eval;
            }
            if beta <= low {
                cut = true;
            }
            k += 1;
        }
        best
    } else {
        let mut best: i32 = i32::MAX;
        let mut high: i32 = beta;
        while k < moves.len() && !cut
            invariant
                grid_of(*board) == g,
                well_formed(g),
                depth > 0,
                d == depth - 1,
                moves@ == possible_moves(g),
                forall|i: int|
                    0 <= i < moves@.len() ==> in_grid(
                        g,
                        (#[trigger] moves@[i]).x as int,
                        moves@[i].y as int,
                    ) && g[moves@[i].y as int][moves@[i].x as int] == CellState::Empty,
                k <= moves@.len(),
                alpha < beta ==> {
                    &&& cut ==> best <= alpha && minimax(g, depth as nat, false) <= best
                    &&& !cut ==> {
                        &&& alpha < high <= beta
                        &&& high <= best
                        &&& best > alpha
                        &&& best >= beta ==> best_reply(g, d, false, moves@, k as nat) >= best
                            && high == beta
                        &&& best < beta ==> best_reply(g, d, false, moves@, k as nat) == best
                            && high == best
                    }
                },
            decreases moves@.len() - k + (if cut { 0int } else { 1 }),
        {
            let mv = moves[k];
            set_cell(board, mv.x as usize, mv.y as usize, CellState::Miss);
            let eval = alpha_beta(board, depth - 1, alpha, high, true);
            set_cell(board, mv.x as usize, mv.y as usize, CellState::Empty);
            proof {
                lemma_put_back(g, mv.x as int, mv.y as int, CellState::Miss);
                if alpha < beta {
                    let exact = minimax(child(g, mv, false), d, true);
                    let before = best_reply(g, d, false, moves@, k as nat);
                    let after = best_reply(g, d, false, moves@, (k + 1) as nat);
                    assert(within_window(eval as int, alpha as int, high as int, exact));
                    assert(after == if exact < before { exact } else { before });
                    assert(minimax(g, depth as nat, false) == best_reply(
                        g,
                        d,
                        false,
                        moves@,
                        moves@.len(),
                    ));
                    lemma_best_reply_monotone(
                        g,
                        d,
                        false,
                        moves@,
                        (k + 1) as nat,
                        moves@.len(),
                    );
                }
            }
            if eval < best {
                best = eval;
            }
            if eval < high {
                high = eval;
            }
            if high <= alpha {
                cut = true;
            }
            k += 1;
        }
        best
    }
}

/// How deep the verifier searches when `empty` cells are still unknown: two
/// plies on an open board, three once at most twenty cells are left.
pub open spec fn depth_for(empty: int) -> nat {
    if empty > 20 {
        2
    } else {
        3
    }
}

/// The search depth for a board with `empty_cells` cells still `Empty`.
pub fn search_depth(empty_cells: usize) -> (depth: u32)
    ensures
        depth == depth_for(empty_cells as int),
{
    if empty_cells > 20 {
        2
    } else {
        3
    }
}

/// The value of shooting at `c`: the cell is marked `Hit`, and the minimizer
/// moves next, at the depth that the number of `Empty` cells of `g` gives.
pub open spec fn candidate_value(g: Grid, c: (u8, u8)) -> int {
    minimax(
        put(g, c.0 as int, c.1 as int, CellState::Hit),
        depth_for(possible_moves(g).len() as int),
        false,
    )
}

/// The index, among the first `k` candidates, of the first one whose value
/// no other reaches.
pub open spec fn first_best(g: Grid, moves: Seq<(u8, u8)>, k: nat) -> int
    decreases k,
{
    if k <= 1 {
        0
    } else {
        let j = first_best(g, moves, (k - 1) as nat);
        if candidate_value(g, moves[k - 1]) > candidate_value(g, moves[j]) {
            k - 1
        } else {
            j
        }
    }
}

/// `first_best` picks a candidate of the highest value, and the earliest of
/// those.
pub proof fn lemma_first_best(g: Grid, moves: Seq<(u8, u8)>, k: nat)
    requires
        1 <= k <= moves.len(),
    ensures
        0 <= first_best(g, moves, k) < k,
        forall|j: int|
            0 <= j < k ==> candidate_value(g, #[trigger] moves[j]) <= candidate_value(
                g,
                moves[first_best(g, moves, k)],
            ),
        forall|j: int|
            0 <= j < first_best(g, moves, k) ==> candidate_value(g, #[trigger] moves[j])
                < candidate_value(g, moves[first_best(g, moves, k)]),
    decreases k,
{
    if k > 1 {
        lemma_first_best(g, moves, (k - 1) as nat);
    }
}

/// Ranks candidate shots by a shallow search and returns the best one.
///
/// Each candidate is tried as a `Hit` on a copy of the board and searched
/// with the minimizer to move. The candidate of the highest value wins, the
/// earlier one among equals. Without candidates the result is `(0, 0)`.
pub fn verify_best_moves(board: &Board, moves: &[(u8, u8)]) -> (best: (u8, u8))
    requires
        well_formed(grid_of(*board)),
        forall|i: int|
            0 <= i < moves@.len() ==> in_grid(
                grid_of(*board),
                (#[trigger] moves@[i]).0 as int,
                moves@[i].1 as int,
            ),
    ensures
        moves@.len() == 0 ==> best == (0u8, 0u8),
        moves@.len() > 0 ==> best == moves@[first_best(grid_of(*board), moves@, moves@.len())],
{
    if moves.len() == 0 {
        return (0, 0);
    }
    let ghost g = grid_of(*board);
    let mut scratch = copy_board(board);
    let empty_cells = get_possible_moves(board);
    let depth: u32 = search_depth(empty_cells.len());
    let mut best_move: (u8, u8) = moves[0];
    let mut best_score: i32 = i32::MIN;
    let mut k: usize = 0;
    while k < moves.len()
        invariant
            g == grid_of(*board),
            grid_of(scratch) == g,
            well_formed(g),
            depth == depth_for(possible_moves(g).len() as int),
            forall|i: int|
                0 <= i < moves@.len() ==> in_grid(
                    g,
                    (#[trigger] moves@[i]).0 as int,
                    moves@[i].1 as int,
                ),
            moves@.len() > 0,
            k <= moves@.len(),
            k == 0 ==> best_score == i32::MIN && best_move == moves@[0],
            k > 0 ==> best_move == moves@[first_best(g, moves@, k as nat)] && best_score
                == candidate_value(g, best_move),
        decreases moves@.len() - k,
    {
        let (x, y) = moves[k];
        proof {
            assert(in_grid(g, moves@[k as int].0 as int, moves@[k as int].1 as int));
            assert(g[y as int].len() == width(g));
        }
        let previous: CellState = scratch[y as usize][x as usize];
        set_cell(&mut scratch, x as usize, y as usize, CellState::Hit);
        let score: i32 = alpha_beta(&mut scratch, depth, i32::MIN, i32::MAX, false);
        set_cell(&mut scratch, x as usize, y as usize, previous);
        proof {
            lemma_put_back(g, x as int, y as int, CellState::Hit);
            lemma_put_shape(g, x as int, y as int, CellState::Hit);
            lemma_minimax_range(put(g, x as int, y as int, CellState::Hit), depth as nat, false);
            assert(score == candidate_value(g, moves@[k as int]));
            if k > 0 {
                lemma_first_best(g, moves@, k as nat);
            }
        }
        if score > best_score {
            best_score = score;
            best_move = (x, y);
        }
        k += 1;
    }
    best_move
}

} // verus!
