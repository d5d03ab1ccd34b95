//! The layout generator: legal fleets, the placement test behind the
//! no-touch rule, and the random placement of a whole fleet.

use vstd::prelude::*;
use rand::rngs::StdRng;
use crate::grid::{Board, CellState, Grid, Occupancy, Position, Ship};
use crate::grid::{board_width, new_board, set_cell};
use crate::grid::{grid_of, height, in_grid, put, rectangular, run_cell, well_formed, width};
use crate::grid::lemma_put_shape;
use crate::random::{draw_below, draw_bool, system_rng};

verus! {

/// A ship of `len` cells from `origin` stays on a grid of `w` columns and
/// `h` rows. A ship without cells fits anywhere.
pub open spec fn fits(origin: Position, horizontal: bool, len: int, w: int, h: int) -> bool {
    len <= 0 || if horizontal {
        origin.x + len <= w && origin.y < h
    } else {
        origin.y + len <= h && origin.x < w
    }
}

/// The cell `(qx, qy)` is the `i`-th cell of the run from `origin` or one of
/// the eight cells around it.
pub open spec fn touches(origin: Position, horizontal: bool, i: int, qx: int, qy: int) -> bool {
    let cx = if horizontal { origin.x + i } else { origin.x as int };
    let cy = if horizontal { origin.y as int } else { origin.y + i };
    cx - 1 <= qx <= cx + 1 && cy - 1 <= qy <= cy + 1
}

/// A ship of `len` cells may be put at `origin`: it fits on the grid, and no
/// cell of the grid that it would cover or touch is taken.
pub open spec fn placeable<C: Occupancy>(
    g: Seq<Seq<C>>,
    len: int,
    origin: Position,
    horizontal: bool,
) -> bool {
    &&& fits(origin, horizontal, len, width(g), height(g))
    &&& forall|i: int, qx: int, qy: int|
        0 <= i < len && in_grid(g, qx, qy) && #[trigger] touches(origin, horizontal, i, qx, qy)
            ==> !g[qy][qx].taken()
}

/// No cell of the grid within one step of `(cx, cy)`, diagonals included, is
/// taken.
spec fn surroundings_free<C: Occupancy>(g: Seq<Seq<C>>, cx: int, cy: int) -> bool {
    forall|qx: int, qy: int|
        in_grid(g, qx, qy) && cx - 1 <= qx <= cx + 1 && cy - 1 <= qy <= cy + 1 ==> !(#[trigger] g[qy][qx]).taken()
}

/// Tests the cell `(cx, cy)` and the cells around it.
fn is_clear<C: Occupancy>(board: &Vec<Vec<C>>, cx: usize, cy: usize) -> (clear: bool)
    requires
        rectangular(grid_of(*board)),
        in_grid(grid_of(*board), cx as int, cy as int),
    ensures
        clear == surroundings_free(grid_of(*board), cx as int, cy as int),
{
    let ghost g = grid_of(*board);
    let h: usize = board.len();
    let w: usize = board_width(board);
    let y_lo: usize = if cy > 0 { cy - 1 } else { cy };
    let y_hi: usize = if cy + 1 < h { cy + 1 } else { cy };
    let x_lo: usize = if cx > 0 { cx - 1 } else { cx };
    let x_hi: usize = if cx + 1 < w { cx + 1 } else { cx };
    let mut qy: usize = y_lo;
    while qy <= y_hi
        invariant
            g == grid_of(*board),
            rectangular(g),
            h == height(g),
            w == width(g),
            in_grid(g, cx as int, cy as int),
            y_lo <= qy <= y_hi + 1,
            y_hi < h,
            x_lo <= x_hi < w,
            y_lo == (if cy > 0 { cy - 1 } else { cy as int }),
            y_hi == (if cy + 1 < h { cy + 1 } else { cy as int }),
            x_lo == (if cx > 0 { cx - 1 } else { cx as int }),
            x_hi == (if cx + 1 < w { cx + 1 } else { cx as int }),
            forall|ax: int, ay: int|
                y_lo <= ay < qy && x_lo <= ax <= x_hi ==> !(#[trigger] g[ay][ax]).taken(),
        decreases y_hi + 1 - qy,
    {
        let mut qx: usize = x_lo;
        while qx <= x_hi
            invariant
                g == grid_of(*board),
                rectangular(g),
                h == height(g),
                w == width(g),
                y_lo <= qy <= y_hi,
                y_hi < h,
                x_lo <= qx <= x_hi + 1,
                x_hi < w,
                in_grid(g, cx as int, cy as int),
                y_lo == (if cy > 0 { cy - 1 } else { cy as int }),
                y_hi == (if cy + 1 < h { cy + 1 } else { cy as int }),
                x_lo == (if cx > 0 { cx - 1 } else { cx as int }),
                x_hi == (if cx + 1 < w { cx + 1 } else { cx as int }),
                forall|ax: int, ay: int|
                    y_lo <= ay < qy && x_lo <= ax <= x_hi ==> !(#[trigger] g[ay][ax]).taken(),
                forall|ax: int| x_lo <= ax < qx ==> !(#[trigger] g[qy as int][ax]).taken(),
            decreases x_hi + 1 - qx,
        {
            proof {
                assert(g[qy as int].len() == w);
            }
            if board[qy][qx].is_taken() {
                proof {
                    assert(g[qy as int][qx as int].taken());
                }
                return false;
            }
            qx += 1;
        }
        qy += 1;
    }
    true
}

/// Whether a ship of `ship_length` cells may be put at `pos`, rightward or
/// downward: it has to fit on the board, and every cell it would cover or
/// touch, diagonals included, has to be free.
pub fn can_place_ship<C: Occupancy>(
    board: &Vec<Vec<C>>,
    ship_length: u8,
    pos: Position,
    is_horizontal: bool,
) -> (ok: bool)
    requires
        rectangular(grid_of(*board)),
    ensures
        ok == placeable(grid_of(*board), ship_length as int, pos, is_horizontal),
{
    let ghost g = grid_of(*board);
    let h: usize = board.len();
    let w: usize = board_width(board);
    let x: usize = pos.x as usize;
    let y: usize = pos.y as usize;
    let len: usize = ship_length as usize;
    if len == 0 {
        return true;
    }
    if is_horizontal {
        if x + len > w || y >= h {
            return false;
        }
    } else {
        if y + len > h || x >= w {
            return false;
        }
    }
    let mut i: usize = 0;
    while i < len
        invariant
            g == grid_of(*board),
            rectangular(g),
            h == height(g),
            w == width(g),
            x == pos.x,
            y == pos.y,
            len == ship_length,
            i <= len,
            fits(pos, is_horizontal, len as int, w as int, h as int),
            forall|j: int, qx: int, qy: int|
                0 <= j < i && in_grid(g, qx, qy) && #[trigger] touches(pos, is_horizontal, j, qx, qy)
                    ==> !g[qy][qx].taken(),
        decreases len - i,
    {
        let cx: usize = if is_horizontal { x + i } else { x };
        let cy: usize = if is_horizontal { y } else { y + i };
        if !is_clear(board, cx, cy) {
            proof {
                let (qx, qy) = choose|qx: int, qy: int|
                    in_grid(g, qx, qy) && cx - 1 <= qx <= cx + 1 && cy - 1 <= qy <= cy + 1 && (
                    #[trigger] g[qy][qx]).taken();
                assert(touches(pos, is_horizontal, i as int, qx, qy));
            }
            return false;
        }
        proof {
            assert forall|j: int, qx: int, qy: int|
                0 <= j < i + 1 && in_grid(g, qx, qy) && #[trigger] touches(
                    pos,
                    is_horizontal,
                    j,
                    qx,
                    qy,
                ) implies !g[qy][qx].taken() by {
                if j == i {
                    assert(!(g[qy][qx]).taken());
                }
            }
        }
        i += 1;
    }
    true
}

/// Two cells that coincide or touch, diagonals included: their Chebyshev
/// distance is at most 1.
pub open spec fn near(a: Position, b: Position) -> bool {
    -1 <= a.x - b.x <= 1 && -1 <= a.y - b.y <= 1
}

/// The cell at index `i` continues the straight line that starts at the
/// first cell.
pub open spec fn in_line(cells: Seq<Position>, horizontal: bool, i: int) -> bool {
    &&& (if horizontal {
        cells[0].x + i
    } else {
        cells[0].y + i
    }) <= 255
    &&& cells[i] == run_cell(cells[0], horizontal, i)
}

/// The cells lie on one line, rightward or downward, each one step after
/// the one before.
pub open spec fn lined(cells: Seq<Position>, horizontal: bool) -> bool {
    forall|i: int| 0 <= i < cells.len() ==> #[trigger] in_line(cells, horizontal, i)
}

/// A ship has as many cells as its length says, and they form a straight,
/// contiguous line.
pub open spec fn shaped(ship: Ship) -> bool {
    &&& ship.positions@.len() == ship.length
    &&& (lined(ship.positions@, true) || lined(ship.positions@, false))
}

/// Every cell lies on a grid of `w` columns and `h` rows.
pub open spec fn on_grid(cells: Seq<Position>, w: int, h: int) -> bool {
    forall|i: int| 0 <= i < cells.len() ==> (#[trigger] cells[i]).x < w && cells[i].y < h
}

/// No cell of `a` coincides with or touches a cell of `b`.
pub open spec fn apart(a: Seq<Position>, b: Seq<Position>) -> bool {
    forall|i: int, j: int|
        0 <= i < a.len() && 0 <= j < b.len() ==> !near(#[trigger] a[i], #[trigger] b[j])
}

/// A legal fleet on a grid of `w` columns and `h` rows: every ship is
/// straight and on the grid, and no two ships overlap or touch.
pub open spec fn legal_fleet(ships: Seq<Ship>, w: int, h: int) -> bool {
    &&& forall|i: int|
        0 <= i < ships.len() ==> shaped(#[trigger] ships[i]) && on_grid(ships[i].positions@, w, h)
    &&& forall|i: int, j: int|
        0 <= i < ships.len() && 0 <= j < ships.len() && i != j ==> apart(
            (#[trigger] ships[i]).positions@,
            (#[trigger] ships[j]).positions@,
        )
}

/// The ships have the given lengths, in the given order.
pub open spec fn has_lengths(ships: Seq<Ship>, lengths: Seq<u8>) -> bool {
    &&& ships.len() == lengths.len()
    &&& forall|i: int| 0 <= i < ships.len() ==> (#[trigger] ships[i]).length == lengths[i]
}

/// Some ship of the fleet covers the cell `p`.
pub open spec fn occupied(ships: Seq<Ship>, p: Position) -> bool {
    exists|i: int, j: int|
        0 <= i < ships.len() && 0 <= j < ships[i].positions@.len() && #[trigger] ships[i].positions@[j]
            == p
}

/// The grid shows the fleet and nothing else: `Sunk` where a ship lies,
/// `Empty` everywhere else.
pub open spec fn painted(g: Grid, ships: Seq<Ship>) -> bool {
    forall|x: int, y: int|
        in_grid(g, x, y) ==> #[trigger] g[y][x] == (if occupied(
            ships,
            Position { x: x as u8, y: y as u8 },
        ) {
            CellState::Sunk
        } else {
            CellState::Empty
        })
}

/// The grid is the layout of the fleet: a well-formed grid that shows a
/// legal fleet.
pub open spec fn is_layout(g: Grid, ships: Seq<Ship>) -> bool {
    &&& well_formed(g)
    &&& legal_fleet(ships, width(g), height(g))
    &&& painted(g, ships)
}

/// The cells of a ship of `len` cells from `origin`.
pub open spec fn run_cells(origin: Position, horizontal: bool, len: int) -> Seq<Position> {
    Seq::new(len as nat, |i: int| run_cell(origin, horizontal, i))
}

/// Some cell among the first `k` of a run is the cell `p`.
spec fn on_run(origin: Position, horizontal: bool, k: int, p: Position) -> bool {
    exists|i: int| 0 <= i < k && #[trigger] run_cell(origin, horizontal, i) == p
}

/// The grid while a new ship is being written: the fleet, and the first `k`
/// cells of the run.
spec fn painting(g: Grid, ships: Seq<Ship>, origin: Position, horizontal: bool, k: int) -> bool {
    forall|x: int, y: int|
        in_grid(g, x, y) ==> #[trigger] g[y][x] == (if occupied(
            ships,
            Position { x: x as u8, y: y as u8 },
        ) || on_run(origin, horizontal, k, Position { x: x as u8, y: y as u8 }) {
            CellState::Sunk
        } else {
            CellState::Empty
        })
}

/// A ship that may be placed on the layout of a fleet keeps clear of every
/// ship of that fleet.
proof fn lemma_placeable_apart(
    g: Grid,
    ships: Seq<Ship>,
    len: int,
    origin: Position,
    horizontal: bool,
    k: int,
)
    requires
        is_layout(g, ships),
        placeable(g, len, origin, horizontal),
        0 <= len <= 255,
        0 <= k < ships.len(),
    ensures
        apart(run_cells(origin, horizontal, len), ships[k].positions@),
        apart(ships[k].positions@, run_cells(origin, horizontal, len)),
{
    let cells = run_cells(origin, horizontal, len);
    let other = ships[k].positions@;
    assert forall|i: int, j: int| 0 <= i < cells.len() && 0 <= j < other.len() implies !near(
        #[trigger] cells[i],
        #[trigger] other[j],
    ) by {
        let b = other[j];
        assert(on_grid(other, width(g), height(g)));
        assert(in_grid(g, b.x as int, b.y as int));
        assert(ships[k].positions@[j] == b);
        assert(occupied(ships, b));
        assert(g[b.y as int][b.x as int] == CellState::Sunk);
        if near(cells[i], b) {
            assert(touches(origin, horizontal, i, b.x as int, b.y as int));
        }
    }
    assert forall|j: int, i: int| 0 <= j < other.len() && 0 <= i < cells.len() implies !near(
        #[trigger] other[j],
        #[trigger] cells[i],
    ) by {
        assert(!near(cells[i], other[j]));
    }
}

/// Puts a ship on a layout if the no-touch rule allows it there.
///
/// Where the ship may be placed, its cells become `Sunk` and it joins the
/// fleet as its last ship, numbered by its place in the fleet. Where it may
/// not, nothing changes.
pub fn try_place(
    board: &mut Board,
    ships: &mut Vec<Ship>,
    ship_length: u8,
    pos: Position,
    is_horizontal: bool,
) -> (placed: bool)
    requires
        is_layout(grid_of(*old(board)), old(ships)@),
    ensures
        placed == placeable(grid_of(*old(board)), ship_length as int, pos, is_horizontal),
        is_layout(grid_of(*final(board)), final(ships)@),
        width(grid_of(*final(board))) == width(grid_of(*old(board))),
        height(grid_of(*final(board))) == height(grid_of(*old(board))),
        !placed ==> grid_of(*final(board)) == grid_of(*old(board)) && final(ships)@ == old(ships)@,
        placed ==> {
            &&& final(ships)@.len() == old(ships)@.len() + 1
            &&& forall|i: int| 0 <= i < old(ships)@.len() ==> final(ships)@[i] == old(ships)@[i]
            &&& final(ships)@.last().positions@ == run_cells(pos, is_horizontal, ship_length as int)
            &&& final(ships)@.last().length == ship_length
            &&& final(ships)@.last().id == (old(ships)@.len() % 256) as u8
            &&& final(ships)@.last().hits == 0
        },
{
    let ghost g0 = grid_of(*board);
    let ghost fleet = ships@;
    if !can_place_ship(board, ship_length, pos, is_horizontal) {
        return false;
    }
    let mut positions: Vec<Position> = Vec::new();
    let mut i: u8 = 0;
    while i < ship_length
        invariant
            i <= ship_length,
            well_formed(g0),
            painted(g0, fleet),
            placeable(g0, ship_length as int, pos, is_horizontal),
            well_formed(grid_of(*board)),
            width(grid_of(*board)) == width(g0),
            height(grid_of(*board)) == height(g0),
            painting(grid_of(*board), fleet, pos, is_horizontal, i as int),
            positions@ == run_cells(pos, is_horizontal, i as int),
        decreases ship_length - i,
    {
        let px: u8 = if is_horizontal { pos.x + i } else { pos.x };
        let py: u8 = if is_horizontal { pos.y } else { pos.y + i };
        let ghost g = grid_of(*board);
        let p = Position { x: px, y: py };
        proof {
            assert(p == run_cell(pos, is_horizontal, i as int));
            lemma_put_shape(g, px as int, py as int, CellState::Sunk);
        }
        set_cell(board, px as usize, py as usize, CellState::Sunk);
        positions.push(p);
        proof {
            let g1 = grid_of(*board);
            assert(positions@ =~= run_cells(pos, is_horizontal, i + 1));
            assert forall|x: int, y: int| in_grid(g1, x, y) implies #[trigger] g1[y][x] == (if occupied(
                fleet,
                Position { x: x as u8, y: y as u8 },
            ) || on_run(pos, is_horizontal, i + 1, Position { x: x as u8, y: y as u8 }) {
                CellState::Sunk
            } else {
                CellState::Empty
            }) by {
                let q = Position { x: x as u8, y: y as u8 };
                assert(in_grid(g, x, y));
                assert(g1[y][x] == (if x == px && y == py {
                    CellState::Sunk
                } else {
                    g[y][x]
                }));
                if q == p {
                    assert(run_cell(pos, is_horizontal, i as int) == q);
                } else {
                    if on_run(pos, is_horizontal, i + 1, q) {
                        let j = choose|j: int|
                            0 <= j < i + 1 && #[trigger] run_cell(pos, is_horizontal, j) == q;
                        assert(0 <= j < i);
                    }
                    if on_run(pos, is_horizontal, i as int, q) {
                        let j = choose|j: int|
                            0 <= j < i && #[trigger] run_cell(pos, is_horizontal, j) == q;
                        assert(0 <= j < i + 1);
                    }
                }
            }
        }
        i += 1;
    }
    let id: u8 = (ships.len() % 256) as u8;
    let ship = Ship { id, length: ship_length, positions, hits: 0 };
    ships.push(ship);
    proof {
        let g1 = grid_of(*board);
        let after = ships@;
        let n = fleet.len() as int;
        let cells = run_cells(pos, is_horizontal, ship_length as int);
        assert(after[n].positions@ == cells);
        assert forall|k: int| 0 <= k < cells.len() implies #[trigger] in_line(
            cells,
            is_horizontal,
            k,
        ) by {
            assert(cells[0] == run_cell(pos, is_horizontal, 0));
        }
        assert(lined(cells, is_horizontal));
        assert(on_grid(cells, width(g1), height(g1)));
        assert forall|a: int|
            0 <= a < after.len() implies shaped(#[trigger] after[a]) && on_grid(
            after[a].positions@,
            width(g1),
            height(g1),
        ) by {
            if a < n {
                assert(after[a] == fleet[a]);
            }
        }
        assert forall|a: int, b: int|
            0 <= a < after.len() && 0 <= b < after.len() && a != b implies apart(
            (#[trigger] after[a]).positions@,
            (#[trigger] after[b]).positions@,
        ) by {
            if a < n && b < n {
                assert(after[a] == fleet[a] && after[b] == fleet[b]);
            } else if a < n {
                assert(after[a] == fleet[a]);
                lemma_placeable_apart(g0, fleet, ship_length as int, pos, is_horizontal, a);
            } else {
                assert(after[b] == fleet[b]);
                lemma_placeable_apart(g0, fleet, ship_length as int, pos, is_horizontal, b);
            }
        }
        assert forall|x: int, y: int| in_grid(g1, x, y) implies #[trigger] g1[y][x] == (if occupied(
            after,
            Position { x: x as u8, y: y as u8 },
        ) {
            CellState::Sunk
        } else {
            CellState::Empty
        }) by {
            let q = Position { x: x as u8, y: y as u8 };
            if occupied(fleet, q) {
                let (a, b) = choose|a: int, b: int|
                    0 <= a < fleet.len() && 0 <= b < fleet[a].positions@.len()
                        && #[trigger] fleet[a].positions@[b] == q;
                assert(after[a].positions@[b] == q);
            }
            if on_run(pos, is_horizontal, ship_length as int, q) {
                let j = choose|j: int|
                    0 <= j < ship_length && #[trigger] run_cell(pos, is_horizontal, j) == q;
                assert(after[n].positions@[j] == q);
            }
            if occupied(after, q) {
                let (a, b) = choose|a: int, b: int|
                    0 <= a < after.len() && 0 <= b < after[a].positions@.len()
                        && #[trigger] after[a].positions@[b] == q;
                if a < n {
                    assert(fleet[a].positions@[b] == q);
                } else {
                    assert(run_cell(pos, is_horizontal, b) == q);
                }
            }
        }
    }
    true
}

/// The no-touch rule: two cells of distinct ships of a legal fleet are more
/// than one step apart, in a row, in a column or diagonally.
pub proof fn lemma_fleet_keeps_apart(ships: Seq<Ship>, w: int, h: int, i: int, a: int, j: int, b: int)
    requires
        legal_fleet(ships, w, h),
        0 <= i < ships.len(),
        0 <= j < ships.len(),
        i != j,
        0 <= a < ships[i].positions@.len(),
        0 <= b < ships[j].positions@.len(),
    ensures
        ({
            let p = ships[i].positions@[a];
            let q = ships[j].positions@[b];
            p.x - q.x > 1 || q.x - p.x > 1 || p.y - q.y > 1 || q.y - p.y > 1
        }),
{
    assert(apart(ships[i].positions@, ships[j].positions@));
    assert(!near(ships[i].positions@[a], ships[j].positions@[b]));
}

/// On the layout of a legal fleet, two ship cells that coincide or touch
/// belong to one and the same ship.
pub proof fn lemma_layout_keeps_apart(g: Grid, ships: Seq<Ship>, p: Position, q: Position)
    requires
        is_layout(g, ships),
        in_grid(g, p.x as int, p.y as int),
        in_grid(g, q.x as int, q.y as int),
        g[p.y as int][p.x as int] == CellState::Sunk,
        g[q.y as int][q.x as int] == CellState::Sunk,
        near(p, q),
    ensures
        exists|i: int|
            0 <= i < ships.len() && (#[trigger] ships[i]).positions@.contains(p)
                && ships[i].positions@.contains(q),
{
    assert(occupied(ships, p));
    assert(occupied(ships, q));
    let (i, a) = choose|i: int, a: int|
        0 <= i < ships.len() && 0 <= a < ships[i].positions@.len() && #[trigger] ships[i].positions@[a]
            == p;
    let (j, b) = choose|j: int, b: int|
        0 <= j < ships.len() && 0 <= b < ships[j].positions@.len() && #[trigger] ships[j].positions@[b]
            == q;
    if i != j {
        lemma_fleet_keeps_apart(ships, width(g), height(g), i, a, j, b);
    }
    assert(ships[i].positions@.contains(p));
    assert(ships[i].positions@.contains(q));
}

/// The shape of a ship: its cells lie in one row or in one column, and each
/// cell is exactly one step after the one before.
pub proof fn lemma_ship_shape(ship: Ship)
    requires
        shaped(ship),
    ensures
        ({
            let cells = ship.positions@;
            ||| forall|k: int|
                0 <= k < cells.len() ==> (#[trigger] cells[k]).y == cells[0].y && cells[k].x
                    == cells[0].x + k
            ||| forall|k: int|
                0 <= k < cells.len() ==> (#[trigger] cells[k]).x == cells[0].x && cells[k].y
                    == cells[0].y + k
        }),
{
    let cells = ship.positions@;
    if lined(cells, true) {
        assert forall|k: int| 0 <= k < cells.len() implies (#[trigger] cells[k]).y == cells[0].y
            && cells[k].x == cells[0].x + k by {
            assert(in_line(cells, true, k));
        }
    } else {
        assert forall|k: int| 0 <= k < cells.len() implies (#[trigger] cells[k]).x == cells[0].x
            && cells[k].y == cells[0].y + k by {
            assert(in_line(cells, false, k));
        }
    }
}

/// How often the generator tries to place one ship before it gives up.
pub const PLACEMENT_ATTEMPTS: u32 = 200;

/// The grid is the layout of a fleet of the given lengths on `w` columns
/// and `h` rows.
pub open spec fn is_layout_for(g: Grid, ships: Seq<Ship>, lengths: Seq<u8>, w: int, h: int) -> bool {
    &&& is_layout(g, ships)
    &&& has_lengths(ships, lengths)
    &&& height(g) == h
    &&& h > 0 ==> width(g) == w
}

/// The ships are as the generator leaves them: numbered by their place in
/// the fleet, and without a hit.
pub open spec fn newly_placed(ships: Seq<Ship>) -> bool {
    forall|i: int|
        0 <= i < ships.len() ==> (#[trigger] ships[i]).id == (i % 256) as u8 && ships[i].hits == 0
}

/// No layout exists: the grid has no cell for the first ship, or some ship
/// is longer than the grid is wide and high.
pub open spec fn hopeless(w: int, h: int, lengths: Seq<u8>) -> bool {
    ||| (w == 0 || h == 0) && lengths.len() > 0
    ||| exists|i: int| 0 <= i < lengths.len() && #[trigger] lengths[i] > w && lengths[i] > h
}

/// Every draw gives a layout: there is no ship, or no ship has a cell.
pub open spec fn effortless(w: int, h: int, lengths: Seq<u8>) -> bool {
    ||| lengths.len() == 0
    ||| w > 0 && h > 0 && forall|i: int| 0 <= i < lengths.len() ==> #[trigger] lengths[i] == 0
}

/// Places a fleet at random: one ship after the other, each at the first of
/// up to `PLACEMENT_ATTEMPTS` random places where the no-touch rule allows
/// it. Gives up, with `None`, when a ship finds no place.
///
/// Whatever the generator draws, a layout that comes back is the layout of a
/// legal fleet of the given lengths, and an empty fleet is always placed.
pub fn place_fleet(width: u8, height: u8, ship_lengths: &[u8], rng: &mut StdRng) -> (result: Option<
    (Board, Vec<Ship>),
>)
    ensures
        result matches Some((board, ships)) ==> is_layout_for(
            grid_of(board),
            ships@,
            ship_lengths@,
            width as int,
            height as int,
        ) && newly_placed(ships@),
        effortless(width as int, height as int, ship_lengths@) ==> result is Some,
        hopeless(width as int, height as int, ship_lengths@) ==> result is None,
{
    let mut board: Board = new_board(width, height);
    let mut ships: Vec<Ship> = Vec::new();
    proof {
        let g = grid_of(board);
        assert forall|x: int, y: int| in_grid(g, x, y) implies #[trigger] g[y][x]
            == CellState::Empty by {
            assert(g[y].len() == crate::grid::width(g));
        }
        assert forall|p: Position| !occupied(ships@, p) by {}
    }
    let mut n: usize = 0;
    while n < ship_lengths.len()
        invariant
            n <= ship_lengths@.len(),
            is_layout_for(
                grid_of(board),
                ships@,
                ship_lengths@.take(n as int),
                width as int,
                height as int,
            ),
            n > 0 ==> width > 0 && height > 0,
            newly_placed(ships@),
            forall|i: int|
                0 <= i < n ==> !(#[trigger] ship_lengths@[i] > width && ship_lengths@[i] > height),
        decreases ship_lengths@.len() - n,
    {
        let ship_length: u8 = ship_lengths[n];
        if width == 0 || height == 0 {
            return None;
        }
        let mut placed: bool = false;
        let mut attempt: u32 = 0;
        let ghost before = ships@;
        while attempt < PLACEMENT_ATTEMPTS && !placed
            invariant
                n < ship_lengths@.len(),
                ship_length == ship_lengths@[n as int],
                width > 0,
                height > 0,
                is_layout(grid_of(board), ships@),
                crate::grid::height(grid_of(board)) == height,
                crate::grid::width(grid_of(board)) == width,
                !placed ==> ships@ == before,
                newly_placed(before),
                newly_placed(ships@),
                ship_length > width && ship_length > height ==> !placed,
                ship_length == 0 ==> placed || attempt == 0,
                has_lengths(before, ship_lengths@.take(n as int)),
                placed ==> has_lengths(ships@, ship_lengths@.take(n + 1)),
            decreases PLACEMENT_ATTEMPTS - attempt + (if placed { 0int } else { 1 }),
        {
            let is_horizontal: bool = draw_bool(rng);
            let x: u8 = draw_below(rng, width as u64) as u8;
            let y: u8 = draw_below(rng, height as u64) as u8;
            placed = try_place(&mut board, &mut ships, ship_length, Position { x, y }, is_horizontal);
            proof {
                if placed {
                    let after = ships@;
                    let want = ship_lengths@.take(n + 1);
                    assert forall|i: int| 0 <= i < after.len() implies (#[trigger] after[i]).id == (i
                        % 256) as u8 && after[i].hits == 0 by {
                        if i < before.len() {
                            assert(after[i] == before[i]);
                        }
                    }
                    assert forall|i: int| 0 <= i < after.len() implies (#[trigger] after[i]).length
                        == want[i] by {
                        if i < before.len() {
                            assert(after[i] == before[i]);
                            assert(ship_lengths@.take(n as int)[i] == want[i]);
                        }
                    }
                }
            }
            attempt += 1;
        }
        if !placed {
            return None;
        }
        n += 1;
    }
    proof {
        assert(ship_lengths@.take(n as int) =~= ship_lengths@);
    }
    Some((board, ships))
}

/// A random legal layout of the fleet, drawn from the given generator:
/// `Sunk` where a ship lies, `Empty` elsewhere. `None` where the generator
/// gave up.
pub fn generate_layout_with(
    rng: &mut StdRng,
    width: u8,
    height: u8,
    ship_lengths: &[u8],
) -> (layout: Option<Board>)
    ensures
        layout matches Some(board) ==> exists|ships: Seq<Ship>|
            is_layout_for(grid_of(board), ships, ship_lengths@, width as int, height as int),
        effortless(width as int, height as int, ship_lengths@) ==> layout is Some,
        hopeless(width as int, height as int, ship_lengths@) ==> layout is None,
{
    let placed = place_fleet(width, height, ship_lengths, rng);
    match placed {
        Some(pair) => {
            let (board, ships) = pair;
            let layout = Some(board);
            proof {
                assert(is_layout_for(
                    grid_of(layout->0),
                    ships@,
                    ship_lengths@,
                    width as int,
                    height as int,
                ));
            }
            layout
        },
        None => None,
    }
}

/// A random legal layout of the fleet, drawn from a generator that the
/// operating system seeds, or `FALLBACK_SEED` where the system has no
/// entropy to give.
pub fn generate_random_valid_layout(width: u8, height: u8, ship_lengths: &[u8]) -> (layout: Option<
    Board,
>)
    ensures
        layout matches Some(board) ==> exists|ships: Seq<Ship>|
            is_layout_for(grid_of(board), ships, ship_lengths@, width as int, height as int),
        effortless(width as int, height as int, ship_lengths@) ==> layout is Some,
        hopeless(width as int, height as int, ship_lengths@) ==> layout is None,
{
    let mut rng = system_rng();
    generate_layout_with(&mut rng, width, height, ship_lengths)
}

} // verus!
