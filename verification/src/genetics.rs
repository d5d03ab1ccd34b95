//! The fleet architect: an evolutionary search for a defensive placement
//! that an opponent's opening shots are unlikely to find.

use vstd::prelude::*;
use rand::rngs::StdRng;
use crate::grid::{Board, CellState, Grid, Occupancy, Position, Ship};
use crate::grid::{filled, new_board, set_cell};
use crate::grid::{grid_of, height, in_grid, rectangular, run_cell, width};
use crate::grid::lemma_put_shape;
use crate::layout::{place_fleet, try_place};
use crate::layout::{apart, effortless, fits, hopeless, newly_placed, has_lengths, in_line, is_layout, is_layout_for, legal_fleet, lined, near, occupied, on_grid, placeable, run_cells, shaped, touches};
use crate::random::{draw_below, draw_ratio, seeded_rng, system_rng};
use crate::ranking::{is_top, listed, outranks, select_top};
use crate::summation::{grid_sum, row_sum};
use crate::summation::lemma_grid_sum_point;

verus! {

/// How many opening shots the stealth score simulates.
pub const SIMULATION_SHOTS: usize = 15;

/// How many individuals meet in one tournament.
pub const TOURNAMENT_SIZE: usize = 5;

/// How many of the best individuals pass unchanged into the next generation.
pub const ELITISM_COUNT: usize = 5;

/// How often the architect tries to place a whole fleet before it gives up.
pub const FLEET_ATTEMPTS: u32 = 100;

/// One candidate of the search: a fleet and its fitness.
pub struct Individual {
    pub ships: Vec<Ship>,
    /// The fitness of the fleet, scaled to a whole number (see `fitness`).
    pub fitness: u64,
}

/// 1 for a cell that the parity opener shoots at, 0 for the others.
pub open spec fn parity_fn() -> spec_fn(int, int) -> int {
    |x: int, y: int| if (x + y) % 2 == 0 { 1int } else { 0int }
}

/// How many cells the parity opener has shot at before it comes to the cell
/// `(x, y)`: the cells with an even coordinate sum that precede it in
/// row-major order.
pub open spec fn shots_before(w: int, x: int, y: int) -> int {
    grid_sum(parity_fn(), w, y) + row_sum(parity_fn(), y, x)
}

/// The cell `(x, y)` is one of the first `SIMULATION_SHOTS` shots of the
/// parity opener, and a ship of the fleet lies on it.
pub open spec fn opener_hits(ships: Seq<Ship>, w: int, x: int, y: int) -> bool {
    &&& (x + y) % 2 == 0
    &&& shots_before(w, x, y) < SIMULATION_SHOTS
    &&& occupied(ships, Position { x: x as u8, y: y as u8 })
}

/// 1 for a cell where the opener hits the fleet, 0 for the others.
pub open spec fn hit_fn(ships: Seq<Ship>, w: int) -> spec_fn(int, int) -> int {
    |x: int, y: int| if opener_hits(ships, w, x, y) { 1int } else { 0int }
}

/// How many of the opener's shots hit the fleet on a grid of `w` columns and
/// `h` rows.
pub open spec fn stealth_hits(ships: Seq<Ship>, w: int, h: int) -> int {
    grid_sum(hit_fn(ships, w), w, h)
}

/// A ship that stands upright: its second cell lies below its first. A ship
/// of a single cell counts as lying flat.
pub open spec fn vertical(ship: Ship) -> bool {
    ship.positions@.len() > 1 && ship.positions@[0].x == ship.positions@[1].x
}

/// How many of the first `n` ships stand upright.
pub open spec fn vertical_count(ships: Seq<Ship>, n: int) -> int
    decreases n,
{
    if n <= 0 {
        0
    } else {
        vertical_count(ships, n - 1) + (if vertical(ships[n - 1]) { 1int } else { 0 })
    }
}

/// The fitness of a fleet of `n` ships, times `300 * n` (times 300 for an
/// empty fleet), so that it is a whole number.
///
/// Stealth, `1 - hits / 15`, weighs 0.70; the balance of orientations,
/// `1 - |V - H| / n` with `V` upright and `H` flat ships, weighs 0.15, and
/// is 0 for an empty fleet. Among fleets of one size the scaled fitness
/// orders them as the fitness itself does.
pub open spec fn fitness(ships: Seq<Ship>, w: int, h: int) -> int {
    let n = ships.len() as int;
    let upright = vertical_count(ships, n);
    let flat = n - upright;
    let skew = if upright >= flat { upright - flat } else { flat - upright };
    let stealth = SIMULATION_SHOTS - stealth_hits(ships, w, h);
    if n == 0 {
        14 * stealth
    } else {
        14 * n * stealth + 45 * (n - skew)
    }
}

/// The occupancy mask of a fleet: `true` where a ship lies.
spec fn masks(mask: Seq<Seq<bool>>, ships: Seq<Ship>, n: int, k: int) -> bool {
    forall|x: int, y: int|
        in_grid(mask, x, y) ==> (#[trigger] mask[y][x] <==> covers(
            ships,
            n,
            k,
            Position { x: x as u8, y: y as u8 },
        ))
}

/// One of the first `n` ships, or one of the first `k` cells of the ship at
/// index `n`, is the cell `p`.
spec fn covers(ships: Seq<Ship>, n: int, k: int, p: Position) -> bool {
    exists|i: int, j: int|
        0 <= i < ships.len() && 0 <= j < ships[i].positions@.len() && (i < n || (i == n && j < k))
            && #[trigger] ships[i].positions@[j] == p
}

/// Marks the cells of a fleet on a mask of `width` columns and `height`
/// rows. Cells outside the grid are left out.
fn fleet_mask(ships: &Vec<Ship>, width: u8, height: u8) -> (mask: Vec<Vec<bool>>)
    ensures
        rectangular(grid_of(mask)),
        crate::grid::height(grid_of(mask)) == height,
        height > 0 ==> crate::grid::width(grid_of(mask)) == width,
        forall|x: int, y: int|
            in_grid(grid_of(mask), x, y) ==> (#[trigger] grid_of(mask)[y][x] <==> occupied(
                ships@,
                Position { x: x as u8, y: y as u8 },
            )),
{
    let mut mask: Vec<Vec<bool>> = filled(width as usize, height as usize, false);
    proof {
        let m = grid_of(mask);
        assert forall|x: int, y: int| in_grid(m, x, y) implies (#[trigger] m[y][x] <==> covers(
            ships@,
            0,
            0,
            Position { x: x as u8, y: y as u8 },
        )) by {
            assert(m[y].len() == crate::grid::width(m));
        }
    }
    let mut n: usize = 0;
    while n < ships.len()
        invariant
            n <= ships@.len(),
            rectangular(grid_of(mask)),
            crate::grid::height(grid_of(mask)) == height,
            height > 0 ==> crate::grid::width(grid_of(mask)) == width,
            masks(grid_of(mask), ships@, n as int, 0),
        decreases ships@.len() - n,
    {
        let mut k: usize = 0;
        while k < ships[n].positions.len()
            invariant
                n < ships@.len(),
                k <= ships@[n as int].positions@.len(),
                rectangular(grid_of(mask)),
                crate::grid::height(grid_of(mask)) == height,
                height > 0 ==> crate::grid::width(grid_of(mask)) == width,
                masks(grid_of(mask), ships@, n as int, k as int),
            decreases ships@[n as int].positions@.len() - k,
        {
            let p: Position = ships[n].positions[k];
            let ghost m = grid_of(mask);
            if p.x < width && p.y < height {
                proof {
                    lemma_put_shape(m, p.x as int, p.y as int, true);
                }
                set_cell(&mut mask, p.x as usize, p.y as usize, true);
            }
            proof {
                let m1 = grid_of(mask);
                assert forall|x: int, y: int| in_grid(m1, x, y) implies (#[trigger] m1[y][x]
                    <==> covers(ships@, n as int, k + 1, Position { x: x as u8, y: y as u8 })) by {
                    let q = Position { x: x as u8, y: y as u8 };
                    assert(in_grid(m, x, y));
                    assert(m[y][x] <==> covers(ships@, n as int, k as int, q));
                    if covers(ships@, n as int, k as int, q) {
                        let (i, j) = choose|i: int, j: int|
                            0 <= i < ships@.len() && 0 <= j < ships@[i].positions@.len() && (i < n || (
                            i == n && j < k)) && #[trigger] ships@[i].positions@[j] == q;
                        assert(i < n || (i == n && j < k + 1));
                    }
                    if covers(ships@, n as int, k + 1, q) {
                        let (i, j) = choose|i: int, j: int|
                            0 <= i < ships@.len() && 0 <= j < ships@[i].positions@.len() && (i < n || (
                            i == n && j < k + 1)) && #[trigger] ships@[i].positions@[j] == q;
                        if i == n && j == k {
                            assert(q == p);
                        } else {
                            assert(i < n || (i == n && j < k));
                        }
                    }
                    if q == p {
                        assert(ships@[n as int].positions@[k as int] == q);
                    }
                }
            }
            k += 1;
        }
        proof {
            let m = grid_of(mask);
            assert forall|x: int, y: int| in_grid(m, x, y) implies (#[trigger] m[y][x] <==> covers(
                ships@,
                n + 1,
                0,
                Position { x: x as u8, y: y as u8 },
            )) by {
                let q = Position { x: x as u8, y: y as u8 };
                assert(m[y][x] <==> covers(ships@, n as int, k as int, q));
                if covers(ships@, n as int, k as int, q) {
                    let (i, j) = choose|i: int, j: int|
                        0 <= i < ships@.len() && 0 <= j < ships@[i].positions@.len() && (i < n || (i
                            == n && j < k)) && #[trigger] ships@[i].positions@[j] == q;
                    assert(i < n + 1);
                }
                if covers(ships@, n + 1, 0, q) {
                    let (i, j) = choose|i: int, j: int|
                        0 <= i < ships@.len() && 0 <= j < ships@[i].positions@.len() && (i < n + 1
                            || (i == n + 1 && j < 0)) && #[trigger] ships@[i].positions@[j] == q;
                    assert(i < n || (i == n && j < k));
                }
            }
        }
        n += 1;
    }
    proof {
        let m = grid_of(mask);
        assert forall|x: int, y: int| in_grid(m, x, y) implies (#[trigger] m[y][x] <==> occupied(
            ships@,
            Position { x: x as u8, y: y as u8 },
        )) by {
            let q = Position { x: x as u8, y: y as u8 };
            assert(m[y][x] <==> covers(ships@, n as int, 0, q));
            if covers(ships@, n as int, 0, q) {
                let (i, j) = choose|i: int, j: int|
                    0 <= i < ships@.len() && 0 <= j < ships@[i].positions@.len() && (i < n || (i == n
                        && j < 0)) && #[trigger] ships@[i].positions@[j] == q;
                assert(ships@[i].positions@[j] == q);
            }
            if occupied(ships@, q) {
                let (i, j) = choose|i: int, j: int|
                    0 <= i < ships@.len() && 0 <= j < ships@[i].positions@.len()
                        && #[trigger] ships@[i].positions@[j] == q;
                assert(i < n);
            }
        }
    }
    mask
}

/// The stealth of a fleet against the parity opener, times
/// `SIMULATION_SHOTS`: the number of simulated shots that miss it.
pub fn early_game_stealth_score(individual: &Individual, width: u8, height: u8) -> (score: u64)
    ensures
        score == SIMULATION_SHOTS - stealth_hits(individual.ships@, width as int, height as int),
        score <= SIMULATION_SHOTS,
{
    let ghost ships = individual.ships@;
    let ghost hf = hit_fn(ships, width as int);
    let ghost pf = parity_fn();
    let mask: Vec<Vec<bool>> = fleet_mask(&individual.ships, width, height);
    let mut hits: usize = 0;
    let mut shot_count: usize = 0;
    let mut y: u8 = 0;
    while y < height
        invariant
            ships == individual.ships@,
            hf == hit_fn(ships, width as int),
            pf == parity_fn(),
            y <= height,
            rectangular(grid_of(mask)),
            crate::grid::height(grid_of(mask)) == height,
            height > 0 ==> crate::grid::width(grid_of(mask)) == width,
            forall|ax: int, ay: int|
                in_grid(grid_of(mask), ax, ay) ==> (#[trigger] grid_of(mask)[ay][ax] <==> occupied(
                    ships,
                    Position { x: ax as u8, y: ay as u8 },
                )),
            shot_count == grid_sum(pf, width as int, y as int),
            shot_count <= 255 * y,
            hits == grid_sum(hf, width as int, y as int),
            hits <= shot_count,
            hits <= SIMULATION_SHOTS,
        decreases height - y,
    {
        let ghost shots_above = shot_count as int;
        let ghost hits_above = hits as int;
        let mut x: u8 = 0;
        while x < width
            invariant
                ships == individual.ships@,
                hf == hit_fn(ships, width as int),
                pf == parity_fn(),
                y < height,
                x <= width,
                rectangular(grid_of(mask)),
                crate::grid::height(grid_of(mask)) == height,
                crate::grid::width(grid_of(mask)) == width,
                forall|ax: int, ay: int|
                    in_grid(grid_of(mask), ax, ay) ==> (#[trigger] grid_of(mask)[ay][ax] <==> occupied(
                        ships,
                        Position { x: ax as u8, y: ay as u8 },
                    )),
                shots_above == grid_sum(pf, width as int, y as int),
                shots_above <= 255 * y,
                shot_count == shots_above + row_sum(pf, y as int, x as int),
                shot_count <= shots_above + x,
                hits == hits_above + row_sum(hf, y as int, x as int),
                hits_above == grid_sum(hf, width as int, y as int),
                hits <= shot_count,
                hits <= SIMULATION_SHOTS,
            decreases width - x,
        {
            proof {
                assert(grid_of(mask)[y as int].len() == width);
                assert(in_grid(grid_of(mask), x as int, y as int));
                assert(shots_before(width as int, x as int, y as int) == shot_count);
            }
            if (x as usize + y as usize) % 2 == 0 {
                if shot_count < SIMULATION_SHOTS && mask[y as usize][x as usize] {
                    hits += 1;
                }
                shot_count += 1;
            }
            x += 1;
        }
        y += 1;
    }
    (SIMULATION_SHOTS - hits) as u64
}

/// Counts the upright ships among the first `n`.
fn count_vertical(ships: &Vec<Ship>) -> (count: usize)
    ensures
        count == vertical_count(ships@, ships@.len() as int),
        count <= ships@.len(),
{
    let mut count: usize = 0;
    let mut n: usize = 0;
    while n < ships.len()
        invariant
            n <= ships@.len(),
            count <= n,
            count == vertical_count(ships@, n as int),
        decreases ships@.len() - n,
    {
        let ship = &ships[n];
        if ship.positions.len() > 1 && ship.positions[0].x == ship.positions[1].x {
            count += 1;
        }
        n += 1;
    }
    count
}

/// The balance of orientations of a fleet of `n` ships, times `n`: `n` less
/// the difference between the numbers of upright and flat ships.
pub fn orientation_balance_score(individual: &Individual) -> (score: u64)
    ensures
        score == orientation_balance(individual.ships@),
        score <= individual.ships@.len(),
{
    let n: usize = individual.ships.len();
    let upright: usize = count_vertical(&individual.ships);
    let flat: usize = n - upright;
    let skew: usize = if upright >= flat { upright - flat } else { flat - upright };
    (n - skew) as u64
}

/// The number of ships less the difference between the numbers of upright
/// and flat ones.
pub open spec fn orientation_balance(ships: Seq<Ship>) -> int {
    let n = ships.len() as int;
    let upright = vertical_count(ships, n);
    let flat = n - upright;
    n - (if upright >= flat { upright - flat } else { flat - upright })
}

/// The fitness of a fleet of `n` ships fits the machine integer that holds
/// it: it is at most `255 * n`.
pub open spec fn rateable(n: int) -> bool {
    255 * n <= u64::MAX
}

/// The fitness of an individual on a grid of the given size, as a whole
/// number: see `fitness`.
pub fn calculate_fitness(individual: &Individual, width: u8, height: u8) -> (value: u64)
    requires
        rateable(individual.ships@.len() as int),
    ensures
        value == fitness(individual.ships@, width as int, height as int),
{
    let stealth: u64 = early_game_stealth_score(individual, width, height);
    let balance: u64 = orientation_balance_score(individual);
    let n: u64 = individual.ships.len() as u64;
    if n == 0 {
        14 * stealth
    } else {
        assert(n * stealth <= n * 15) by (nonlinear_arith)
            requires
                stealth <= 15,
                n >= 0,
        ;
        assert(14 * (n * stealth) == 14 * n * stealth) by (nonlinear_arith);
        14 * (n * stealth) + 45 * balance
    }
}

/// Two fleets with the same ships, cell for cell.
pub open spec fn same_cells(a: Seq<Ship>, b: Seq<Ship>) -> bool {
    &&& a.len() == b.len()
    &&& forall|i: int|
        0 <= i < a.len() ==> (#[trigger] a[i]).positions@ == (#[trigger] b[i]).positions@ && a[i].length
            == b[i].length
}

/// Whether a fleet is legal depends on the cells and lengths of its ships
/// alone.
pub proof fn lemma_same_cells(a: Seq<Ship>, b: Seq<Ship>, w: int, h: int)
    requires
        same_cells(a, b),
        legal_fleet(a, w, h),
    ensures
        legal_fleet(b, w, h),
{
    assert forall|i: int| 0 <= i < b.len() implies shaped(#[trigger] b[i]) && on_grid(
        b[i].positions@,
        w,
        h,
    ) by {
        assert(shaped(a[i]));
        assert(a[i].positions@ == b[i].positions@);
    }
    assert forall|i: int, j: int| 0 <= i < b.len() && 0 <= j < b.len() && i != j implies apart(
        (#[trigger] b[i]).positions@,
        (#[trigger] b[j]).positions@,
    ) by {
        assert(apart(a[i].positions@, a[j].positions@));
        assert(a[i].positions@ == b[i].positions@);
        assert(a[j].positions@ == b[j].positions@);
    }
}

/// A ship that keeps clear of every ship of a layout, and lies on its grid,
/// may be placed there.
proof fn lemma_apart_placeable(g: Grid, ships: Seq<Ship>, cells: Seq<Position>, horizontal: bool)
    requires
        is_layout(g, ships),
        cells.len() <= 255,
        lined(cells, horizontal),
        on_grid(cells, width(g), height(g)),
        forall|k: int| 0 <= k < ships.len() ==> apart(cells, (#[trigger] ships[k]).positions@),
    ensures
        cells.len() > 0 ==> placeable(g, cells.len() as int, cells[0], horizontal),
{
    let len = cells.len() as int;
    if len > 0 {
        let origin = cells[0];
        assert(in_line(cells, horizontal, len - 1));
        assert(cells[len - 1].x < width(g) && cells[len - 1].y < height(g));
        assert(fits(origin, horizontal, len, width(g), height(g)));
        assert forall|i: int, qx: int, qy: int|
            0 <= i < len && in_grid(g, qx, qy) && #[trigger] touches(
                origin,
                horizontal,
                i,
                qx,
                qy,
            ) implies !g[qy][qx].taken() by {
            let q = Position { x: qx as u8, y: qy as u8 };
            assert(in_line(cells, horizontal, i));
            if g[qy][qx] != CellState::Empty {
                assert(occupied(ships, q));
                let (a, b) = choose|a: int, b: int|
                    0 <= a < ships.len() && 0 <= b < ships[a].positions@.len()
                        && #[trigger] ships[a].positions@[b] == q;
                assert(apart(cells, ships[a].positions@));
                assert(!near(cells[i], ships[a].positions@[b]));
            }
        }
    }
}

/// Whether the cells of a ship form a line in the given direction.
fn is_lined(cells: &Vec<Position>, horizontal: bool) -> (ok: bool)
    ensures
        ok == lined(cells@, horizontal),
{
    if cells.len() == 0 {
        return true;
    }
    let origin: Position = cells[0];
    let mut i: usize = 0;
    while i < cells.len()
        invariant
            cells@.len() > 0,
            origin == cells@[0],
            i <= cells@.len(),
            forall|j: int| 0 <= j < i ==> #[trigger] in_line(cells@, horizontal, j),
        decreases cells@.len() - i,
    {
        let p: Position = cells[i];
        if i > 255 {
            proof {
                assert(!in_line(cells@, horizontal, i as int));
            }
            return false;
        }
        let along: usize = if horizontal { origin.x as usize + i } else { origin.y as usize + i };
        let ok: bool = if along > 255 {
            false
        } else if horizontal {
            p.x as usize == along && p.y == origin.y
        } else {
            p.y as usize == along && p.x == origin.x
        };
        if !ok {
            proof {
                assert(!in_line(cells@, horizontal, i as int));
            }
            return false;
        }
        i += 1;
    }
    true
}

/// Whether a fleet is legal on a grid of the given size: every ship
/// straight, of its stated length and on the grid, and no two ships
/// overlapping or touching.
pub fn is_valid(ships: &Vec<Ship>, width: u8, height: u8) -> (ok: bool)
    ensures
        ok == legal_fleet(ships@, width as int, height as int),
{
    let ghost w = width as int;
    let ghost h = height as int;
    let mut board: Board = new_board(width, height);
    let mut fleet: Vec<Ship> = Vec::new();
    proof {
        let g = grid_of(board);
        assert forall|x: int, y: int| in_grid(g, x, y) implies #[trigger] g[y][x]
            == CellState::Empty by {
            assert(g[y].len() == crate::grid::width(g));
        }
        assert forall|p: Position| !occupied(fleet@, p) by {}
    }
    let mut n: usize = 0;
    while n < ships.len()
        invariant
            w == width,
            h == height,
            n <= ships@.len(),
            is_layout(grid_of(board), fleet@),
            crate::grid::height(grid_of(board)) == h,
            h > 0 ==> crate::grid::width(grid_of(board)) == w,
            same_cells(fleet@, ships@.take(n as int)),
            legal_fleet(ships@.take(n as int), w, h),
        decreases ships@.len() - n,
    {
        let ship = &ships[n];
        let ghost g = grid_of(board);
        let ghost before = fleet@;
        let ghost cells = ship.positions@;
        let ghost grown = ships@.take(n + 1);
        proof {
            assert(grown[n as int] == ships@[n as int]);
            assert forall|i: int| 0 <= i < n implies grown[i] == #[trigger] ships@.take(n as int)[i] by {}
        }
        if ship.positions.len() != ship.length as usize {
            proof {
                assert(!shaped(ships@[n as int]));
            }
            return false;
        }
        let horizontal: bool = ship.positions.len() > 1 && ship.positions[0].y
            == ship.positions[1].y;
        if !is_lined(&ship.positions, horizontal) {
            proof {
                if lined(cells, !horizontal) {
                    assert(in_line(cells, !horizontal, 0));
                    if cells.len() > 1 {
                        assert(in_line(cells, !horizontal, 1));
                    } else {
                        assert forall|j: int| 0 <= j < cells.len() implies #[trigger] in_line(
                            cells,
                            horizontal,
                            j,
                        ) by {
                            assert(in_line(cells, !horizontal, j));
                        }
                    }
                }
                assert(!shaped(ships@[n as int]));
            }
            return false;
        }
        let origin: Position = if ship.positions.len() > 0 {
            ship.positions[0]
        } else {
            Position { x: 0, y: 0 }
        };
        proof {
            assert(run_cells(origin, horizontal, cells.len() as int) =~= cells) by {
                assert forall|i: int| 0 <= i < cells.len() implies cells[i] == run_cell(
                    origin,
                    horizontal,
                    i,
                ) by {
                    assert(in_line(cells, horizontal, i));
                }
            }
        }
        let placed: bool = try_place(&mut board, &mut fleet, ship.length, origin, horizontal);
        if !placed {
            proof {
                if legal_fleet(ships@, w, h) {
                    assert(shaped(ships@[n as int]) && on_grid(cells, w, h));
                    assert forall|k: int| 0 <= k < before.len() implies apart(
                        cells,
                        (#[trigger] before[k]).positions@,
                    ) by {
                        assert(before[k].positions@ == ships@.take(n as int)[k].positions@);
                        assert(apart(ships@[n as int].positions@, ships@[k].positions@));
                    }
                    if cells.len() > 0 {
                        assert(h > 0);
                        lemma_apart_placeable(g, before, cells, horizontal);
                    }
                }
            }
            return false;
        }
        proof {
            let after = fleet@;
            assert(after[n as int].positions@ == cells);
            assert forall|i: int| 0 <= i < after.len() implies (#[trigger] after[i]).positions@ == (
            #[trigger] grown[i]).positions@ && after[i].length == grown[i].length by {
                if i < n {
                    assert(after[i] == before[i]);
                    assert(before[i].positions@ == ships@.take(n as int)[i].positions@);
                }
            }
            assert(same_cells(after, grown));
            let g1 = grid_of(board);
            assert(legal_fleet(after, crate::grid::width(g1), crate::grid::height(g1)));
            lemma_same_cells(after, grown, crate::grid::width(g1), crate::grid::height(g1));
            assert forall|i: int| 0 <= i < grown.len() implies on_grid(
                (#[trigger] grown[i]).positions@,
                w,
                h,
            ) by {
                assert(on_grid(grown[i].positions@, crate::grid::width(g1), crate::grid::height(g1)));
                if h == 0 {
                    assert(grown[i].positions@.len() == 0) by {
                        if grown[i].positions@.len() > 0 {
                            assert(grown[i].positions@[0].y < 0);
                        }
                    }
                }
            }
        }
        n += 1;
    }
    proof {
        assert(ships@.take(n as int) =~= ships@);
    }
    true
}

/// A copy of a fleet, ship for ship.
pub fn copy_fleet(ships: &Vec<Ship>) -> (copy: Vec<Ship>)
    ensures
        same_cells(ships@, copy@),
        forall|i: int|
            0 <= i < ships@.len() ==> (#[trigger] copy@[i]).id == ships@[i].id && copy@[i].hits
                == ships@[i].hits,
{
    let mut copy: Vec<Ship> = Vec::new();
    let mut n: usize = 0;
    while n < ships.len()
        invariant
            n <= ships@.len(),
            copy@.len() == n,
            forall|i: int|
                0 <= i < n ==> (#[trigger] copy@[i]).positions@ == ships@[i].positions@ && copy@[i].length
                    == ships@[i].length && copy@[i].id == ships@[i].id && copy@[i].hits
                    == ships@[i].hits,
        decreases ships@.len() - n,
    {
        copy.push(ships[n].clone());
        n += 1;
    }
    copy
}

/// The place, among the picks, of the winner of a tournament: the pick of
/// the highest fitness, and the earliest of those.
pub open spec fn winner(population: Seq<Individual>, picks: Seq<usize>, k: int) -> int
    decreases k,
{
    if k <= 1 {
        0
    } else {
        let w = winner(population, picks, k - 1);
        if population[picks[k - 1] as int].fitness > population[picks[w] as int].fitness {
            k - 1
        } else {
            w
        }
    }
}

/// The winner of a tournament is one of the picks, no pick is fitter, and
/// every earlier pick is less fit.
pub proof fn lemma_winner(population: Seq<Individual>, picks: Seq<usize>, k: int)
    requires
        1 <= k <= picks.len(),
    ensures
        0 <= winner(population, picks, k) < k,
        forall|j: int|
            0 <= j < k ==> population[#[trigger] picks[j] as int].fitness <= population[picks[winner(
                population,
                picks,
                k,
            )] as int].fitness,
        forall|j: int|
            0 <= j < winner(population, picks, k) ==> population[#[trigger] picks[j] as int].fitness
                < population[picks[winner(population, picks, k)] as int].fitness,
    decreases k,
{
    if k > 1 {
        lemma_winner(population, picks, k - 1);
    }
}

/// Decides a tournament among the individuals at the picked indices: the
/// fittest wins, the one picked first among equals. Returns its index in the
/// population.
pub fn tournament_winner(population: &Vec<Individual>, picks: &Vec<usize>) -> (index: usize)
    requires
        picks@.len() > 0,
        forall|j: int| 0 <= j < picks@.len() ==> (#[trigger] picks@[j]) < population@.len(),
    ensures
        index == picks@[winner(population@, picks@, picks@.len() as int)],
        index < population@.len(),
{
    let mut best: usize = 0;
    let mut k: usize = 1;
    while k < picks.len()
        invariant
            1 <= k <= picks@.len(),
            best == winner(population@, picks@, k as int),
            best < k,
            forall|j: int| 0 <= j < picks@.len() ==> (#[trigger] picks@[j]) < population@.len(),
        decreases picks@.len() - k,
    {
        if population[picks[k]].fitness > population[picks[best]].fitness {
            best = k;
        }
        k += 1;
    }
    picks[best]
}

/// `index` is what a tournament among the picks comes to: there are
/// `TOURNAMENT_SIZE` picks, each an index into the population, and `index`
/// is the pick of the highest fitness, the earliest of those.
pub open spec fn decides(population: Seq<Individual>, picks: Seq<usize>, index: usize) -> bool {
    &&& picks.len() == TOURNAMENT_SIZE
    &&& forall|j: int| 0 <= j < picks.len() ==> (#[trigger] picks[j]) < population.len()
    &&& index == picks[winner(population, picks, picks.len() as int)]
}

/// Draws `TOURNAMENT_SIZE` individuals at random, with repetition, and
/// returns the index of the fittest of them, of the one drawn first among
/// equals.
pub fn tournament_selection(population: &Vec<Individual>, rng: &mut StdRng) -> (index: usize)
    requires
        population@.len() > 0,
    ensures
        index < population@.len(),
        exists|picks: Seq<usize>| #[trigger] decides(population@, picks, index),
{
    let mut picks: Vec<usize> = Vec::new();
    let mut k: usize = 0;
    while k < TOURNAMENT_SIZE
        invariant
            k <= TOURNAMENT_SIZE,
            picks@.len() == k,
            population@.len() > 0,
            forall|j: int| 0 <= j < picks@.len() ==> (#[trigger] picks@[j]) < population@.len(),
        decreases TOURNAMENT_SIZE - k,
    {
        let drawn: u64 = draw_below(rng, population.len() as u64);
        picks.push(drawn as usize);
        k += 1;
    }
    let index: usize = tournament_winner(population, &picks);
    proof {
        assert(decides(population@, picks@, index));
    }
    index
}

/// The ships of `first` before the split point, followed by the ships of
/// `second` from the split point on.
pub open spec fn spliced(first: Seq<Ship>, second: Seq<Ship>, point: int) -> Seq<Ship> {
    first.take(point) + second.skip(point)
}

/// Crosses two fleets at a split point: the child has the ships of the first
/// parent before the point and those of the second from the point on. The
/// child comes back only if it is a legal fleet.
pub fn crossover_at(
    parent1: &Individual,
    parent2: &Individual,
    point: usize,
    width: u8,
    height: u8,
) -> (child: Option<Individual>)
    requires
        point <= parent1.ships@.len(),
        point <= parent2.ships@.len(),
    ensures
        child is Some <==> legal_fleet(
            spliced(parent1.ships@, parent2.ships@, point as int),
            width as int,
            height as int,
        ),
        child matches Some(c) ==> same_cells(
            spliced(parent1.ships@, parent2.ships@, point as int),
            c.ships@,
        ) && c.fitness == 0,
{
    let ghost want = spliced(parent1.ships@, parent2.ships@, point as int);
    let mut ships: Vec<Ship> = Vec::new();
    let mut n: usize = 0;
    while n < point
        invariant
            n <= point <= parent1.ships@.len(),
            ships@.len() == n,
            forall|i: int|
                0 <= i < n ==> (#[trigger] ships@[i]).positions@ == parent1.ships@[i].positions@
                    && ships@[i].length == parent1.ships@[i].length,
        decreases point - n,
    {
        ships.push(parent1.ships[n].clone());
        n += 1;
    }
    while n < parent2.ships.len()
        invariant
            point <= n <= parent2.ships@.len(),
            point <= parent1.ships@.len(),
            ships@.len() == n,
            forall|i: int|
                0 <= i < point ==> (#[trigger] ships@[i]).positions@ == parent1.ships@[i].positions@
                    && ships@[i].length == parent1.ships@[i].length,
            forall|i: int|
                point <= i < n ==> (#[trigger] ships@[i]).positions@ == parent2.ships@[i].positions@
                    && ships@[i].length == parent2.ships@[i].length,
        decreases parent2.ships@.len() - n,
    {
        ships.push(parent2.ships[n].clone());
        n += 1;
    }
    proof {
        assert(want.len() == ships@.len());
        assert forall|i: int| 0 <= i < want.len() implies (#[trigger] want[i]).positions@ == (
        #[trigger] ships@[i]).positions@ && want[i].length == ships@[i].length by {
            if i < point {
                assert(want[i] == parent1.ships@[i]);
            } else {
                assert(want[i] == parent2.ships@[i]);
            }
        }
        assert(same_cells(want, ships@));
        assert(same_cells(ships@, want));
    }
    let ok: bool = is_valid(&ships, width, height);
    proof {
        if ok {
            lemma_same_cells(ships@, want, width as int, height as int);
        }
        if legal_fleet(want, width as int, height as int) {
            lemma_same_cells(want, ships@, width as int, height as int);
        }
    }
    if ok {
        Some(Individual { ships, fitness: 0 })
    } else {
        None
    }
}

/// A random individual: a fleet that the layout generator placed. Tries up
/// to `FLEET_ATTEMPTS` times, and gives up with `None` after that.
pub fn create_random_individual(
    width: u8,
    height: u8,
    ship_lengths: &[u8],
    rng: &mut StdRng,
) -> (individual: Option<Individual>)
    ensures
        individual matches Some(i) ==> legal_fleet(i.ships@, width as int, height as int)
            && has_lengths(i.ships@, ship_lengths@) && newly_placed(i.ships@) && i.fitness == 0,
        effortless(width as int, height as int, ship_lengths@) ==> individual is Some,
        hopeless(width as int, height as int, ship_lengths@) ==> individual is None,
{
    let mut attempt: u32 = 0;
    while attempt < FLEET_ATTEMPTS
        invariant
            attempt <= FLEET_ATTEMPTS,
            effortless(width as int, height as int, ship_lengths@) ==> attempt == 0,
        decreases FLEET_ATTEMPTS - attempt,
    {
        let placed = place_fleet(width, height, ship_lengths, rng);
        match placed {
            Some(pair) => {
                let (board, ships) = pair;
                proof {
                    let g = grid_of(board);
                    assert(is_layout_for(g, ships@, ship_lengths@, width as int, height as int));
                    assert forall|i: int| 0 <= i < ships@.len() implies on_grid(
                        (#[trigger] ships@[i]).positions@,
                        width as int,
                        height as int,
                    ) by {
                        assert(on_grid(ships@[i].positions@, crate::grid::width(g), crate::grid::height(g)));
                        if height == 0 {
                            if ships@[i].positions@.len() > 0 {
                                assert(ships@[i].positions@[0].y < 0);
                            }
                        }
                    }
                }
                return Some(Individual { ships, fitness: 0 });
            },
            None => {},
        }
        attempt += 1;
    }
    None
}

/// An individual that may stand in a population: a legal fleet of the given
/// lengths, small enough for its fitness to be computed.
pub open spec fn fit_for(individual: Individual, lengths: Seq<u8>, w: int, h: int) -> bool {
    &&& legal_fleet(individual.ships@, w, h)
    &&& has_lengths(individual.ships@, lengths)
}

/// A copy of an individual.
fn copy_individual(individual: &Individual) -> (copy: Individual)
    ensures
        same_cells(individual.ships@, copy.ships@),
        copy.fitness == individual.fitness,
{
    Individual { ships: copy_fleet(&individual.ships), fitness: individual.fitness }
}

proof fn lemma_copy_fit(a: Individual, b: Individual, lengths: Seq<u8>, w: int, h: int)
    requires
        same_cells(a.ships@, b.ships@),
        fit_for(a, lengths, w, h),
    ensures
        fit_for(b, lengths, w, h),
{
    lemma_same_cells(a.ships@, b.ships@, w, h);
    assert forall|i: int| 0 <= i < b.ships@.len() implies (#[trigger] b.ships@[i]).length
        == lengths[i] by {
        assert(a.ships@[i].length == lengths[i]);
    }
}

/// `child` is what crossing the parents at the split point `point` comes
/// to. Where the spliced fleet is legal, the child is that fleet, not yet
/// rated. Where it is not, the child is a newly placed fleet, not yet rated,
/// or, where the generator brought none about, a copy of the first parent.
pub open spec fn crossed(
    p1: Individual,
    p2: Individual,
    child: Individual,
    point: int,
    w: int,
    h: int,
) -> bool {
    &&& 0 <= point < p1.ships@.len()
    &&& if legal_fleet(spliced(p1.ships@, p2.ships@, point), w, h) {
        same_cells(spliced(p1.ships@, p2.ships@, point), child.ships@) && child.fitness == 0
    } else {
        ||| newly_placed(child.ships@) && child.fitness == 0
        ||| same_cells(p1.ships@, child.ships@) && child.fitness == p1.fitness
    }
}

/// Breeds a child: the parents are crossed at a random split point, and
/// where the child is no legal fleet a random individual takes its place.
/// Parents without ships have a copy of the first parent for a child.
pub fn crossover(
    parent1: &Individual,
    parent2: &Individual,
    width: u8,
    height: u8,
    ship_lengths: &[u8],
    rng: &mut StdRng,
) -> (child: Individual)
    requires
        fit_for(*parent1, ship_lengths@, width as int, height as int),
        fit_for(*parent2, ship_lengths@, width as int, height as int),
    ensures
        fit_for(child, ship_lengths@, width as int, height as int),
        parent1.ships@.len() == 0 ==> same_cells(parent1.ships@, child.ships@) && child.fitness
            == parent1.fitness,
        parent1.ships@.len() > 0 ==> exists|point: int|
            #[trigger] crossed(*parent1, *parent2, child, point, width as int, height as int),
{
    let n: usize = parent1.ships.len();
    if n == 0 {
        let copy = copy_individual(parent1);
        proof {
            lemma_copy_fit(*parent1, copy, ship_lengths@, width as int, height as int);
        }
        return copy;
    }
    let point: usize = draw_below(rng, n as u64) as usize;
    match crossover_at(parent1, parent2, point, width, height) {
        Some(child) => {
            proof {
                assert(crossed(*parent1, *parent2, child, point as int, width as int, height as int));
                let want = spliced(parent1.ships@, parent2.ships@, point as int);
                assert forall|i: int| 0 <= i < child.ships@.len() implies (
                #[trigger] child.ships@[i]).length == ship_lengths@[i] by {
                    assert(want[i].length == child.ships@[i].length);
                    if i < point {
                        assert(want[i] == parent1.ships@[i]);
                    } else {
                        assert(want[i] == parent2.ships@[i]);
                    }
                }
                lemma_same_cells(want, child.ships@, width as int, height as int);
            }
            child
        },
        None => {
            match create_random_individual(width, height, ship_lengths, rng) {
                Some(fresh) => {
                    proof {
                        assert(crossed(
                            *parent1,
                            *parent2,
                            fresh,
                            point as int,
                            width as int,
                            height as int,
                        ));
                    }
                    fresh
                },
                None => {
                    let copy = copy_individual(parent1);
                    proof {
                        lemma_copy_fit(*parent1, copy, ship_lengths@, width as int, height as int);
                        assert(crossed(
                            *parent1,
                            *parent2,
                            copy,
                            point as int,
                            width as int,
                            height as int,
                        ));
                    }
                    copy
                },
            }
        },
    }
}

/// Mutates an individual: a random individual, newly placed and not yet
/// rated, takes its place where the generator brings one about. Where it
/// brings none, the individual stays as it is.
pub fn mutate(
    individual: Individual,
    width: u8,
    height: u8,
    ship_lengths: &[u8],
    rng: &mut StdRng,
) -> (mutant: Individual)
    requires
        fit_for(individual, ship_lengths@, width as int, height as int),
    ensures
        fit_for(mutant, ship_lengths@, width as int, height as int),
        mutant == individual || (newly_placed(mutant.ships@) && mutant.fitness == 0),
        hopeless(width as int, height as int, ship_lengths@) ==> mutant == individual,
        effortless(width as int, height as int, ship_lengths@) ==> newly_placed(mutant.ships@)
            && mutant.fitness == 0,
{
    match create_random_individual(width, height, ship_lengths, rng) {
        Some(fresh) => fresh,
        None => individual,
    }
}

/// The fitness of every individual, in the order of the population.
pub fn evaluate_population(population: &Vec<Individual>, width: u8, height: u8) -> (scores: Vec<u64>)
    requires
        forall|i: int|
            0 <= i < population@.len() ==> rateable((#[trigger] population@[i]).ships@.len() as int),
    ensures
        scores@.len() == population@.len(),
        forall|i: int|
            0 <= i < scores@.len() ==> #[trigger] scores@[i] == fitness(
                population@[i].ships@,
                width as int,
                height as int,
            ),
{
    let mut scores: Vec<u64> = Vec::new();
    let mut n: usize = 0;
    while n < population.len()
        invariant
            n <= population@.len(),
            scores@.len() == n,
            forall|i: int|
                0 <= i < population@.len() ==> rateable(
                    (#[trigger] population@[i]).ships@.len() as int,
                ),
            forall|i: int|
                0 <= i < n ==> #[trigger] scores@[i] == fitness(
                    population@[i].ships@,
                    width as int,
                    height as int,
                ),
        decreases population@.len() - n,
    {
        scores.push(calculate_fitness(&population[n], width, height));
        n += 1;
    }
    scores
}

/// The fitness of every individual of a population, in its order.
pub open spec fn ratings(population: Seq<Individual>, w: int, h: int) -> Seq<u64> {
    Seq::new(population.len(), |i: int| fitness(population[i].ships@, w, h) as u64)
}

/// `best` holds copies of the individuals at the indices `top`, which are
/// the `count` best by `scores`, best first; each copy carries its score as
/// its fitness.
pub open spec fn carries(
    population: Seq<Individual>,
    scores: Seq<u64>,
    count: int,
    top: Seq<usize>,
    best: Seq<Individual>,
) -> bool {
    &&& is_top(scores, count, top)
    &&& best.len() == top.len()
    &&& forall|i: int|
        0 <= i < best.len() ==> same_cells(
            population[top[i] as int].ships@,
            (#[trigger] best[i]).ships@,
        ) && best[i].fitness == scores[top[i] as int]
}

/// Fleets with the same ships, cell for cell, are equally fit.
pub proof fn lemma_same_cells_fitness(a: Seq<Ship>, b: Seq<Ship>, w: int, h: int)
    requires
        same_cells(a, b),
    ensures
        fitness(a, w, h) == fitness(b, w, h),
{
    assert forall|p: Position| occupied(a, p) == occupied(b, p) by {
        if occupied(a, p) {
            let (i, j) = choose|i: int, j: int|
                0 <= i < a.len() && 0 <= j < a[i].positions@.len() && #[trigger] a[i].positions@[j]
                    == p;
            assert(a[i].positions@ == b[i].positions@);
            assert(b[i].positions@[j] == p);
        }
        if occupied(b, p) {
            let (i, j) = choose|i: int, j: int|
                0 <= i < b.len() && 0 <= j < b[i].positions@.len() && #[trigger] b[i].positions@[j]
                    == p;
            assert(a[i].positions@ == b[i].positions@);
            assert(a[i].positions@[j] == p);
        }
    }
    assert forall|x: int, y: int| 0 <= x < w && 0 <= y < h implies #[trigger] hit_fn(b, w)(x, y)
        == hit_fn(a, w)(x, y) by {
        let p = Position { x: x as u8, y: y as u8 };
        assert(occupied(a, p) == occupied(b, p));
    }
    lemma_grid_sum_point(hit_fn(a, w), hit_fn(b, w), w, h, -1, -1);
    lemma_same_cells_vertical(a, b, a.len() as int);
}

/// Fleets with the same ships, cell for cell, have as many upright ships.
proof fn lemma_same_cells_vertical(a: Seq<Ship>, b: Seq<Ship>, n: int)
    requires
        same_cells(a, b),
        0 <= n <= a.len(),
    ensures
        vertical_count(a, n) == vertical_count(b, n),
    decreases n,
{
    if n > 0 {
        lemma_same_cells_vertical(a, b, n - 1);
        assert(a[n - 1].positions@ == b[n - 1].positions@);
    }
}

/// The first of an elite is as fit as anyone in the population it was taken
/// from.
pub proof fn lemma_elite_leads(
    population: Seq<Individual>,
    scores: Seq<u64>,
    count: int,
    top: Seq<usize>,
    best: Seq<Individual>,
    w: int,
    h: int,
    i: int,
)
    requires
        carries(population, scores, count, top, best),
        count >= 1,
        0 <= i < population.len(),
        scores.len() == population.len(),
        forall|k: int|
            0 <= k < population.len() ==> #[trigger] scores[k] == fitness(population[k].ships@, w, h),
    ensures
        best.len() >= 1,
        fitness(population[i].ships@, w, h) <= fitness(best[0].ships@, w, h),
{
    let lead = top[0] as int;
    lemma_same_cells_fitness(population[lead].ships@, best[0].ships@, w, h);
    assert(scores[lead] == fitness(population[lead].ships@, w, h));
    assert(scores[i] == fitness(population[i].ships@, w, h));
    if i != lead {
        if listed(top, i) {
            let j = choose|j: int| 0 <= j < top.len() && #[trigger] top[j] == i;
            assert(outranks(scores, top[0] as int, top[j] as int));
        } else {
            assert(outranks(scores, top[0] as int, i));
        }
    }
}

/// The elite of a population: copies of its `count` best individuals by
/// `scores`, best first, the earlier one first among equals.
pub fn elite(population: &Vec<Individual>, scores: &Vec<u64>, count: usize) -> (best: Vec<Individual>)
    requires
        scores@.len() == population@.len(),
    ensures
        exists|top: Seq<usize>| #[trigger] carries(population@, scores@, count as int, top, best@),
{
    let top: Vec<usize> = select_top(scores, count);
    let mut best: Vec<Individual> = Vec::new();
    let mut e: usize = 0;
    while e < top.len()
        invariant
            e <= top@.len(),
            is_top(scores@, count as int, top@),
            scores@.len() == population@.len(),
            best@.len() == e,
            forall|i: int|
                0 <= i < e ==> same_cells(
                    population@[top@[i] as int].ships@,
                    (#[trigger] best@[i]).ships@,
                ) && best@[i].fitness == scores@[top@[i] as int],
        decreases top@.len() - e,
    {
        let source = &population[top[e]];
        best.push(Individual { ships: copy_fleet(&source.ships), fitness: scores[top[e]] });
        e += 1;
    }
    proof {
        assert(carries(population@, scores@, count as int, top@, best@));
    }
    best
}

/// The index of the fittest individual of a population, of the earliest
/// among equals.
pub fn fittest(population: &Vec<Individual>, width: u8, height: u8) -> (index: usize)
    requires
        population@.len() > 0,
        forall|i: int|
            0 <= i < population@.len() ==> rateable((#[trigger] population@[i]).ships@.len() as int),
    ensures
        index < population@.len(),
        is_top(ratings(population@, width as int, height as int), 1, seq![index]),
{
    let scores: Vec<u64> = evaluate_population(population, width, height);
    proof {
        assert(scores@ =~= ratings(population@, width as int, height as int));
    }
    let top: Vec<usize> = select_top(&scores, 1);
    proof {
        assert(top@ =~= seq![top@[0]]);
    }
    top[0]
}

/// Breeds the next generation of a population: its `ELITISM_COUNT` fittest
/// individuals pass unchanged, and children of tournament winners, one in
/// ten of them mutated, fill it up to the size it had.
pub fn next_generation(
    population: &Vec<Individual>,
    width: u8,
    height: u8,
    ship_lengths: &[u8],
    rng: &mut StdRng,
) -> (next: Vec<Individual>)
    requires
        population@.len() > 0,
        rateable(ship_lengths@.len() as int),
        forall|i: int|
            0 <= i < population@.len() ==> fit_for(
                #[trigger] population@[i],
                ship_lengths@,
                width as int,
                height as int,
            ),
    ensures
        next@.len() == population@.len(),
        forall|i: int|
            0 <= i < next@.len() ==> fit_for(
                #[trigger] next@[i],
                ship_lengths@,
                width as int,
                height as int,
            ),
        exists|top: Seq<usize>|
            #[trigger] carries(
                population@,
                ratings(population@, width as int, height as int),
                ELITISM_COUNT as int,
                top,
                next@.take(top.len() as int),
            ),
        forall|i: int|
            0 <= i < population@.len() ==> fitness(
                (#[trigger] population@[i]).ships@,
                width as int,
                height as int,
            ) <= fitness(next@[0].ships@, width as int, height as int),
{
    let size: usize = population.len();
    let scores: Vec<u64> = evaluate_population(population, width, height);
    proof {
        assert(scores@ =~= ratings(population@, width as int, height as int));
    }
    let mut next: Vec<Individual> = elite(population, &scores, ELITISM_COUNT);
    let ghost top = choose|top: Seq<usize>|
        #[trigger] carries(population@, scores@, ELITISM_COUNT as int, top, next@);
    let ghost kept = next@;
    proof {
        assert forall|i: int| 0 <= i < next@.len() implies fit_for(
            #[trigger] next@[i],
            ship_lengths@,
            width as int,
            height as int,
        ) by {
            lemma_copy_fit(
                population@[top[i] as int],
                next@[i],
                ship_lengths@,
                width as int,
                height as int,
            );
        }
    }
    while next.len() < size
        invariant
            size == population@.len(),
            size > 0,
            next@.len() <= size,
            kept.len() <= next@.len(),
            next@.take(kept.len() as int) == kept,
            forall|i: int|
                0 <= i < population@.len() ==> fit_for(
                    #[trigger] population@[i],
                    ship_lengths@,
                    width as int,
                    height as int,
                ),
            forall|i: int|
                0 <= i < next@.len() ==> fit_for(
                    #[trigger] next@[i],
                    ship_lengths@,
                    width as int,
                    height as int,
                ),
        decreases size - next@.len(),
    {
        let first: usize = tournament_selection(population, rng);
        let second: usize = tournament_selection(population, rng);
        let mut child: Individual = crossover(
            &population[first],
            &population[second],
            width,
            height,
            ship_lengths,
            rng,
        );
        if draw_ratio(rng, 1, 10) {
            child = mutate(child, width, height, ship_lengths, rng);
        }
        let ghost before = next@;
        next.push(child);
        proof {
            assert(next@.take(kept.len() as int) =~= before.take(kept.len() as int));
        }
    }
    proof {
        assert(carries(
            population@,
            ratings(population@, width as int, height as int),
            ELITISM_COUNT as int,
            top,
            next@.take(top.len() as int),
        ));
        assert forall|i: int| 0 <= i < population@.len() implies fitness(
            (#[trigger] population@[i]).ships@,
            width as int,
            height as int,
        ) <= fitness(next@[0].ships@, width as int, height as int) by {
            lemma_elite_leads(
                population@,
                scores@,
                ELITISM_COUNT as int,
                top,
                kept,
                width as int,
                height as int,
                i,
            );
            assert(next@[0] == kept[0]);
        }
    }
    next
}

/// The search for a defensive placement on a grid of a given size, for a
/// fleet of given lengths.
pub struct GeneticArchitect {
    width: u8,
    height: u8,
    ship_lengths: Vec<u8>,
    seed: Option<u64>,
}

impl GeneticArchitect {
    /// The number of columns of the grid.
    pub closed spec fn cols(&self) -> int {
        self.width as int
    }

    /// The number of rows of the grid.
    pub closed spec fn rows(&self) -> int {
        self.height as int
    }

    /// The lengths of the ships of the fleet, in their order.
    pub closed spec fn lengths(&self) -> Seq<u8> {
        self.ship_lengths@
    }

    /// An architect whose random source the operating system seeds, or
    /// `FALLBACK_SEED` where the system has no entropy to give.
    pub fn new(width: u8, height: u8, ship_lengths: Vec<u8>) -> (architect: GeneticArchitect)
        ensures
            architect.cols() == width,
            architect.rows() == height,
            architect.lengths() == ship_lengths@,
    {
        GeneticArchitect { width, height, ship_lengths, seed: None }
    }

    /// An architect whose random source is seeded with `seed`: every search
    /// it runs draws the same numbers.
    pub fn with_seed(width: u8, height: u8, ship_lengths: Vec<u8>, seed: u64) -> (architect: GeneticArchitect)
        ensures
            architect.cols() == width,
            architect.rows() == height,
            architect.lengths() == ship_lengths@,
    {
        GeneticArchitect { width, height, ship_lengths, seed: Some(seed) }
    }

    /// Runs the search: a population of `population_size` random fleets is
    /// bred for `generations` generations, and the fittest fleet of the last
    /// one comes back.
    ///
    /// Each generation keeps its `ELITISM_COUNT` fittest individuals and
    /// fills up with children of tournament winners, one in ten of them
    /// mutated. Whatever the random source draws, a fleet that comes back is
    /// a legal fleet of the architect's lengths on its grid. `None` comes
    /// back for an empty population, and where the generator found no place
    /// for a fleet.
    pub fn generate_best_layout(&self, generations: usize, population_size: usize) -> (best: Option<
        Vec<Ship>,
    >)
        ensures
            best matches Some(fleet) ==> legal_fleet(fleet@, self.cols(), self.rows()) && has_lengths(
                fleet@,
                self.lengths(),
            ),
            population_size == 0 || hopeless(self.cols(), self.rows(), self.lengths())
                ==> best is None,
            population_size > 0 && effortless(self.cols(), self.rows(), self.lengths())
                && rateable(self.lengths().len() as int) ==> best is Some,
    {
        if population_size == 0 || self.ship_lengths.len() as u64 > u64::MAX / 255 {
            return None;
        }
        let mut rng: StdRng = match self.seed {
            Some(seed) => seeded_rng(seed),
            None => system_rng(),
        };
        let width: u8 = self.width;
        let height: u8 = self.height;
        let lengths: &[u8] = self.ship_lengths.as_slice();
        let mut population: Vec<Individual> = Vec::new();
        while population.len() < population_size
            invariant
                lengths@ == self.lengths(),
                rateable(lengths@.len() as int),
                width == self.cols(),
                height == self.rows(),
                population@.len() <= population_size,
                population@.len() > 0 ==> !hopeless(width as int, height as int, lengths@),
                forall|i: int|
                    0 <= i < population@.len() ==> fit_for(
                        #[trigger] population@[i],
                        lengths@,
                        width as int,
                        height as int,
                    ),
            decreases population_size - population@.len(),
        {
            match create_random_individual(width, height, lengths, &mut rng) {
                Some(individual) => {
                    population.push(individual);
                },
                None => {
                    return None;
                },
            }
        }
        let mut generation: usize = 0;
        while generation < generations
            invariant
                lengths@ == self.lengths(),
                rateable(lengths@.len() as int),
                width == self.cols(),
                height == self.rows(),
                population_size > 0,
                population@.len() == population_size,
                !hopeless(width as int, height as int, lengths@),
                forall|i: int|
                    0 <= i < population@.len() ==> fit_for(
                        #[trigger] population@[i],
                        lengths@,
                        width as int,
                        height as int,
                    ),
            decreases generations - generation,
        {
            population = next_generation(&population, width, height, lengths, &mut rng);
            generation += 1;
        }
        let champion: usize = fittest(&population, width, height);
        let winner = &population[champion];
        let fleet: Vec<Ship> = copy_fleet(&winner.ships);
        proof {
            let copy = Individual { ships: fleet, fitness: 0 };
            lemma_copy_fit(*winner, copy, lengths@, width as int, height as int);
        }
        Some(fleet)
    }
}

/// Runs the search with its usual settings: 30 generations of 50
/// individuals. A fleet that comes back is a legal fleet of the given
/// lengths; none comes back for a fleet that no grid of this size holds, and
/// one always does for a fleet without cells.
pub fn run_genetic_algorithm(width: u8, height: u8, ship_lengths: &[u8]) -> (best: Option<Vec<Ship>>)
    ensures
        best matches Some(fleet) ==> legal_fleet(fleet@, width as int, height as int) && has_lengths(
            fleet@,
            ship_lengths@,
        ),
        hopeless(width as int, height as int, ship_lengths@) ==> best is None,
        effortless(width as int, height as int, ship_lengths@) && rateable(
            ship_lengths@.len() as int,
        ) ==> best is Some,
{
    let mut lengths: Vec<u8> = Vec::new();
    let mut k: usize = 0;
    while k < ship_lengths.len()
        invariant
            k <= ship_lengths@.len(),
            lengths@ == ship_lengths@.take(k as int),
        decreases ship_lengths@.len() - k,
    {
        lengths.push(ship_lengths[k]);
        proof {
            assert(ship_lengths@.take(k + 1) =~= ship_lengths@.take(k as int).push(
                ship_lengths@[k as int],
            ));
        }
        k += 1;
    }
    proof {
        assert(ship_lengths@.take(k as int) =~= ship_lengths@);
    }
    let architect = GeneticArchitect::new(width, height, lengths);
    architect.generate_best_layout(30, 50)
}

/// Whether a ship keeps clear of every ship of a fleet: no cell of it
/// coincides with or touches a cell of theirs.
pub fn can_place_ship_individual(ships: &Vec<Ship>, new_ship: &Ship, width: u8, height: u8) -> (ok: bool)
    ensures
        ok == forall|k: int|
            0 <= k < ships@.len() ==> apart(new_ship.positions@, (#[trigger] ships@[k]).positions@),
{
    let ghost cells = new_ship.positions@;
    let mut a: usize = 0;
    while a < new_ship.positions.len()
        invariant
            cells == new_ship.positions@,
            a <= cells.len(),
            forall|i: int, k: int, j: int|
                0 <= i < a && 0 <= k < ships@.len() && 0 <= j < ships@[k].positions@.len() ==> !near(
                    #[trigger] cells[i],
                    #[trigger] ships@[k].positions@[j],
                ),
        decreases cells.len() - a,
    {
        let pos: Position = new_ship.positions[a];
        let mut k: usize = 0;
        while k < ships.len()
            invariant
                cells == new_ship.positions@,
                a < cells.len(),
                pos == cells[a as int],
                k <= ships@.len(),
                forall|n: int, j: int|
                    0 <= n < k && 0 <= j < ships@[n].positions@.len() ==> !near(
                        pos,
                        #[trigger] ships@[n].positions@[j],
                    ),
            decreases ships@.len() - k,
        {
            let mut b: usize = 0;
            while b < ships[k].positions.len()
                invariant
                    cells == new_ship.positions@,
                    a < cells.len(),
                    pos == cells[a as int],
                    k < ships@.len(),
                    b <= ships@[k as int].positions@.len(),
                    forall|j: int| 0 <= j < b ==> !near(pos, #[trigger] ships@[k as int].positions@[j]),
                decreases ships@[k as int].positions@.len() - b,
            {
                let other: Position = ships[k].positions[b];
                let dx: u8 = if pos.x >= other.x { pos.x - other.x } else { other.x - pos.x };
                let dy: u8 = if pos.y >= other.y { pos.y - other.y } else { other.y - pos.y };
                if dx <= 1 && dy <= 1 {
                    proof {
                        assert(near(cells[a as int], ships@[k as int].positions@[b as int]));
                        assert(!apart(cells, ships@[k as int].positions@));
                    }
                    return false;
                }
                b += 1;
            }
            k += 1;
        }
        a += 1;
    }
    true
}

} // verus!
