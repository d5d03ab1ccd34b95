//! The constraint solver: finds the islands of cells that may still hold a
//! ship and marks as `Miss` every unknown cell of an island that is too
//! cramped for the shortest ship that is left.

use vstd::prelude::*;
use crate::grid::{Board, CellState, Grid, Position};
use crate::grid::{board_width, filled, set_cell};
use crate::grid::{grid_of, height, in_grid, put, rectangular, run_cell, well_formed, width};
use crate::grid::lemma_put_shape;
use crate::summation::{grid_sum, row_sum};
use crate::summation::{lemma_grid_sum_bounds, lemma_grid_sum_point, lemma_row_sum_bounds};

verus! {

/// A cell that a ship may still occupy: it lies on the grid and is no `Miss`.
pub open spec fn open_cell(g: Grid, p: Position) -> bool {
    in_grid(g, p.x as int, p.y as int) && g[p.y as int][p.x as int] != CellState::Miss
}

/// Two cells that share an edge.
pub open spec fn adjacent(a: Position, b: Position) -> bool {
    ||| (a.y == b.y && (a.x + 1 == b.x || b.x + 1 == a.x))
    ||| (a.x == b.x && (a.y + 1 == b.y || b.y + 1 == a.y))
}

/// The cell at index `i + 1` of a path shares an edge with the one before.
pub open spec fn linked(path: Seq<Position>, i: int) -> bool {
    adjacent(path[i], path[i + 1])
}

/// A walk over open cells that moves from each cell to a neighbour of it.
pub open spec fn is_path(g: Grid, path: Seq<Position>) -> bool {
    &&& path.len() > 0
    &&& forall|i: int| 0 <= i < path.len() ==> open_cell(g, #[trigger] path[i])
    &&& forall|i: int| 0 <= i < path.len() - 1 ==> #[trigger] linked(path, i)
}

/// `path` is a walk over open cells from `a` to `b`.
pub open spec fn joins(g: Grid, path: Seq<Position>, a: Position, b: Position) -> bool {
    is_path(g, path) && path[0] == a && path[path.len() - 1] == b
}

/// The open cells `a` and `b` belong to the same island.
pub open spec fn connected(g: Grid, a: Position, b: Position) -> bool {
    exists|path: Seq<Position>| joins(g, path, a, b)
}

/// The island of the cell `a`: every cell that an open walk reaches from it.
pub open spec fn island_of(g: Grid, a: Position) -> Set<Position> {
    Set::new(|b: Position| connected(g, a, b))
}

/// The straight run of `len` cells from `origin`, rightward or downward,
/// lies inside the set `s`.
pub open spec fn run_inside(s: Set<Position>, origin: Position, horizontal: bool, len: int) -> bool {
    forall|i: int| 0 <= i < len ==> #[trigger] run_step(s, origin, horizontal, i)
}

/// The `i`-th cell of the run from `origin` exists and belongs to `s`.
pub open spec fn run_step(s: Set<Position>, origin: Position, horizontal: bool, i: int) -> bool {
    &&& (if horizontal {
        origin.x + i
    } else {
        origin.y + i
    }) <= 255
    &&& s.contains(run_cell(origin, horizontal, i))
}

/// Some cell of `s` is the origin of a straight run of `len` cells inside `s`.
pub open spec fn hosts_run(s: Set<Position>, len: int) -> bool {
    exists|origin: Position, horizontal: bool|
        s.contains(origin) && run_inside(s, origin, horizontal, len)
}

/// An open cell is connected to itself.
pub proof fn lemma_connected_self(g: Grid, a: Position)
    requires
        open_cell(g, a),
    ensures
        connected(g, a, a),
{
    assert(joins(g, seq![a], a, a));
}

/// An open neighbour of a connected cell is connected too.
pub proof fn lemma_connected_step(g: Grid, a: Position, b: Position, c: Position)
    requires
        connected(g, a, b),
        open_cell(g, c),
        adjacent(b, c),
    ensures
        connected(g, a, c),
{
    let path = choose|path: Seq<Position>| joins(g, path, a, b);
    let longer = path.push(c);
    assert forall|i: int| 0 <= i < longer.len() - 1 implies #[trigger] linked(longer, i) by {
        if i < path.len() - 1 {
            assert(linked(path, i));
        }
    }
    assert(joins(g, longer, a, c));
}

/// Being connected does not depend on the direction.
pub proof fn lemma_connected_symmetric(g: Grid, a: Position, b: Position)
    requires
        connected(g, a, b),
    ensures
        connected(g, b, a),
{
    let path = choose|path: Seq<Position>| joins(g, path, a, b);
    let n = path.len() as int;
    let back = Seq::new(path.len(), |i: int| path[n - 1 - i]);
    assert forall|i: int| 0 <= i < back.len() - 1 implies #[trigger] linked(back, i) by {
        assert(linked(path, n - 2 - i));
    }
    assert(joins(g, back, b, a));
}

/// Two walks that meet make one walk.
pub proof fn lemma_connected_transitive(g: Grid, a: Position, b: Position, c: Position)
    requires
        connected(g, a, b),
        connected(g, b, c),
    ensures
        connected(g, a, c),
{
    let p = choose|path: Seq<Position>| joins(g, path, a, b);
    let q = choose|path: Seq<Position>| joins(g, path, b, c);
    let n = p.len() as int;
    let whole = Seq::new((p.len() + q.len() - 1) as nat, |i: int| if i < n { p[i] } else { q[i - n + 1] });
    assert forall|i: int| 0 <= i < whole.len() - 1 implies #[trigger] linked(whole, i) by {
        if i < n - 1 {
            assert(linked(p, i));
        } else {
            assert(linked(q, i - n + 1));
        }
    }
    assert(joins(g, whole, a, c));
}

/// Connected cells have the same island.
pub proof fn lemma_same_island(g: Grid, a: Position, b: Position)
    requires
        connected(g, a, b),
    ensures
        island_of(g, a) == island_of(g, b),
{
    lemma_connected_symmetric(g, a, b);
    assert forall|c: Position| connected(g, a, c) <==> connected(g, b, c) by {
        if connected(g, a, c) {
            lemma_connected_transitive(g, b, a, c);
        }
        if connected(g, b, c) {
            lemma_connected_transitive(g, a, b, c);
        }
    }
    assert(island_of(g, a) =~= island_of(g, b));
}

/// `mask` records, for a box whose top left corner is `(min_x, min_y)`,
/// which of its cells belong to `s`, and the box holds all of `s`.
spec fn mask_models(mask: Seq<Seq<bool>>, s: Set<Position>, min_x: int, min_y: int) -> bool {
    &&& rectangular(mask)
    &&& height(mask) >= 1
    &&& 0 <= min_x && min_x + width(mask) <= 256
    &&& 0 <= min_y && min_y + height(mask) <= 256
    &&& forall|p: Position|
        #[trigger] s.contains(p) ==> in_grid(mask, p.x - min_x, p.y - min_y) && mask[p.y
            - min_y][p.x - min_x]
    &&& forall|p: Position|
        in_grid(mask, p.x - min_x, p.y - min_y) && mask[p.y - min_y][p.x - min_x]
            ==> #[trigger] s.contains(p)
}

/// Tests one straight run against the membership mask of an island.
fn run_in_mask(
    mask: &Vec<Vec<bool>>,
    island: &Vec<Position>,
    min_x: u8,
    min_y: u8,
    origin: Position,
    horizontal: bool,
    ship_length: u8,
) -> (inside: bool)
    requires
        mask_models(grid_of(*mask), island@.to_set(), min_x as int, min_y as int),
        island@.to_set().contains(origin),
    ensures
        inside == run_inside(island@.to_set(), origin, horizontal, ship_length as int),
{
    let ghost s = island@.to_set();
    let ghost m = grid_of(*mask);
    let bw: usize = board_width(mask);
    let bh: usize = mask.len();
    proof {
        assert(in_grid(m, origin.x - min_x, origin.y - min_y));
    }
    let mut i: u8 = 0;
    while i < ship_length
        invariant
            s == island@.to_set(),
            m == grid_of(*mask),
            mask_models(m, s, min_x as int, min_y as int),
            min_x <= origin.x,
            min_y <= origin.y,
            bw == width(m),
            bh == height(m),
            i <= ship_length,
            forall|j: int| 0 <= j < i ==> #[trigger] run_step(s, origin, horizontal, j),
        decreases ship_length - i,
    {
        let cx: usize = if horizontal {
            origin.x as usize + i as usize
        } else {
            origin.x as usize
        };
        let cy: usize = if horizontal {
            origin.y as usize
        } else {
            origin.y as usize + i as usize
        };
        let ghost p = run_cell(origin, horizontal, i as int);
        if cx - min_x as usize >= bw || cy - min_y as usize >= bh {
            proof {
                if cx <= 255 && cy <= 255 {
                    assert(p.x == cx && p.y == cy);
                    assert(!s.contains(p));
                }
                assert(!run_step(s, origin, horizontal, i as int));
            }
            return false;
        }
        proof {
            assert(m[cy - min_y].len() == bw);
            assert(p.x == cx && p.y == cy);
        }
        if !mask[cy - min_y as usize][cx - min_x as usize] {
            proof {
                assert(!s.contains(p));
                assert(!run_step(s, origin, horizontal, i as int));
            }
            return false;
        }
        proof {
            assert(in_grid(m, p.x - min_x, p.y - min_y));
            assert(s.contains(p));
            assert(run_step(s, origin, horizontal, i as int));
        }
        i += 1;
    }
    true
}

/// The smallest and largest column and row among the cells of an island.
fn bounding_box(island: &Vec<Position>) -> (bounds: (u8, u8, u8, u8))
    requires
        island@.len() > 0,
    ensures
        bounds.0 <= bounds.1,
        bounds.2 <= bounds.3,
        forall|j: int|
            0 <= j < island@.len() ==> bounds.0 <= (#[trigger] island@[j]).x <= bounds.1
                && bounds.2 <= island@[j].y <= bounds.3,
{
    let mut min_x: u8 = island[0].x;
    let mut max_x: u8 = island[0].x;
    let mut min_y: u8 = island[0].y;
    let mut max_y: u8 = island[0].y;
    let mut k: usize = 1;
    while k < island.len()
        invariant
            1 <= k <= island@.len(),
            min_x <= max_x,
            min_y <= max_y,
            forall|j: int|
                0 <= j < k ==> min_x <= (#[trigger] island@[j]).x <= max_x && min_y <= island@[j].y
                    <= max_y,
        decreases island@.len() - k,
    {
        let p = island[k];
        if p.x < min_x {
            min_x = p.x;
        }
        if p.x > max_x {
            max_x = p.x;
        }
        if p.y < min_y {
            min_y = p.y;
        }
        if p.y > max_y {
            max_y = p.y;
        }
        k += 1;
    }
    (min_x, max_x, min_y, max_y)
}

/// The membership mask of an island over its bounding box.
fn island_mask(island: &Vec<Position>, min_x: u8, max_x: u8, min_y: u8, max_y: u8) -> (mask: Vec<
    Vec<bool>,
>)
    requires
        min_x <= max_x,
        min_y <= max_y,
        forall|j: int|
            0 <= j < island@.len() ==> min_x <= (#[trigger] island@[j]).x <= max_x && min_y
                <= island@[j].y <= max_y,
    ensures
        mask_models(grid_of(mask), island@.to_set(), min_x as int, min_y as int),
        width(grid_of(mask)) == max_x - min_x + 1,
        height(grid_of(mask)) == max_y - min_y + 1,
{
    let ghost s = island@.to_set();
    let bw: usize = (max_x - min_x) as usize + 1;
    let bh: usize = (max_y - min_y) as usize + 1;
    let mut mask: Vec<Vec<bool>> = filled(bw, bh, false);
    let mut k: usize = 0;
    while k < island.len()
        invariant
            k <= island@.len(),
            bw == max_x - min_x + 1,
            bh == max_y - min_y + 1,
            rectangular(grid_of(mask)),
            width(grid_of(mask)) == bw,
            height(grid_of(mask)) == bh,
            forall|j: int|
                0 <= j < island@.len() ==> min_x <= (#[trigger] island@[j]).x <= max_x && min_y
                    <= island@[j].y <= max_y,
            forall|j: int| 0 <= j < k ==> #[trigger] mask_hit(grid_of(mask), island@[j], min_x as int, min_y as int),
            forall|x: int, y: int|
                in_grid(grid_of(mask), x, y) && #[trigger] grid_of(mask)[y][x] ==> exists|j: int|
                    0 <= j < k && island@[j].x == min_x + x && island@[j].y == min_y + y,
        decreases island@.len() - k,
    {
        let p = island[k];
        let ghost before = grid_of(mask);
        proof {
            lemma_put_shape(before, p.x - min_x, p.y - min_y, true);
        }
        set_cell(&mut mask, (p.x - min_x) as usize, (p.y - min_y) as usize, true);
        proof {
            let after = grid_of(mask);
            assert forall|j: int| 0 <= j < k + 1 implies #[trigger] mask_hit(
                after,
                island@[j],
                min_x as int,
                min_y as int,
            ) by {
                let q = island@[j];
                assert(in_grid(before, q.x - min_x, q.y - min_y));
                if j < k {
                    assert(mask_hit(before, island@[j], min_x as int, min_y as int));
                }
            }
            assert forall|x: int, y: int|
                in_grid(after, x, y) && #[trigger] after[y][x] implies exists|j: int|
                0 <= j < k + 1 && island@[j].x == min_x + x && island@[j].y == min_y + y by {
                assert(in_grid(before, x, y));
                if x == p.x - min_x && y == p.y - min_y {
                    assert(island@[k as int].x == min_x + x);
                } else {
                    assert(before[y][x]);
                    let j = choose|j: int|
                        0 <= j < k && island@[j].x == min_x + x && island@[j].y == min_y + y;
                    assert(0 <= j < k + 1);
                }
            }
        }
        k += 1;
    }
    proof {
        let m = grid_of(mask);
        assert forall|p: Position| #[trigger] s.contains(p) implies in_grid(
            m,
            p.x - min_x,
            p.y - min_y,
        ) && m[p.y - min_y][p.x - min_x] by {
            assert(island@.contains(p));
            let j = choose|j: int| 0 <= j < island@.len() && island@[j] == p;
            assert(mask_hit(m, island@[j], min_x as int, min_y as int));
        }
        assert forall|p: Position|
            in_grid(m, p.x - min_x, p.y - min_y) && m[p.y - min_y][p.x - min_x] implies #[trigger] s.contains(
            p,
        ) by {
            let x = p.x - min_x;
            let y = p.y - min_y;
            assert(m[y][x]);
            let j = choose|j: int|
                0 <= j < island@.len() && island@[j].x == min_x + x && island@[j].y == min_y + y;
            assert(island@[j] == p);
            assert(island@.contains(p));
        }
    }
    mask
}

/// The mask holds `true` at the place of the cell `p`.
spec fn mask_hit(mask: Seq<Seq<bool>>, p: Position, min_x: int, min_y: int) -> bool {
    mask[p.y - min_y][p.x - min_x]
}

/// Whether an island has room for a ship: whether some cell of it starts a
/// straight run of `ship_length` cells, rightward or downward, that stays
/// inside the island.
pub fn can_ship_fit_in_island(island: &Vec<Position>, ship_length: u8) -> (fits: bool)
    ensures
        fits == hosts_run(island@.to_set(), ship_length as int),
{
    let ghost s = island@.to_set();
    if island.len() == 0 {
        return false;
    }
    let (min_x, max_x, min_y, max_y) = bounding_box(island);
    let bw: usize = (max_x - min_x) as usize + 1;
    let bh: usize = (max_y - min_y) as usize + 1;
    if bh < ship_length as usize && bw < ship_length as usize {
        proof {
            if hosts_run(s, ship_length as int) {
                let (origin, horizontal) = choose|origin: Position, horizontal: bool|
                    s.contains(origin) && run_inside(s, origin, horizontal, ship_length as int);
                let last = run_cell(origin, horizontal, ship_length - 1);
                assert(run_step(s, origin, horizontal, ship_length - 1));
                assert(island@.contains(origin));
                assert(island@.contains(last));
            }
        }
        return false;
    }
    let mask = island_mask(island, min_x, max_x, min_y, max_y);
    let mut k: usize = 0;
    while k < island.len()
        invariant
            k <= island@.len(),
            s == island@.to_set(),
            mask_models(grid_of(mask), s, min_x as int, min_y as int),
            forall|j: int|
                0 <= j < k ==> !run_inside(s, #[trigger] island@[j], true, ship_length as int)
                    && !run_inside(s, island@[j], false, ship_length as int),
        decreases island@.len() - k,
    {
        let origin = island[k];
        proof {
            assert(island@.contains(origin));
        }
        if run_in_mask(&mask, island, min_x, min_y, origin, true, ship_length) {
            return true;
        }
        if run_in_mask(&mask, island, min_x, min_y, origin, false, ship_length) {
            return true;
        }
        k += 1;
    }
    proof {
        if hosts_run(s, ship_length as int) {
            let (origin, horizontal) = choose|origin: Position, horizontal: bool|
                s.contains(origin) && run_inside(s, origin, horizontal, ship_length as int);
            assert(island@.contains(origin));
            let j = choose|j: int| 0 <= j < island@.len() && island@[j] == origin;
            assert(!run_inside(s, island@[j], true, ship_length as int));
        }
    }
    false
}

/// The cell `p` lies on the mask and is marked there.
spec fn is_marked(v: Seq<Seq<bool>>, p: Position) -> bool {
    in_grid(v, p.x as int, p.y as int) && v[p.y as int][p.x as int]
}

spec fn mark_fn(v: Seq<Seq<bool>>) -> spec_fn(int, int) -> int {
    |x: int, y: int| if v[y][x] { 1int } else { 0int }
}

/// How many cells of a mask are marked.
spec fn marked_count(v: Seq<Seq<bool>>) -> int {
    grid_sum(mark_fn(v), width(v), height(v))
}

proof fn lemma_marked_count_bound(v: Seq<Seq<bool>>)
    requires
        0 <= width(v) <= 255,
    ensures
        0 <= marked_count(v) <= 255 * height(v),
{
    let f = mark_fn(v);
    assert forall|y: int| 0 <= y < height(v) implies 0 <= #[trigger] row_sum(f, y, width(v))
        <= 255 by {
        lemma_row_sum_bounds(f, y, width(v), 1);
    }
    lemma_grid_sum_bounds(f, width(v), height(v), 255);
}

proof fn lemma_mark_counts(v: Seq<Seq<bool>>, x: int, y: int)
    requires
        rectangular(v),
        in_grid(v, x, y),
        !v[y][x],
    ensures
        marked_count(put(v, x, y, true)) == marked_count(v) + 1,
{
    lemma_put_shape(v, x, y, true);
    lemma_grid_sum_point(mark_fn(v), mark_fn(put(v, x, y, true)), width(v), height(v), x, y);
}

/// Only open cells are marked.
spec fn marks_open(g: Grid, v: Seq<Seq<bool>>) -> bool {
    forall|p: Position| #[trigger] is_marked(v, p) ==> open_cell(g, p)
}

/// Whoever is marked has all its open neighbours marked.
spec fn marks_closed(g: Grid, v: Seq<Seq<bool>>) -> bool {
    forall|a: Position, b: Position|
        #![trigger is_marked(v, a), adjacent(a, b)]
        is_marked(v, a) && open_cell(g, b) && adjacent(a, b) ==> is_marked(v, b)
}

/// The mask has the shape of the grid.
spec fn same_shape(g: Grid, v: Seq<Seq<bool>>) -> bool {
    rectangular(v) && width(v) == width(g) && height(v) == height(g)
}

/// What holds of a flood fill from `seed` while it runs: `island` lists,
/// without repetition, cells that were unmarked in `v0` and are connected to
/// the seed, and `v` marks them on top of `v0`.
spec fn flooding(
    g: Grid,
    v0: Seq<Seq<bool>>,
    v: Seq<Seq<bool>>,
    island: Seq<Position>,
    seed: Position,
) -> bool {
    &&& well_formed(g)
    &&& same_shape(g, v0)
    &&& same_shape(g, v)
    &&& island.len() >= 1
    &&& island[0] == seed
    &&& island.no_duplicates()
    &&& forall|j: int|
        0 <= j < island.len() ==> open_cell(g, #[trigger] island[j]) && connected(
            g,
            seed,
            island[j],
        ) && !is_marked(v0, island[j])
    &&& forall|p: Position|
        #[trigger] is_marked(v, p) <==> (is_marked(v0, p) || island.contains(p))
}

/// Looks at one neighbour of a cell of the island: an open cell that is not
/// marked yet is marked and joins the island.
fn visit(
    board: &Board,
    visited: &mut Vec<Vec<bool>>,
    island: &mut Vec<Position>,
    from: Position,
    next: Position,
    Ghost(v0): Ghost<Seq<Seq<bool>>>,
    Ghost(seed): Ghost<Position>,
)
    requires
        flooding(grid_of(*board), v0, grid_of(*old(visited)), old(island)@, seed),
        connected(grid_of(*board), seed, from),
        adjacent(from, next),
        in_grid(grid_of(*board), next.x as int, next.y as int),
    ensures
        flooding(grid_of(*board), v0, grid_of(*final(visited)), final(island)@, seed),
        old(island)@.is_prefix_of(final(island)@),
        forall|p: Position|
            is_marked(grid_of(*old(visited)), p) ==> is_marked(grid_of(*final(visited)), p),
        open_cell(grid_of(*board), next) ==> is_marked(grid_of(*final(visited)), next),
        marked_count(grid_of(*final(visited))) >= marked_count(grid_of(*old(visited))),
        marked_count(grid_of(*final(visited))) > marked_count(grid_of(*old(visited)))
            || final(island)@ == old(island)@,
{
    let ghost g = grid_of(*board);
    let ghost v = grid_of(*visited);
    let x: usize = next.x as usize;
    let y: usize = next.y as usize;
    proof {
        assert(g[y as int].len() == width(g));
        assert(v[y as int].len() == width(v));
    }
    if board[y][x] != CellState::Miss && !visited[y][x] {
        proof {
            lemma_put_shape(v, x as int, y as int, true);
            lemma_mark_counts(v, x as int, y as int);
            lemma_connected_step(g, seed, from, next);
            assert(!is_marked(v, next));
            assert(!old(island)@.contains(next));
        }
        set_cell(visited, x, y, true);
        island.push(next);
        proof {
            let v1 = grid_of(*visited);
            let before = old(island)@;
            let after = island@;
            assert(after == before.push(next));
            assert forall|p: Position| #[trigger]
                is_marked(v1, p) <==> (is_marked(v0, p) || after.contains(p)) by {
                if in_grid(v, p.x as int, p.y as int) {
                    assert(v1[p.y as int][p.x as int] == (if p.x == x && p.y == y {
                        true
                    } else {
                        v[p.y as int][p.x as int]
                    }));
                }
                assert(is_marked(v, p) <==> (is_marked(v0, p) || before.contains(p)));
                if before.contains(p) {
                    let j = choose|j: int| 0 <= j < before.len() && before[j] == p;
                    assert(after[j] == p);
                }
                if p == next {
                    assert(after[before.len() as int] == p);
                }
            }
            assert forall|p: Position| is_marked(v, p) implies is_marked(v1, p) by {
                assert(v1[p.y as int][p.x as int] == (if p.x == x && p.y == y {
                    true
                } else {
                    v[p.y as int][p.x as int]
                }));
            }
            assert(is_marked(v1, next));
        }
    }
}

/// Once a flood fill has looked at the neighbours of all its cells, every
/// cell of a walk from the seed belongs to the island.
proof fn lemma_walk_stays(
    g: Grid,
    v0: Seq<Seq<bool>>,
    v: Seq<Seq<bool>>,
    island: Seq<Position>,
    seed: Position,
    path: Seq<Position>,
    i: int,
)
    requires
        flooding(g, v0, v, island, seed),
        marks_closed(g, v0),
        forall|j: int, b: Position|
            #![trigger adjacent(island[j], b)]
            0 <= j < island.len() && open_cell(g, b) && adjacent(island[j], b) ==> is_marked(v, b),
        is_path(g, path),
        path[0] == seed,
        0 <= i < path.len(),
    ensures
        island.contains(path[i]),
    decreases i,
{
    if i == 0 {
        assert(island[0] == path[0]);
    } else {
        lemma_walk_stays(g, v0, v, island, seed, path, i - 1);
        let a = path[i - 1];
        let b = path[i];
        assert(linked(path, i - 1));
        let j = choose|j: int| 0 <= j < island.len() && island[j] == a;
        assert(adjacent(island[j], b));
        assert(is_marked(v, b));
        if is_marked(v0, b) {
            assert(adjacent(b, a));
            assert(is_marked(v0, a));
        }
    }
}

/// Collects the island of `seed`, marking its cells as visited.
fn flood(board: &Board, visited: &mut Vec<Vec<bool>>, seed: Position) -> (island: Vec<Position>)
    requires
        well_formed(grid_of(*board)),
        same_shape(grid_of(*board), grid_of(*old(visited))),
        marks_open(grid_of(*board), grid_of(*old(visited))),
        marks_closed(grid_of(*board), grid_of(*old(visited))),
        open_cell(grid_of(*board), seed),
        !is_marked(grid_of(*old(visited)), seed),
    ensures
        same_shape(grid_of(*board), grid_of(*final(visited))),
        marks_open(grid_of(*board), grid_of(*final(visited))),
        marks_closed(grid_of(*board), grid_of(*final(visited))),
        island@.len() > 0,
        island@[0] == seed,
        island@.no_duplicates(),
        island@.to_set() == island_of(grid_of(*board), seed),
        forall|j: int|
            0 <= j < island@.len() ==> !is_marked(grid_of(*old(visited)), #[trigger] island@[j]),
        forall|p: Position|
            #[trigger] is_marked(grid_of(*final(visited)), p) <==> (is_marked(
                grid_of(*old(visited)),
                p,
            ) || island@.contains(p)),
{
    let ghost g = grid_of(*board);
    let ghost v0 = grid_of(*visited);
    let h: usize = board.len();
    let w: usize = board_width(board);
    let mut island: Vec<Position> = Vec::new();
    proof {
        lemma_put_shape(v0, seed.x as int, seed.y as int, true);
        lemma_connected_self(g, seed);
    }
    set_cell(visited, seed.x as usize, seed.y as usize, true);
    island.push(seed);
    proof {
        let v = grid_of(*visited);
        assert(island@ == seq![seed]);
        assert forall|p: Position| #[trigger]
            is_marked(v, p) <==> (is_marked(v0, p) || island@.contains(p)) by {
            if in_grid(v0, p.x as int, p.y as int) {
                assert(v[p.y as int][p.x as int] == (if p.x == seed.x && p.y == seed.y {
                    true
                } else {
                    v0[p.y as int][p.x as int]
                }));
            }
            if p == seed {
                assert(island@[0] == p);
            }
        }
        assert(flooding(g, v0, v, island@, seed));
    }
    let mut head: usize = 0;
    while head < island.len()
        invariant
            g == grid_of(*board),
            h == height(g),
            w == width(g),
            flooding(g, v0, grid_of(*visited), island@, seed),
            head <= island@.len(),
            forall|j: int, b: Position|
                #![trigger adjacent(island@[j], b)]
                0 <= j < head && open_cell(g, b) && adjacent(island@[j], b) ==> is_marked(
                    grid_of(*visited),
                    b,
                ),
        decreases 255 * height(g) - marked_count(grid_of(*visited)), island@.len() - head,
    {
        let current = island[head];
        let ghost before = island@;
        let ghost v_before = grid_of(*visited);
        proof {
            lemma_marked_count_bound(v_before);
        }
        if current.x > 0 {
            let next = Position { x: current.x - 1, y: current.y };
            visit(board, visited, &mut island, current, next, Ghost(v0), Ghost(seed));
        }
        if (current.x as usize) + 1 < w {
            let next = Position { x: current.x + 1, y: current.y };
            visit(board, visited, &mut island, current, next, Ghost(v0), Ghost(seed));
        }
        if current.y > 0 {
            let next = Position { x: current.x, y: current.y - 1 };
            visit(board, visited, &mut island, current, next, Ghost(v0), Ghost(seed));
        }
        if (current.y as usize) + 1 < h {
            let next = Position { x: current.x, y: current.y + 1 };
            visit(board, visited, &mut island, current, next, Ghost(v0), Ghost(seed));
        }
        proof {
            let v = grid_of(*visited);
            lemma_marked_count_bound(v);
            assert(before.is_prefix_of(island@));
            assert forall|j: int, b: Position|
                #![trigger adjacent(island@[j], b)]
                0 <= j < head + 1 && open_cell(g, b) && adjacent(island@[j], b) implies is_marked(
                v,
                b,
            ) by {
                assert(island@[j] == before[j]);
                if j < head {
                    assert(adjacent(before[j], b));
                    assert(is_marked(v_before, b));
                }
            }
        }
        head += 1;
    }
    proof {
        let v = grid_of(*visited);
        assert forall|b: Position| connected(g, seed, b) implies island@.contains(b) by {
            let path = choose|path: Seq<Position>| joins(g, path, seed, b);
            lemma_walk_stays(g, v0, v, island@, seed, path, path.len() - 1);
        }
        assert forall|b: Position| island@.contains(b) implies connected(g, seed, b) by {
            let j = choose|j: int| 0 <= j < island@.len() && island@[j] == b;
            assert(connected(g, seed, island@[j]));
        }
        assert(island@.to_set() =~= island_of(g, seed));
        assert forall|p: Position| #[trigger] is_marked(v, p) implies open_cell(g, p) by {
            if island@.contains(p) {
                let j = choose|j: int| 0 <= j < island@.len() && island@[j] == p;
                assert(open_cell(g, island@[j]));
            } else {
                assert(is_marked(v0, p));
            }
        }
        assert forall|a: Position, b: Position|
            #![trigger is_marked(v, a), adjacent(a, b)]
            is_marked(v, a) && open_cell(g, b) && adjacent(a, b) implies is_marked(v, b) by {
            if island@.contains(a) {
                let j = choose|j: int| 0 <= j < island@.len() && island@[j] == a;
                assert(adjacent(island@[j], b));
            } else {
                assert(is_marked(v0, a));
                assert(is_marked(v0, b));
            }
        }
    }
    island
}

/// `cells` lists, without repetition, exactly the cells of one island.
pub open spec fn is_island(g: Grid, cells: Seq<Position>) -> bool {
    &&& cells.len() > 0
    &&& cells.no_duplicates()
    &&& open_cell(g, cells[0])
    &&& cells.to_set() == island_of(g, cells[0])
}

/// Some island among the first `n` holds the cell `p`.
pub open spec fn covered(islands: Seq<Vec<Position>>, n: int, p: Position) -> bool {
    exists|i: int| 0 <= i < n && #[trigger] islands[i]@.contains(p)
}

/// The cell `p` comes before column `x` of row `y` in row-major order.
pub open spec fn scanned(p: Position, x: int, y: int) -> bool {
    p.y < y || (p.y == y && p.x < x)
}

/// The islands stand in the order of their first cells, and the first cell
/// of an island is the one that row-major order meets first.
pub open spec fn in_scan_order(islands: Seq<Vec<Position>>) -> bool {
    &&& forall|i: int, j: int|
        0 <= i < j < islands.len() ==> scanned(
            (#[trigger] islands[i])@[0],
            (#[trigger] islands[j])@[0].x as int,
            islands[j]@[0].y as int,
        )
    &&& forall|i: int, k: int|
        0 <= i < islands.len() && 0 <= k < islands[i]@.len() ==> !scanned(
            #[trigger] islands[i]@[k],
            islands[i]@[0].x as int,
            islands[i]@[0].y as int,
        )
}

/// What holds of the scan for islands while it runs.
spec fn scanning(g: Grid, v: Seq<Seq<bool>>, islands: Seq<Vec<Position>>) -> bool {
    &&& well_formed(g)
    &&& same_shape(g, v)
    &&& marks_open(g, v)
    &&& marks_closed(g, v)
    &&& forall|i: int| 0 <= i < islands.len() ==> is_island(g, (#[trigger] islands[i])@)
    &&& forall|p: Position| #[trigger] is_marked(v, p) <==> covered(islands, islands.len() as int, p)
    &&& forall|i: int, j: int|
        0 <= i < j < islands.len() ==> !(#[trigger] islands[i])@.contains((#[trigger] islands[j])@[0])
}

/// Splits the cells that are no `Miss` into islands: the classes of cells
/// that walks over such cells connect, each walk moving between cells that
/// share an edge.
pub fn find_islands(board: &Board) -> (islands: Vec<Vec<Position>>)
    requires
        well_formed(grid_of(*board)),
    ensures
        forall|i: int|
            0 <= i < islands@.len() ==> is_island(grid_of(*board), (#[trigger] islands@[i])@),
        forall|p: Position|
            #[trigger] open_cell(grid_of(*board), p) ==> covered(islands@, islands@.len() as int, p),
        forall|i: int, j: int|
            0 <= i < j < islands@.len() ==> !(#[trigger] islands@[i])@.contains(
                (#[trigger] islands@[j])@[0],
            ),
        in_scan_order(islands@),
{
    let ghost g = grid_of(*board);
    let h: usize = board.len();
    let w: usize = board_width(board);
    let mut visited: Vec<Vec<bool>> = filled(w, h, false);
    let mut islands: Vec<Vec<Position>> = Vec::new();
    proof {
        let v = grid_of(visited);
        assert(same_shape(g, v)) by {
            if h > 0 {
                assert(v[0].len() == w);
            }
        }
        assert forall|p: Position| !is_marked(v, p) by {
            if in_grid(v, p.x as int, p.y as int) {
                assert(v[p.y as int][p.x as int] == false);
            }
        }
    }
    let mut y: usize = 0;
    while y < h
        invariant
            g == grid_of(*board),
            h == height(g),
            w == width(g),
            y <= h,
            scanning(g, grid_of(visited), islands@),
            in_scan_order(islands@),
            forall|i: int| 0 <= i < islands@.len() ==> scanned((#[trigger] islands@[i])@[0], 0, y as int),
            forall|p: Position|
                #[trigger] open_cell(g, p) && scanned(p, 0, y as int) ==> is_marked(
                    grid_of(visited),
                    p,
                ),
        decreases h - y,
    {
        let mut x: usize = 0;
        while x < w
            invariant
                g == grid_of(*board),
                h == height(g),
                w == width(g),
                y < h,
                x <= w,
                scanning(g, grid_of(visited), islands@),
                in_scan_order(islands@),
                forall|i: int|
                    0 <= i < islands@.len() ==> scanned(
                        (#[trigger] islands@[i])@[0],
                        x as int,
                        y as int,
                    ),
                forall|p: Position|
                    #[trigger] open_cell(g, p) && scanned(p, x as int, y as int) ==> is_marked(
                        grid_of(visited),
                        p,
                    ),
            decreases w - x,
        {
            let seed = Position { x: x as u8, y: y as u8 };
            let ghost v = grid_of(visited);
            let ghost before = islands@;
            proof {
                assert(g[y as int].len() == w);
                assert(v[y as int].len() == w);
            }
            if board[y][x] != CellState::Miss && !visited[y][x] {
                let island = flood(board, &mut visited, seed);
                islands.push(island);
                proof {
                    let v1 = grid_of(visited);
                    let after = islands@;
                    let n = before.len() as int;
                    assert(after == before.push(island));
                    assert forall|i: int| 0 <= i < after.len() implies is_island(
                        g,
                        (#[trigger] after[i])@,
                    ) by {
                        if i < n {
                            assert(after[i] == before[i]);
                        }
                    }
                    assert forall|p: Position| #[trigger]
                        is_marked(v1, p) <==> covered(after, after.len() as int, p) by {
                        assert(is_marked(v, p) <==> covered(before, n, p));
                        if covered(before, n, p) {
                            let i = choose|i: int| 0 <= i < n && #[trigger] before[i]@.contains(p);
                            assert(after[i]@.contains(p));
                        }
                        if island@.contains(p) {
                            assert(after[n]@.contains(p));
                        }
                        if covered(after, after.len() as int, p) {
                            let i = choose|i: int|
                                0 <= i < after.len() && #[trigger] after[i]@.contains(p);
                            if i < n {
                                assert(before[i]@.contains(p));
                            }
                        }
                    }
                    assert forall|i: int, j: int| 0 <= i < j < after.len() implies !(
                    #[trigger] after[i])@.contains((#[trigger] after[j])@[0]) by {
                        if j < n {
                            assert(!before[i]@.contains(before[j]@[0]));
                        } else {
                            assert(!is_marked(v, seed));
                            if before[i]@.contains(seed) {
                                assert(covered(before, n, seed));
                            }
                        }
                    }
                    assert forall|i: int, j: int| 0 <= i < j < after.len() implies scanned(
                        (#[trigger] after[i])@[0],
                        (#[trigger] after[j])@[0].x as int,
                        after[j]@[0].y as int,
                    ) by {
                        if j < n {
                            assert(after[i] == before[i] && after[j] == before[j]);
                        } else {
                            assert(after[i] == before[i]);
                            assert(scanned(before[i]@[0], x as int, y as int));
                        }
                    }
                    assert forall|i: int, k: int|
                        0 <= i < after.len() && 0 <= k < after[i]@.len() implies !scanned(
                        #[trigger] after[i]@[k],
                        after[i]@[0].x as int,
                        after[i]@[0].y as int,
                    ) by {
                        if i < n {
                            assert(after[i] == before[i]);
                        } else {
                            let q = island@[k];
                            assert(!is_marked(v, q));
                            assert(island@.to_set().contains(q));
                            assert(connected(g, seed, q));
                            let path = choose|path: Seq<Position>| joins(g, path, seed, q);
                            assert(open_cell(g, path[path.len() - 1]));
                        }
                    }
                    assert forall|i: int| 0 <= i < after.len() implies scanned(
                        (#[trigger] after[i])@[0],
                        x + 1,
                        y as int,
                    ) by {
                        if i < n {
                            assert(after[i] == before[i]);
                            assert(scanned(before[i]@[0], x as int, y as int));
                        }
                    }
                    assert forall|p: Position|
                        #[trigger] open_cell(g, p) && scanned(p, x + 1, y as int) implies is_marked(
                        v1,
                        p,
                    ) by {
                        if p == seed {
                            assert(island@[0] == seed);
                            assert(island@.contains(seed));
                        } else {
                            assert(scanned(p, x as int, y as int));
                            assert(is_marked(v, p));
                        }
                    }
                }
            } else {
                proof {
                    assert forall|p: Position|
                        #[trigger] open_cell(g, p) && scanned(p, x + 1, y as int) implies is_marked(
                        v,
                        p,
                    ) by {
                        if p != seed {
                            assert(scanned(p, x as int, y as int));
                        }
                    }
                    assert forall|i: int| 0 <= i < before.len() implies scanned(
                        (#[trigger] before[i])@[0],
                        x + 1,
                        y as int,
                    ) by {
                        assert(scanned(before[i]@[0], x as int, y as int));
                    }
                }
            }
            x += 1;
        }
        proof {
            assert forall|p: Position|
                #[trigger] open_cell(g, p) && scanned(p, 0, y + 1) implies is_marked(
                grid_of(visited),
                p,
            ) by {
                assert(scanned(p, w as int, y as int));
            }
            assert forall|i: int| 0 <= i < islands@.len() implies scanned(
                (#[trigger] islands@[i])@[0],
                0,
                y + 1,
            ) by {
                assert(scanned(islands@[i]@[0], w as int, y as int));
            }
        }
        y += 1;
    }
    proof {
        assert forall|p: Position| #[trigger] open_cell(g, p) implies covered(
            islands@,
            islands@.len() as int,
            p,
        ) by {
            assert(scanned(p, 0, h as int));
            assert(is_marked(grid_of(visited), p));
        }
    }
    islands
}

/// The length of the shortest ship in a list of lengths, 0 for an empty list.
pub open spec fn shortest(lengths: Seq<u8>) -> int
    decreases lengths.len(),
{
    if lengths.len() == 0 {
        0
    } else if lengths.len() == 1 {
        lengths[0] as int
    } else {
        let rest = shortest(lengths.drop_last());
        if lengths.last() < rest {
            lengths.last() as int
        } else {
            rest
        }
    }
}

/// `shortest` is a member of a list that is not empty, and no member is
/// shorter.
pub proof fn lemma_shortest(lengths: Seq<u8>)
    requires
        lengths.len() > 0,
    ensures
        0 <= shortest(lengths) <= 255,
        exists|i: int| 0 <= i < lengths.len() && lengths[i] == shortest(lengths),
        forall|i: int| 0 <= i < lengths.len() ==> shortest(lengths) <= #[trigger] lengths[i],
    decreases lengths.len(),
{
    if lengths.len() == 1 {
        assert(lengths[0] == shortest(lengths));
    } else {
        let rest = lengths.drop_last();
        lemma_shortest(rest);
        let i = choose|i: int| 0 <= i < rest.len() && rest[i] == shortest(rest);
        assert(lengths[i] == rest[i]);
        if lengths.last() < shortest(rest) {
            assert(lengths[lengths.len() - 1] == shortest(lengths));
        } else {
            assert(lengths[i] == shortest(lengths));
        }
        assert forall|k: int| 0 <= k < lengths.len() implies shortest(lengths) <= #[trigger] lengths[k] by {
            if k < rest.len() {
                assert(rest[k] == lengths[k]);
            }
        }
    }
}

/// The island of the cell `p` has no room for a straight run of `len` cells.
pub open spec fn cramped(g: Grid, p: Position, len: int) -> bool {
    !hosts_run(island_of(g, p), len)
}

/// What the solver makes of one cell: an `Empty` cell of a cramped island
/// becomes a `Miss`, every other cell stays as it is.
pub open spec fn pruned_cell(g: Grid, x: int, y: int, len: int) -> CellState {
    if g[y][x] == CellState::Empty && cramped(g, Position { x: x as u8, y: y as u8 }, len) {
        CellState::Miss
    } else {
        g[y][x]
    }
}

/// The grid after the solver has pruned it for ships of at least `len` cells.
pub open spec fn pruned(g: Grid, len: int) -> Grid {
    Seq::new(g.len(), |y: int| Seq::new(g[y].len(), |x: int| pruned_cell(g, x, y, len)))
}

/// The smallest entry of a list of ship lengths, 0 for an empty list.
pub fn shortest_length(lengths: &[u8]) -> (min: u8)
    ensures
        min == shortest(lengths@),
{
    if lengths.len() == 0 {
        return 0;
    }
    let mut min: u8 = lengths[0];
    let mut k: usize = 1;
    proof {
        assert(lengths@.take(1) =~= seq![lengths@[0]]);
    }
    while k < lengths.len()
        invariant
            1 <= k <= lengths@.len(),
            min == shortest(lengths@.take(k as int)),
        decreases lengths@.len() - k,
    {
        proof {
            assert(lengths@.take(k + 1).drop_last() =~= lengths@.take(k as int));
        }
        if lengths[k] < min {
            min = lengths[k];
        }
        k += 1;
    }
    proof {
        assert(lengths@.take(k as int) =~= lengths@);
    }
    min
}

/// The state of the board while the solver works through the islands: the
/// cells of the first `n` islands are settled, and so are the first `k`
/// cells of `current`.
spec fn settling(
    g0: Grid,
    g: Grid,
    islands: Seq<Vec<Position>>,
    n: int,
    current: Seq<Position>,
    k: int,
    len: int,
) -> bool {
    &&& well_formed(g)
    &&& width(g) == width(g0)
    &&& height(g) == height(g0)
    &&& forall|x: int, y: int|
        in_grid(g0, x, y) ==> #[trigger] g[y][x] == {
            let p = Position { x: x as u8, y: y as u8 };
            if covered(islands, n, p) || (exists|j: int| 0 <= j < k && current[j] == p) {
                pruned_cell(g0, x, y, len)
            } else {
                g0[y][x]
            }
        }
}

/// Marks every `Empty` cell of an island as a `Miss`.
fn prune_island(
    board: &mut Board,
    island: &Vec<Position>,
    Ghost(g0): Ghost<Grid>,
    Ghost(islands): Ghost<Seq<Vec<Position>>>,
    Ghost(n): Ghost<int>,
    Ghost(len): Ghost<int>,
)
    requires
        well_formed(g0),
        settling(g0, grid_of(*old(board)), islands, n, island@, 0, len),
        0 <= n < islands.len(),
        islands[n] == *island,
        is_island(g0, island@),
        cramped(g0, island@[0], len),
    ensures
        settling(g0, grid_of(*final(board)), islands, n + 1, Seq::empty(), 0, len),
{
    let mut k: usize = 0;
    while k < island.len()
        invariant
            well_formed(g0),
            k <= island@.len(),
            0 <= n < islands.len(),
            islands[n] == *island,
            is_island(g0, island@),
            cramped(g0, island@[0], len),
            settling(g0, grid_of(*board), islands, n, island@, k as int, len),
        decreases island@.len() - k,
    {
        let p = island[k];
        let ghost g = grid_of(*board);
        proof {
            assert(island@.to_set().contains(p));
            assert(connected(g0, island@[0], p));
            lemma_same_island(g0, island@[0], p);
            assert(open_cell(g0, p)) by {
                let path = choose|path: Seq<Position>| joins(g0, path, island@[0], p);
                assert(open_cell(g0, path[path.len() - 1]));
            }
            assert(g[p.y as int].len() == width(g));
            assert(g0[p.y as int].len() == width(g0));
        }
        if board[p.y as usize][p.x as usize] == CellState::Empty {
            proof {
                lemma_put_shape(g, p.x as int, p.y as int, CellState::Miss);
            }
            set_cell(board, p.x as usize, p.y as usize, CellState::Miss);
        }
        proof {
            let g1 = grid_of(*board);
            assert forall|x: int, y: int| in_grid(g0, x, y) implies #[trigger] g1[y][x] == {
                let q = Position { x: x as u8, y: y as u8 };
                if covered(islands, n, q) || (exists|j: int| 0 <= j < k + 1 && island@[j] == q) {
                    pruned_cell(g0, x, y, len)
                } else {
                    g0[y][x]
                }
            } by {
                let q = Position { x: x as u8, y: y as u8 };
                assert(g[y][x] == {
                    if covered(islands, n, q) || (exists|j: int| 0 <= j < k && island@[j] == q) {
                        pruned_cell(g0, x, y, len)
                    } else {
                        g0[y][x]
                    }
                });
                if q == p {
                    assert(island@[k as int] == q);
                } else {
                    if exists|j: int| 0 <= j < k + 1 && island@[j] == q {
                        let j = choose|j: int| 0 <= j < k + 1 && island@[j] == q;
                        assert(0 <= j < k);
                    }
                }
            }
        }
        k += 1;
    }
    proof {
        let g1 = grid_of(*board);
        assert forall|x: int, y: int| in_grid(g0, x, y) implies #[trigger] g1[y][x] == {
            let q = Position { x: x as u8, y: y as u8 };
            if covered(islands, n + 1, q) || (exists|j: int|
                0 <= j < 0 && Seq::<Position>::empty()[j] == q) {
                pruned_cell(g0, x, y, len)
            } else {
                g0[y][x]
            }
        } by {
            let q = Position { x: x as u8, y: y as u8 };
            lemma_covered_next(islands, n, q);
            if island@.contains(q) {
                let j = choose|j: int| 0 <= j < island@.len() && island@[j] == q;
                assert(0 <= j < k);
            }
        }
    }
}

/// Being covered by the first `n + 1` islands means being covered by the
/// first `n` or lying in the island at index `n`.
proof fn lemma_covered_next(islands: Seq<Vec<Position>>, n: int, p: Position)
    requires
        0 <= n < islands.len(),
    ensures
        covered(islands, n + 1, p) <==> (covered(islands, n, p) || islands[n]@.contains(p)),
{
    if covered(islands, n + 1, p) {
        let i = choose|i: int| 0 <= i < n + 1 && #[trigger] islands[i]@.contains(p);
        if i < n {
            assert(covered(islands, n, p));
        }
    }
    if covered(islands, n, p) {
        let i = choose|i: int| 0 <= i < n && #[trigger] islands[i]@.contains(p);
        assert(0 <= i < n + 1);
    }
}

/// Prunes the known board: every `Empty` cell whose island has no room for
/// the shortest remaining ship becomes a `Miss`. No other cell changes, and
/// without remaining ships nothing does.
pub fn global_constraint_solver(board: &mut Board, remaining_ship_lengths: &[u8])
    requires
        well_formed(grid_of(*old(board))),
    ensures
        remaining_ship_lengths@.len() == 0 ==> grid_of(*final(board)) == grid_of(*old(board)),
        remaining_ship_lengths@.len() > 0 ==> grid_of(*final(board)) == pruned(
            grid_of(*old(board)),
            shortest(remaining_ship_lengths@),
        ),
        well_formed(grid_of(*final(board))),
        width(grid_of(*final(board))) == width(grid_of(*old(board))),
        height(grid_of(*final(board))) == height(grid_of(*old(board))),
{
    if remaining_ship_lengths.len() == 0 {
        return ;
    }
    let ghost g0 = grid_of(*board);
    let min_ship_length: u8 = shortest_length(remaining_ship_lengths);
    let ghost len = min_ship_length as int;
    let islands = find_islands(board);
    let mut n: usize = 0;
    while n < islands.len()
        invariant
            well_formed(g0),
            n <= islands@.len(),
            len == min_ship_length,
            forall|i: int| 0 <= i < islands@.len() ==> is_island(g0, (#[trigger] islands@[i])@),
            settling(g0, grid_of(*board), islands@, n as int, Seq::empty(), 0, len),
        decreases islands@.len() - n,
    {
        let island = &islands[n];
        proof {
            assert(is_island(g0, islands@[n as int]@));
        }
        if !can_ship_fit_in_island(island, min_ship_length) {
            prune_island(board, island, Ghost(g0), Ghost(islands@), Ghost(n as int), Ghost(len));
        } else {
            proof {
                let g = grid_of(*board);
                assert forall|x: int, y: int| in_grid(g0, x, y) implies #[trigger] g[y][x] == {
                    let q = Position { x: x as u8, y: y as u8 };
                    if covered(islands@, n + 1, q) || (exists|j: int|
                        0 <= j < 0 && Seq::<Position>::empty()[j] == q) {
                        pruned_cell(g0, x, y, len)
                    } else {
                        g0[y][x]
                    }
                } by {
                    let q = Position { x: x as u8, y: y as u8 };
                    lemma_covered_next(islands@, n as int, q);
                    if island@.contains(q) {
                        assert(island@.to_set().contains(q));
                        lemma_same_island(g0, island@[0], q);
                    }
                }
            }
        }
        n += 1;
    }
    proof {
        let g = grid_of(*board);
        let target = pruned(g0, len);
        assert forall|y: int| 0 <= y < g.len() implies #[trigger] g[y] =~= target[y] by {
            assert(g[y].len() == width(g));
            assert(g0[y].len() == width(g0));
            assert forall|x: int| 0 <= x < g[y].len() implies g[y][x] == target[y][x] by {
                assert(in_grid(g0, x, y));
                let q = Position { x: x as u8, y: y as u8 };
                if g0[y][x] == CellState::Empty {
                    assert(open_cell(g0, q));
                }
            }
        }
        assert(g =~= target);
    }
}

/// The straight run of `n` cells from `origin` lies on open cells of the grid:
/// a place where a ship of that length may still be.
pub open spec fn legal_run(g: Grid, origin: Position, horizontal: bool, n: int) -> bool {
    forall|i: int| 0 <= i < n ==> #[trigger] run_open(g, origin, horizontal, i)
}

/// The `i`-th cell of the run from `origin` exists and is open.
pub open spec fn run_open(g: Grid, origin: Position, horizontal: bool, i: int) -> bool {
    &&& (if horizontal {
        origin.x + i
    } else {
        origin.y + i
    }) <= 255
    &&& open_cell(g, run_cell(origin, horizontal, i))
}

/// The solver never changes a cell that is not `Empty`, never changes the
/// shape of the grid, and writes nothing but `Miss`.
pub proof fn lemma_solver_monotone(g: Grid, len: int, x: int, y: int)
    requires
        in_grid(g, x, y),
        rectangular(g),
    ensures
        height(pruned(g, len)) == height(g),
        width(pruned(g, len)) == width(g),
        rectangular(pruned(g, len)),
        g[y][x] != CellState::Empty ==> pruned(g, len)[y][x] == g[y][x],
        pruned(g, len)[y][x] == g[y][x] || pruned(g, len)[y][x] == CellState::Miss,
        pruned(g, len)[y][x] == CellState::Hit ==> g[y][x] == CellState::Hit,
        pruned(g, len)[y][x] == CellState::Sunk ==> g[y][x] == CellState::Sunk,
{
    let t = pruned(g, len);
    assert(g[y].len() == width(g));
    assert(g[0].len() == width(g));
    assert(t[0].len() == width(g));
    assert forall|r: int| 0 <= r < t.len() implies (#[trigger] t[r]).len() == width(t) by {
        assert(g[r].len() == width(g));
    }
}

/// The cells of a legal run are connected to each other.
proof fn lemma_run_connected(g: Grid, origin: Position, horizontal: bool, n: int, i: int, j: int)
    requires
        legal_run(g, origin, horizontal, n),
        0 <= i <= j < n,
    ensures
        connected(g, run_cell(origin, horizontal, i), run_cell(origin, horizontal, j)),
    decreases j - i,
{
    assert(run_open(g, origin, horizontal, i));
    assert(run_open(g, origin, horizontal, j));
    if i == j {
        lemma_connected_self(g, run_cell(origin, horizontal, i));
    } else {
        lemma_run_connected(g, origin, horizontal, n, i, j - 1);
        assert(run_open(g, origin, horizontal, j - 1));
        lemma_connected_step(
            g,
            run_cell(origin, horizontal, i),
            run_cell(origin, horizontal, j - 1),
            run_cell(origin, horizontal, j),
        );
    }
}

/// The solver is sound: a cell that it turns into a `Miss` lies on no legal
/// run of any remaining ship.
pub proof fn lemma_solver_sound(
    g: Grid,
    lengths: Seq<u8>,
    x: int,
    y: int,
    origin: Position,
    horizontal: bool,
    k: int,
    i: int,
)
    requires
        well_formed(g),
        in_grid(g, x, y),
        lengths.len() > 0,
        g[y][x] != CellState::Miss,
        pruned(g, shortest(lengths))[y][x] == CellState::Miss,
        0 <= k < lengths.len(),
        legal_run(g, origin, horizontal, lengths[k] as int),
        0 <= i < lengths[k],
    ensures
        run_cell(origin, horizontal, i) != (Position { x: x as u8, y: y as u8 }),
{
    let p = Position { x: x as u8, y: y as u8 };
    let len = shortest(lengths);
    let n = lengths[k] as int;
    lemma_shortest(lengths);
    assert(g[y].len() == width(g));
    assert(pruned(g, len)[y][x] == pruned_cell(g, x, y, len));
    assert(cramped(g, p, len));
    if run_cell(origin, horizontal, i) == p {
        let s = island_of(g, p);
        assert forall|j: int| 0 <= j < n implies s.contains(run_cell(origin, horizontal, j)) by {
            if j <= i {
                lemma_run_connected(g, origin, horizontal, n, j, i);
                lemma_connected_symmetric(g, run_cell(origin, horizontal, j), p);
            } else {
                lemma_run_connected(g, origin, horizontal, n, i, j);
            }
        }
        assert(s.contains(run_cell(origin, horizontal, 0)));
        assert(run_cell(origin, horizontal, 0) == origin);
        assert forall|j: int| 0 <= j < len implies #[trigger] run_step(s, origin, horizontal, j) by {
            assert(run_open(g, origin, horizontal, j));
            assert(s.contains(run_cell(origin, horizontal, j)));
        }
        assert(run_inside(s, origin, horizontal, len));
        assert(hosts_run(s, len));
    }
}

/// Whether a ship of `length` cells may still lie at column `x`, row `y`,
/// rightward or downward: it has to stay on the board and off every `Miss`.
pub fn can_place_ship_at(board: &Board, y: usize, x: usize, length: u8, is_horizontal: bool) -> (ok: bool)
    requires
        well_formed(grid_of(*board)),
        in_grid(grid_of(*board), x as int, y as int),
    ensures
        ok == legal_run(
            grid_of(*board),
            Position { x: x as u8, y: y as u8 },
            is_horizontal,
            length as int,
        ),
{
    let ghost g = grid_of(*board);
    let ghost origin = Position { x: x as u8, y: y as u8 };
    let h: usize = board.len();
    let w: usize = board_width(board);
    let len: usize = length as usize;
    if len == 0 {
        return true;
    }
    if (is_horizontal && x + len > w) || (!is_horizontal && y + len > h) {
        proof {
            assert(!run_open(g, origin, is_horizontal, len - 1));
        }
        return false;
    }
    let mut i: usize = 0;
    while i < len
        invariant
            g == grid_of(*board),
            well_formed(g),
            origin == (Position { x: x as u8, y: y as u8 }),
            in_grid(g, x as int, y as int),
            h == height(g),
            w == width(g),
            len == length,
            i <= len,
            is_horizontal ==> x + len <= w,
            !is_horizontal ==> y + len <= h,
            forall|j: int| 0 <= j < i ==> #[trigger] run_open(g, origin, is_horizontal, j),
        decreases len - i,
    {
        let cx: usize = if is_horizontal { x + i } else { x };
        let cy: usize = if is_horizontal { y } else { y + i };
        proof {
            assert(g[cy as int].len() == w);
            assert(run_cell(origin, is_horizontal, i as int) == Position { x: cx as u8, y: cy as u8 });
        }
        if board[cy][cx] == CellState::Miss {
            proof {
                assert(!run_open(g, origin, is_horizontal, i as int));
            }
            return false;
        }
        i += 1;
    }
    true
}

} // verus!
