//! The hunter: the ensemble of hypothesis layouts, the known board, and the
//! choice of the next shot.

use vstd::prelude::*;
use rand::rngs::StdRng;
use crate::alpha_beta::{first_best, get_possible_moves, possible_moves, verify_best_moves};
use crate::alpha_beta::lemma_moves_upto;
use crate::grid::{Board, CellState, Grid, Position, Ship};
use crate::grid::{board_width, is_well_formed, new_board, set_cell};
use crate::grid::{empty_grid, grid_of, height, in_grid, put, well_formed, width};
use crate::grid::lemma_put_shape;
use crate::layout::{generate_layout_with, is_layout_for};
use crate::layout::{effortless, occupied, shaped};
use crate::random::{seeded_rng, system_rng, FALLBACK_SEED};
use crate::ranking::{is_top, select_top};
use crate::ranking::lemma_top_unique;
use crate::solver::{global_constraint_solver, pruned, shortest};
use crate::solver::lemma_solver_monotone;

verus! {

/// How many layouts the ensemble aims to hold.
pub const HYPOTHESIS_TARGET: usize = 20_000;

/// The ensemble is refilled when it holds fewer layouts than this.
pub const HYPOTHESIS_THRESHOLD: usize = 15_000;

/// How many candidates the scorer hands to the tactical verifier.
pub const TOP_CANDIDATES: usize = 5;

/// The scores of an ensemble of `total` layouts fit the machine integer that
/// holds them: a score is at most `10 * total`.
pub open spec fn countable(total: int) -> bool {
    10 * total <= u64::MAX
}

/// Why a shot result was rejected.
#[derive(Clone, Copy, Debug, PartialEq, Eq, Structural)]
pub enum InvalidObservation {
    /// The cell does not lie on the grid.
    OutsideGrid,
    /// The known board already holds a `Miss` where a ship is now reported,
    /// or a ship where a `Miss` is now reported.
    Contradiction,
}

/// The grid is well-formed and has `w` columns and `h` rows.
pub open spec fn has_dims(g: Grid, w: int, h: int) -> bool {
    &&& well_formed(g)
    &&& height(g) == h
    &&& h > 0 ==> width(g) == w
}

/// A layout agrees with what was observed at one cell: it is free where a
/// `Miss` was seen and holds a ship where a `Hit` or `Sunk` was seen.
pub open spec fn agrees(layout: Grid, x: int, y: int, result: CellState) -> bool {
    match result {
        CellState::Miss => layout[y][x] == CellState::Empty,
        CellState::Hit | CellState::Sunk => layout[y][x] == CellState::Sunk,
        CellState::Empty => true,
    }
}

/// A layout agrees with every cell of the known board.
pub open spec fn consistent(layout: Grid, known: Grid) -> bool {
    forall|x: int, y: int| in_grid(known, x, y) ==> #[trigger] agrees(layout, x, y, known[y][x])
}

/// A new result cannot be true of a cell with this recorded state: a ship
/// where a `Miss` is recorded, or a `Miss` where a ship is.
pub open spec fn contradicts(recorded: CellState, result: CellState) -> bool {
    (recorded == CellState::Miss && result.spec_is_ship()) || (recorded.spec_is_ship() && result
        == CellState::Miss)
}

/// The recorded state bears out an earlier result.
pub open spec fn confirms(recorded: CellState, result: CellState) -> bool {
    &&& result == CellState::Miss ==> recorded == CellState::Miss
    &&& result.spec_is_ship() ==> recorded.spec_is_ship()
}

/// Whether a layout agrees with one observation.
pub fn layout_agrees(layout: &Board, pos: Position, result: CellState) -> (ok: bool)
    requires
        well_formed(grid_of(*layout)),
        in_grid(grid_of(*layout), pos.x as int, pos.y as int),
    ensures
        ok == agrees(grid_of(*layout), pos.x as int, pos.y as int, result),
{
    proof {
        assert(grid_of(*layout)[pos.y as int].len() == width(grid_of(*layout)));
    }
    let held: CellState = layout[pos.y as usize][pos.x as usize];
    match result {
        CellState::Miss => held == CellState::Empty,
        CellState::Hit => held == CellState::Sunk,
        CellState::Sunk => held == CellState::Sunk,
        CellState::Empty => true,
    }
}

/// Whether a layout agrees with every cell of the known board.
pub fn is_consistent(layout: &Board, known: &Board) -> (ok: bool)
    requires
        well_formed(grid_of(*known)),
        well_formed(grid_of(*layout)),
        height(grid_of(*layout)) == height(grid_of(*known)),
        width(grid_of(*layout)) == width(grid_of(*known)),
    ensures
        ok == consistent(grid_of(*layout), grid_of(*known)),
{
    let ghost k = grid_of(*known);
    let ghost l = grid_of(*layout);
    let h: usize = known.len();
    let w: usize = board_width(known);
    let mut y: usize = 0;
    while y < h
        invariant
            k == grid_of(*known),
            l == grid_of(*layout),
            well_formed(k),
            well_formed(l),
            height(l) == height(k),
            width(l) == width(k),
            h == height(k),
            w == width(k),
            y <= h,
            forall|ax: int, ay: int|
                0 <= ax < w && 0 <= ay < y ==> #[trigger] agrees(l, ax, ay, k[ay][ax]),
        decreases h - y,
    {
        let mut x: usize = 0;
        while x < w
            invariant
                k == grid_of(*known),
                l == grid_of(*layout),
                well_formed(k),
                well_formed(l),
                height(l) == height(k),
                width(l) == width(k),
                h == height(k),
                w == width(k),
                y < h,
                x <= w,
                forall|ax: int, ay: int|
                    0 <= ax < w && 0 <= ay < y ==> #[trigger] agrees(l, ax, ay, k[ay][ax]),
                forall|ax: int| 0 <= ax < x ==> #[trigger] agrees(l, ax, y as int, k[y as int][ax]),
            decreases w - x,
        {
            proof {
                assert(k[y as int].len() == w);
                assert(l[y as int].len() == w);
            }
            let seen: CellState = known[y][x];
            if !layout_agrees(layout, Position { x: x as u8, y: y as u8 }, seen) {
                proof {
                    assert(in_grid(k, x as int, y as int));
                    assert(!agrees(l, x as int, y as int, k[y as int][x as int]));
                }
                return false;
            }
            x += 1;
        }
        y += 1;
    }
    true
}

/// The layouts among the first `n` that agree with an observation, in their
/// order.
pub open spec fn kept(layouts: Seq<Board>, n: int, x: int, y: int, result: CellState) -> Seq<Board>
    decreases n,
{
    if n <= 0 {
        Seq::empty()
    } else if agrees(grid_of(layouts[n - 1]), x, y, result) {
        kept(layouts, n - 1, x, y, result).push(layouts[n - 1])
    } else {
        kept(layouts, n - 1, x, y, result)
    }
}

/// Every layout that is kept was there before, and agrees.
pub proof fn lemma_kept(layouts: Seq<Board>, n: int, x: int, y: int, result: CellState)
    requires
        0 <= n <= layouts.len(),
    ensures
        kept(layouts, n, x, y, result).len() <= n,
        forall|i: int|
            0 <= i < kept(layouts, n, x, y, result).len() ==> {
                let l = #[trigger] kept(layouts, n, x, y, result)[i];
                agrees(grid_of(l), x, y, result) && exists|j: int| 0 <= j < n && layouts[j] == l
            },
    decreases n,
{
    if n > 0 {
        lemma_kept(layouts, n - 1, x, y, result);
        let prev = kept(layouts, n - 1, x, y, result);
        let cur = kept(layouts, n, x, y, result);
        assert forall|i: int| 0 <= i < cur.len() implies {
            let l = #[trigger] cur[i];
            agrees(grid_of(l), x, y, result) && exists|j: int| 0 <= j < n && layouts[j] == l
        } by {
            if i < prev.len() {
                let l = prev[i];
                let j = choose|j: int| 0 <= j < n - 1 && layouts[j] == l;
                assert(0 <= j < n && layouts[j] == l);
            } else {
                assert(layouts[n - 1] == cur[i]);
            }
        }
    }
}

/// Keeps the layouts that agree with an observation, in their order.
pub fn retain_agreeing(layouts: Vec<Board>, pos: Position, result: CellState) -> (out: Vec<Board>)
    requires
        forall|i: int|
            0 <= i < layouts@.len() ==> well_formed(grid_of(#[trigger] layouts@[i])) && in_grid(
                grid_of(layouts@[i]),
                pos.x as int,
                pos.y as int,
            ),
    ensures
        out@ == kept(layouts@, layouts@.len() as int, pos.x as int, pos.y as int, result),
{
    let ghost all = layouts@;
    let mut out: Vec<Board> = Vec::new();
    for layout in it: layouts
        invariant
            it.seq() == all,
            forall|i: int|
                0 <= i < all.len() ==> well_formed(grid_of(#[trigger] all[i])) && in_grid(
                    grid_of(all[i]),
                    pos.x as int,
                    pos.y as int,
                ),
            out@ == kept(all, it.index() as int, pos.x as int, pos.y as int, result),
    {
        if layout_agrees(&layout, pos, result) {
            out.push(layout);
        }
    }
    out
}

/// In how many of the first `n` layouts a ship lies on the cell `(x, y)`.
pub open spec fn heat(layouts: Seq<Board>, n: int, x: int, y: int) -> int
    decreases n,
{
    if n <= 0 {
        0
    } else {
        heat(layouts, n - 1, x, y) + (if grid_of(layouts[n - 1])[y][x] == CellState::Sunk {
            1int
        } else {
            0
        })
    }
}

/// The length of the longest ship in a list of lengths, 0 for an empty list.
pub open spec fn longest(lengths: Seq<u8>) -> int
    decreases lengths.len(),
{
    if lengths.len() == 0 {
        0
    } else {
        let rest = longest(lengths.drop_last());
        if lengths.last() > rest {
            lengths.last() as int
        } else {
            rest
        }
    }
}

/// The combined score of a cell, times `10 * total`, so that it is a whole
/// number.
///
/// With `p = heat / total` the value of information is `1 - |2p - 1|`, and
/// the score weighs it against `p` itself: `0.8` to `0.2` while a ship of
/// four or more cells is left, evenly after that. Within one ensemble the
/// scaled scores order the cells as the scores themselves do.
pub open spec fn scaled_score(heat: int, total: int, largest: int) -> int {
    let spread = if 2 * heat >= total { 2 * heat - total } else { total - 2 * heat };
    let information = total - spread;
    if largest >= 4 {
        8 * information + 2 * heat
    } else {
        5 * information + 5 * heat
    }
}

/// Counts the layouts that hold a ship on one cell.
pub fn heat_at(layouts: &Vec<Board>, pos: Position) -> (count: usize)
    requires
        forall|i: int|
            0 <= i < layouts@.len() ==> well_formed(grid_of(#[trigger] layouts@[i])) && in_grid(
                grid_of(layouts@[i]),
                pos.x as int,
                pos.y as int,
            ),
    ensures
        count == heat(layouts@, layouts@.len() as int, pos.x as int, pos.y as int),
        count <= layouts@.len(),
{
    let mut count: usize = 0;
    let mut n: usize = 0;
    while n < layouts.len()
        invariant
            n <= layouts@.len(),
            count <= n,
            count == heat(layouts@, n as int, pos.x as int, pos.y as int),
            forall|i: int|
                0 <= i < layouts@.len() ==> well_formed(grid_of(#[trigger] layouts@[i])) && in_grid(
                    grid_of(layouts@[i]),
                    pos.x as int,
                    pos.y as int,
                ),
        decreases layouts@.len() - n,
    {
        proof {
            let l = grid_of(layouts@[n as int]);
            assert(well_formed(l));
            assert(l[pos.y as int].len() == width(l));
        }
        if layouts[n][pos.y as usize][pos.x as usize] == CellState::Sunk {
            count += 1;
        }
        n += 1;
    }
    count
}

/// The longest ship length in a list, 0 for an empty list.
pub fn longest_length(lengths: &Vec<u8>) -> (max: u8)
    ensures
        max == longest(lengths@),
{
    let mut max: u8 = 0;
    let mut k: usize = 0;
    proof {
        assert(lengths@.take(0) =~= Seq::<u8>::empty());
    }
    while k < lengths.len()
        invariant
            k <= lengths@.len(),
            max == longest(lengths@.take(k as int)),
        decreases lengths@.len() - k,
    {
        proof {
            assert(lengths@.take(k + 1).drop_last() =~= lengths@.take(k as int));
        }
        if lengths[k] > max {
            max = lengths[k];
        }
        k += 1;
    }
    proof {
        assert(lengths@.take(k as int) =~= lengths@);
    }
    max
}

/// The combined score of a cell, times `10 * total`.
pub fn score_of(heat: usize, total: usize, largest: u8) -> (score: u64)
    requires
        heat <= total,
        countable(total as int),
    ensures
        score == scaled_score(heat as int, total as int, largest as int),
{
    let h: u64 = heat as u64;
    let t: u64 = total as u64;
    let spread: u64 = if 2 * h >= t { 2 * h - t } else { t - 2 * h };
    let information: u64 = t - spread;
    if largest >= 4 {
        8 * information + 2 * h
    } else {
        5 * information + 5 * h
    }
}

/// The scores of the candidate cells, in the order of the candidates.
pub open spec fn candidate_scores(layouts: Seq<Board>, cells: Seq<Position>, largest: int) -> Seq<u64> {
    Seq::new(
        cells.len(),
        |i: int|
            scaled_score(
                heat(layouts, layouts.len() as int, cells[i].x as int, cells[i].y as int),
                layouts.len() as int,
                largest,
            ) as u64,
    )
}

/// The picked candidates as shots, best first.
pub open spec fn shots(cells: Seq<Position>, top: Seq<usize>) -> Seq<(u8, u8)> {
    Seq::new(top.len(), |i: int| (cells[top[i] as int].x, cells[top[i] as int].y))
}

/// What the solver makes of a board for a list of remaining ships.
pub open spec fn solved(g: Grid, lengths: Seq<u8>) -> Grid {
    if lengths.len() == 0 {
        g
    } else {
        pruned(g, shortest(lengths))
    }
}

/// The decision state of one game: the known board, the ensemble of
/// hypothesis layouts, and the ships that are still afloat.
pub struct QuantumHunter {
    all_possible_layouts: Vec<Board>,
    known_board: Board,
    remaining_ship_lengths: Vec<u8>,
    width: u8,
    height: u8,
    target: usize,
    threshold: usize,
    rng: StdRng,
    observations: Ghost<Seq<(Position, CellState)>>,
}

impl QuantumHunter {
    /// The known board.
    pub closed spec fn known(&self) -> Grid {
        grid_of(self.known_board)
    }

    /// The layouts of the ensemble, in order.
    pub closed spec fn ensemble(&self) -> Seq<Board> {
        self.all_possible_layouts@
    }

    /// The lengths of the ships that are not sunk yet.
    pub closed spec fn remaining(&self) -> Seq<u8> {
        self.remaining_ship_lengths@
    }

    /// The shot results that were accepted, in the order of their arrival.
    pub closed spec fn observed(&self) -> Seq<(Position, CellState)> {
        self.observations@
    }

    /// The number of columns of the grid.
    pub closed spec fn cols(&self) -> int {
        self.width as int
    }

    /// The number of rows of the grid.
    pub closed spec fn rows(&self) -> int {
        self.height as int
    }

    /// The size the ensemble is filled up to.
    pub closed spec fn goal(&self) -> int {
        self.target as int
    }

    /// The size below which the ensemble is refilled after a shot.
    pub closed spec fn floor(&self) -> int {
        self.threshold as int
    }

    /// The known board, the ensemble, the remaining ships, the accepted
    /// observations and the limits are those of `other`: the two hunters
    /// differ at most in what their random sources hold.
    pub open spec fn same_state(&self, other: &QuantumHunter) -> bool {
        &&& self.known() == other.known()
        &&& self.ensemble() == other.ensemble()
        &&& self.remaining() == other.remaining()
        &&& self.observed() == other.observed()
        &&& self.cols() == other.cols()
        &&& self.rows() == other.rows()
        &&& self.goal() == other.goal()
        &&& self.floor() == other.floor()
    }

    /// The invariant of the hunter: the boards have the dimensions of the
    /// game, the ensemble holds no more layouts than its target, every layout
    /// agrees with every accepted observation, and the known board bears
    /// every observation out.
    pub open spec fn wf(&self) -> bool {
        &&& has_dims(self.known(), self.cols(), self.rows())
        &&& forall|i: int|
            0 <= i < self.ensemble().len() ==> has_dims(
                grid_of(#[trigger] self.ensemble()[i]),
                self.cols(),
                self.rows(),
            )
        &&& self.ensemble().len() <= self.goal()
        &&& countable(self.goal())
        &&& forall|i: int, k: int|
            0 <= i < self.ensemble().len() && 0 <= k < self.observed().len() ==> agrees(
                grid_of(#[trigger] self.ensemble()[i]),
                (#[trigger] self.observed()[k]).0.x as int,
                self.observed()[k].0.y as int,
                self.observed()[k].1,
            )
        &&& forall|k: int|
            0 <= k < self.observed().len() ==> {
                let o = #[trigger] self.observed()[k];
                in_grid(self.known(), o.0.x as int, o.0.y as int) && confirms(
                    self.known()[o.0.y as int][o.0.x as int],
                    o.1,
                )
            }
    }

    /// A hunter with an empty ensemble, the given limits and random source.
    fn assemble(
        width: u8,
        height: u8,
        remaining_ship_lengths: Vec<u8>,
        rng: StdRng,
        target: usize,
        threshold: usize,
    ) -> (hunter: QuantumHunter)
        requires
            countable(target as int),
        ensures
            hunter.wf(),
            hunter.known() == empty_grid(width as int, height as int),
            hunter.ensemble().len() == 0,
            hunter.remaining() == remaining_ship_lengths@,
            hunter.observed().len() == 0,
            hunter.cols() == width,
            hunter.rows() == height,
            hunter.goal() == target,
            hunter.floor() == threshold,
    {
        QuantumHunter {
            all_possible_layouts: Vec::new(),
            known_board: new_board(width, height),
            remaining_ship_lengths,
            width,
            height,
            target,
            threshold,
            rng,
            observations: Ghost(Seq::empty()),
        }
    }

    /// A hunter for a board without ships to hunt and without hypotheses:
    /// the known board is empty, and so are the ensemble and the list of
    /// remaining ships. With no ship to place it never draws, so its random
    /// source is seeded with a constant.
    pub fn new_empty(width: u8, height: u8) -> (hunter: QuantumHunter)
        ensures
            hunter.wf(),
            hunter.known() == empty_grid(width as int, height as int),
            hunter.ensemble().len() == 0,
            hunter.remaining().len() == 0,
            hunter.observed().len() == 0,
            hunter.cols() == width,
            hunter.rows() == height,
            hunter.goal() == HYPOTHESIS_TARGET,
            hunter.floor() == HYPOTHESIS_THRESHOLD,
    {
        QuantumHunter::assemble(
            width,
            height,
            Vec::new(),
            seeded_rng(FALLBACK_SEED),
            HYPOTHESIS_TARGET,
            HYPOTHESIS_THRESHOLD,
        )
    }

    /// The known board.
    pub fn known_board(&self) -> (board: &Board)
        ensures
            grid_of(*board) == self.known(),
    {
        &self.known_board
    }

    /// The layouts of the ensemble.
    pub fn layouts(&self) -> (layouts: &Vec<Board>)
        ensures
            layouts@ == self.ensemble(),
    {
        &self.all_possible_layouts
    }

    /// The lengths of the ships that are not sunk yet.
    pub fn remaining_ship_lengths(&self) -> (lengths: &Vec<u8>)
        ensures
            lengths@ == self.remaining(),
    {
        &self.remaining_ship_lengths
    }
}

/// A copy of a list of ship lengths.
fn copy_lengths(lengths: &[u8]) -> (copy: Vec<u8>)
    ensures
        copy@ == lengths@,
{
    let mut copy: Vec<u8> = Vec::new();
    let mut k: usize = 0;
    while k < lengths.len()
        invariant
            k <= lengths@.len(),
            copy@ == lengths@.take(k as int),
        decreases lengths@.len() - k,
    {
        copy.push(lengths[k]);
        proof {
            assert(lengths@.take(k + 1) =~= lengths@.take(k as int).push(lengths@[k as int]));
        }
        k += 1;
    }
    proof {
        assert(lengths@.take(k as int) =~= lengths@);
    }
    copy
}

/// A layout that the refill may add: it agrees with the whole known board
/// and is the layout of a legal fleet of the remaining ships.
pub open spec fn fresh(layout: Board, known: Grid, lengths: Seq<u8>, w: int, h: int) -> bool {
    &&& consistent(grid_of(layout), known)
    &&& exists|ships: Seq<Ship>| is_layout_for(grid_of(layout), ships, lengths, w, h)
}

/// A layout that agrees with the known board agrees with every observation
/// that the board bears out.
proof fn lemma_consistent_agrees(layout: Grid, known: Grid, o: (Position, CellState))
    requires
        consistent(layout, known),
        in_grid(known, o.0.x as int, o.0.y as int),
        confirms(known[o.0.y as int][o.0.x as int], o.1),
    ensures
        agrees(layout, o.0.x as int, o.0.y as int, o.1),
{
    let x = o.0.x as int;
    let y = o.0.y as int;
    assert(agrees(layout, x, y, known[y][x]));
}

/// No cell of the board is known to hold a ship.
pub open spec fn no_ship_seen(known: Grid) -> bool {
    forall|x: int, y: int| in_grid(known, x, y) ==> !(#[trigger] known[y][x]).spec_is_ship()
}

/// The layout of a fleet without cells agrees with a board on which no ship
/// was seen.
proof fn lemma_blank_layout(layout: Grid, ships: Seq<Ship>, lengths: Seq<u8>, known: Grid, w: int, h: int)
    requires
        is_layout_for(layout, ships, lengths, w, h),
        effortless(w, h, lengths),
        has_dims(known, w, h),
        no_ship_seen(known),
    ensures
        consistent(layout, known),
{
    assert forall|x: int, y: int| in_grid(known, x, y) implies #[trigger] agrees(
        layout,
        x,
        y,
        known[y][x],
    ) by {
        let p = Position { x: x as u8, y: y as u8 };
        assert(in_grid(layout, x, y));
        if occupied(ships, p) {
            let (i, j) = choose|i: int, j: int|
                0 <= i < ships.len() && 0 <= j < ships[i].positions@.len()
                    && #[trigger] ships[i].positions@[j] == p;
            assert(shaped(ships[i]));
            assert(ships[i].length == lengths[i]);
        }
        assert(layout[y][x] == CellState::Empty);
        assert(!known[y][x].spec_is_ship());
    }
}

impl QuantumHunter {
    /// Fills the ensemble up towards its target: one attempt at a random
    /// layout for every layout that is missing, and every layout that comes
    /// out and agrees with the known board is added.
    fn regenerate_hypotheses(&mut self)
        requires
            old(self).wf(),
        ensures
            final(self).wf(),
            final(self).known() == old(self).known(),
            final(self).remaining() == old(self).remaining(),
            final(self).observed() == old(self).observed(),
            final(self).cols() == old(self).cols(),
            final(self).rows() == old(self).rows(),
            final(self).goal() == old(self).goal(),
            final(self).floor() == old(self).floor(),
            old(self).ensemble().is_prefix_of(final(self).ensemble()),
            forall|i: int|
                old(self).ensemble().len() <= i < final(self).ensemble().len() ==> fresh(
                    #[trigger] final(self).ensemble()[i],
                    old(self).known(),
                    old(self).remaining(),
                    old(self).cols(),
                    old(self).rows(),
                ),
            old(self).sure_to_fill() ==> final(self).ensemble().len() == final(self).goal(),
    {
        let ghost start = self.ensemble();
        let ghost known = self.known();
        let needed: usize = self.target - self.all_possible_layouts.len();
        let mut attempt: usize = 0;
        while attempt < needed
            invariant
                self.wf(),
                self.known() == known,
                known == old(self).known(),
                self.remaining() == old(self).remaining(),
                self.observed() == old(self).observed(),
                self.cols() == old(self).cols(),
                self.rows() == old(self).rows(),
                self.goal() == old(self).goal(),
                self.floor() == old(self).floor(),
                start == old(self).ensemble(),
                start.is_prefix_of(self.ensemble()),
                needed == self.goal() - start.len(),
                attempt <= needed,
                self.ensemble().len() <= start.len() + attempt,
                old(self).sure_to_fill() ==> self.ensemble().len() == start.len() + attempt,
                forall|i: int|
                    start.len() <= i < self.ensemble().len() ==> fresh(
                        #[trigger] self.ensemble()[i],
                        known,
                        self.remaining(),
                        self.cols(),
                        self.rows(),
                    ),
            decreases needed - attempt,
        {
            let ghost before = self.ensemble();
            let ghost obs = self.observed();
            let ghost lens = self.remaining();
            let ghost w = self.cols();
            let ghost h = self.rows();
            let made = generate_layout_with(
                &mut self.rng,
                self.width,
                self.height,
                self.remaining_ship_lengths.as_slice(),
            );
            proof {
                assert(self.ensemble() == before);
                assert(self.observed() == obs);
                assert(self.remaining() == lens);
                assert(self.known() == known);
            }
            match made {
                Some(layout) => {
                    proof {
                        assert(exists|ships: Seq<Ship>|
                            is_layout_for(grid_of(layout), ships, lens, w, h));
                        let ships = choose|ships: Seq<Ship>|
                            is_layout_for(grid_of(layout), ships, lens, w, h);
                        assert(has_dims(grid_of(layout), w, h));
                    }
                    let fits: bool = is_consistent(&layout, &self.known_board);
                    proof {
                        if old(self).sure_to_fill() {
                            let ships = choose|ships: Seq<Ship>|
                                is_layout_for(grid_of(layout), ships, lens, w, h);
                            lemma_blank_layout(grid_of(layout), ships, lens, known, w, h);
                        }
                    }
                    if fits {
                        proof {
                            assert forall|k: int| 0 <= k < obs.len() implies agrees(
                                grid_of(layout),
                                (#[trigger] obs[k]).0.x as int,
                                obs[k].0.y as int,
                                obs[k].1,
                            ) by {
                                lemma_consistent_agrees(grid_of(layout), known, obs[k]);
                            }
                        }
                        self.all_possible_layouts.push(layout);
                        proof {
                            let after = self.ensemble();
                            assert(after == before.push(layout));
                            assert(self.observed() == obs);
                            assert forall|i: int| 0 <= i < after.len() implies has_dims(
                                grid_of(#[trigger] after[i]),
                                w,
                                h,
                            ) by {
                                if i < before.len() {
                                    assert(after[i] == before[i]);
                                }
                            }
                            assert forall|i: int, k: int|
                                0 <= i < after.len() && 0 <= k < obs.len() implies agrees(
                                grid_of(#[trigger] after[i]),
                                (#[trigger] obs[k]).0.x as int,
                                obs[k].0.y as int,
                                obs[k].1,
                            ) by {
                                if i < before.len() {
                                    assert(after[i] == before[i]);
                                } else {
                                    assert(after[i] == layout);
                                }
                            }
                            assert forall|i: int| start.len() <= i < after.len() implies fresh(
                                #[trigger] after[i],
                                known,
                                lens,
                                w,
                                h,
                            ) by {
                                if i < before.len() {
                                    assert(after[i] == before[i]);
                                } else {
                                    assert(after[i] == layout);
                                }
                            }
                        }
                    }
                },
                None => {},
            }
            attempt += 1;
        }
    }

    /// Populates the ensemble: the bootstrap for a hunter that was made
    /// without hypotheses.
    pub fn initialize(&mut self)
        requires
            old(self).wf(),
        ensures
            final(self).wf(),
            final(self).known() == old(self).known(),
            final(self).remaining() == old(self).remaining(),
            final(self).observed() == old(self).observed(),
            final(self).cols() == old(self).cols(),
            final(self).rows() == old(self).rows(),
            final(self).goal() == old(self).goal(),
            final(self).floor() == old(self).floor(),
            old(self).ensemble().is_prefix_of(final(self).ensemble()),
            forall|i: int|
                old(self).ensemble().len() <= i < final(self).ensemble().len() ==> fresh(
                    #[trigger] final(self).ensemble()[i],
                    old(self).known(),
                    old(self).remaining(),
                    old(self).cols(),
                    old(self).rows(),
                ),
            old(self).sure_to_fill() ==> final(self).ensemble().len() == final(self).goal(),
    {
        self.regenerate_hypotheses();
    }

    /// Every attempt of a refill is sure to bring a layout that is added:
    /// no ship with a cell is left to place, and no ship was seen.
    pub open spec fn sure_to_fill(&self) -> bool {
        effortless(self.cols(), self.rows(), self.remaining()) && no_ship_seen(self.known())
    }
}

impl QuantumHunter {
    /// A hunter for a new game: the known board is empty and the ensemble is
    /// populated. The random source is seeded by the operating system, or
    /// with `FALLBACK_SEED` where the system has no entropy to give.
    pub fn new(width: u8, height: u8, ship_lengths: &[u8]) -> (hunter: QuantumHunter)
        ensures
            hunter.wf(),
            hunter.starts(
                width,
                height,
                ship_lengths@,
                HYPOTHESIS_TARGET as int,
                HYPOTHESIS_THRESHOLD as int,
            ),
    {
        let mut hunter = QuantumHunter::assemble(
            width,
            height,
            copy_lengths(ship_lengths),
            system_rng(),
            HYPOTHESIS_TARGET,
            HYPOTHESIS_THRESHOLD,
        );
        hunter.initialize();
        hunter
    }

    /// A hunter for a new game whose random source is seeded with `seed`, so
    /// that the game can be replayed.
    pub fn with_seed(width: u8, height: u8, ship_lengths: &[u8], seed: u64) -> (hunter: QuantumHunter)
        ensures
            hunter.wf(),
            hunter.starts(
                width,
                height,
                ship_lengths@,
                HYPOTHESIS_TARGET as int,
                HYPOTHESIS_THRESHOLD as int,
            ),
    {
        let mut hunter = QuantumHunter::assemble(
            width,
            height,
            copy_lengths(ship_lengths),
            seeded_rng(seed),
            HYPOTHESIS_TARGET,
            HYPOTHESIS_THRESHOLD,
        );
        hunter.initialize();
        hunter
    }

    /// A seeded hunter for a new game whose ensemble is still empty, for a
    /// host that fills it with `initialize` or with layouts of its own.
    pub fn with_ships(width: u8, height: u8, ship_lengths: &[u8], seed: u64) -> (hunter: QuantumHunter)
        ensures
            hunter.wf(),
            hunter.ensemble().len() == 0,
            hunter.known() == empty_grid(width as int, height as int),
            hunter.remaining() == ship_lengths@,
            hunter.observed().len() == 0,
            hunter.cols() == width,
            hunter.rows() == height,
            hunter.goal() == HYPOTHESIS_TARGET,
            hunter.floor() == HYPOTHESIS_THRESHOLD,
    {
        QuantumHunter::assemble(
            width,
            height,
            copy_lengths(ship_lengths),
            seeded_rng(seed),
            HYPOTHESIS_TARGET,
            HYPOTHESIS_THRESHOLD,
        )
    }

    /// A seeded hunter with an ensemble of its own size: filled up to
    /// `target`, refilled below `threshold`. A target whose scores would not
    /// fit their machine integer is cut down to the largest that does.
    pub fn with_limits(
        width: u8,
        height: u8,
        ship_lengths: &[u8],
        seed: u64,
        target: usize,
        threshold: usize,
    ) -> (hunter: QuantumHunter)
        ensures
            hunter.wf(),
            hunter.starts(
                width,
                height,
                ship_lengths@,
                if countable(target as int) {
                    target as int
                } else {
                    (u64::MAX / 10) as int
                },
                threshold as int,
            ),
    {
        let capped: usize = if target as u64 <= u64::MAX / 10 {
            target
        } else {
            (u64::MAX / 10) as usize
        };
        let mut hunter = QuantumHunter::assemble(
            width,
            height,
            copy_lengths(ship_lengths),
            seeded_rng(seed),
            capped,
            threshold,
        );
        hunter.initialize();
        hunter
    }

    /// The state of a hunter at the start of a game: nothing is observed,
    /// and every layout of the ensemble is the layout of a legal fleet of
    /// the given ships.
    pub open spec fn starts(&self, width: u8, height: u8, lengths: Seq<u8>, goal: int, floor: int) -> bool {
        &&& self.known() == empty_grid(width as int, height as int)
        &&& self.remaining() == lengths
        &&& self.observed().len() == 0
        &&& self.cols() == width
        &&& self.rows() == height
        &&& self.goal() == goal
        &&& self.floor() == floor
        &&& forall|i: int|
            0 <= i < self.ensemble().len() ==> fresh(
                #[trigger] self.ensemble()[i],
                self.known(),
                lengths,
                width as int,
                height as int,
            )
        &&& effortless(width as int, height as int, lengths) ==> self.ensemble().len() == goal
    }

    /// Adds a layout to the ensemble, for a host that brings hypotheses of
    /// its own. The layout is taken if the ensemble has room for it, it has
    /// the dimensions of the game and it agrees with the known board.
    pub fn insert_layout(&mut self, layout: Board) -> (taken: bool)
        requires
            old(self).wf(),
        ensures
            final(self).wf(),
            final(self).known() == old(self).known(),
            final(self).remaining() == old(self).remaining(),
            final(self).observed() == old(self).observed(),
            final(self).cols() == old(self).cols(),
            final(self).rows() == old(self).rows(),
            final(self).goal() == old(self).goal(),
            final(self).floor() == old(self).floor(),
            taken == (old(self).ensemble().len() < old(self).goal() && has_dims(
                grid_of(layout),
                old(self).cols(),
                old(self).rows(),
            ) && consistent(grid_of(layout), old(self).known())),
            taken ==> final(self).ensemble() == old(self).ensemble().push(layout),
            !taken ==> final(self).ensemble() == old(self).ensemble(),
    {
        if self.all_possible_layouts.len() >= self.target {
            return false;
        }
        if !is_well_formed(&layout) || layout.len() != self.height as usize {
            return false;
        }
        if self.height > 0 && board_width(&layout) != self.width as usize {
            return false;
        }
        proof {
            if self.height == 0 {
                assert(width(grid_of(layout)) == width(self.known()));
            }
        }
        if !is_consistent(&layout, &self.known_board) {
            return false;
        }
        let ghost before = self.ensemble();
        let ghost obs = self.observed();
        let ghost known = self.known();
        proof {
            assert forall|k: int| 0 <= k < obs.len() implies agrees(
                grid_of(layout),
                (#[trigger] obs[k]).0.x as int,
                obs[k].0.y as int,
                obs[k].1,
            ) by {
                lemma_consistent_agrees(grid_of(layout), known, obs[k]);
            }
        }
        self.all_possible_layouts.push(layout);
        proof {
            let after = self.ensemble();
            assert(after == before.push(layout));
            assert forall|i: int| 0 <= i < after.len() implies has_dims(
                grid_of(#[trigger] after[i]),
                self.cols(),
                self.rows(),
            ) by {
                if i < before.len() {
                    assert(after[i] == before[i]);
                }
            }
            assert forall|i: int, k: int| 0 <= i < after.len() && 0 <= k < obs.len() implies agrees(
                grid_of(#[trigger] after[i]),
                (#[trigger] obs[k]).0.x as int,
                obs[k].0.y as int,
                obs[k].1,
            ) by {
                if i < before.len() {
                    assert(after[i] == before[i]);
                } else {
                    assert(after[i] == layout);
                }
            }
        }
        true
    }
}

impl QuantumHunter {
    /// Takes in the result of a shot.
    ///
    /// A shot outside the grid is rejected, and so is a result that
    /// contradicts what the known board holds at that cell; the state then
    /// stays as it was. `Empty` is accepted and changes nothing. Any other
    /// result is recorded on the known board, the ensemble keeps the
    /// layouts that agree with it and is refilled if it has fallen below its
    /// threshold, and the solver prunes the known board.
    pub fn apply_shot(&mut self, pos: Position, result: CellState) -> (outcome: Result<
        (),
        InvalidObservation,
    >)
        requires
            old(self).wf(),
        ensures
            final(self).wf(),
            final(self).remaining() == old(self).remaining(),
            final(self).cols() == old(self).cols(),
            final(self).rows() == old(self).rows(),
            final(self).goal() == old(self).goal(),
            final(self).floor() == old(self).floor(),
            outcome == old(self).verdict(pos, result),
            outcome is Err || result == CellState::Empty ==> *final(self) == *old(self),
            outcome is Ok && result != CellState::Empty ==> {
                let marked = put(old(self).known(), pos.x as int, pos.y as int, result);
                let stay = kept(
                    old(self).ensemble(),
                    old(self).ensemble().len() as int,
                    pos.x as int,
                    pos.y as int,
                    result,
                );
                &&& final(self).known() == solved(marked, old(self).remaining())
                &&& final(self).observed() == old(self).observed().push((pos, result))
                &&& stay.is_prefix_of(final(self).ensemble())
                &&& stay.len() >= old(self).floor() ==> final(self).ensemble() == stay
                &&& forall|i: int|
                    stay.len() <= i < final(self).ensemble().len() ==> fresh(
                        #[trigger] final(self).ensemble()[i],
                        marked,
                        old(self).remaining(),
                        old(self).cols(),
                        old(self).rows(),
                    )
            },
    {
        if pos.x >= self.width || pos.y >= self.height {
            return Err(InvalidObservation::OutsideGrid);
        }
        let ghost known0 = self.known();
        let ghost obs0 = self.observed();
        let ghost all0 = self.ensemble();
        let ghost x = pos.x as int;
        let ghost y = pos.y as int;
        proof {
            assert(known0[y].len() == width(known0));
        }
        let recorded: CellState = self.known_board[pos.y as usize][pos.x as usize];
        let mismatch: bool = (recorded == CellState::Miss && result.is_ship()) || (recorded.is_ship()
            && result == CellState::Miss);
        if mismatch {
            return Err(InvalidObservation::Contradiction);
        }
        if result == CellState::Empty {
            return Ok(());
        }
        proof {
            lemma_put_shape(known0, x, y, result);
        }
        set_cell(&mut self.known_board, pos.x as usize, pos.y as usize, result);
        let ghost marked = self.known();
        let mut taken: Vec<Board> = Vec::new();
        core::mem::swap(&mut self.all_possible_layouts, &mut taken);
        proof {
            assert forall|i: int| 0 <= i < taken@.len() implies well_formed(
                grid_of(#[trigger] taken@[i]),
            ) && in_grid(grid_of(taken@[i]), x, y) by {
                assert(has_dims(grid_of(all0[i]), self.cols(), self.rows()));
            }
        }
        let stay: Vec<Board> = retain_agreeing(taken, pos, result);
        self.all_possible_layouts = stay;
        self.observations = Ghost(obs0.push((pos, result)));
        proof {
            let now = self.ensemble();
            let obs = self.observed();
            lemma_kept(all0, all0.len() as int, x, y, result);
            assert forall|i: int| 0 <= i < now.len() implies has_dims(
                grid_of(#[trigger] now[i]),
                self.cols(),
                self.rows(),
            ) by {
                let j = choose|j: int| 0 <= j < all0.len() && all0[j] == now[i];
                assert(has_dims(grid_of(all0[j]), self.cols(), self.rows()));
            }
            assert forall|i: int, k: int| 0 <= i < now.len() && 0 <= k < obs.len() implies agrees(
                grid_of(#[trigger] now[i]),
                (#[trigger] obs[k]).0.x as int,
                obs[k].0.y as int,
                obs[k].1,
            ) by {
                let j = choose|j: int| 0 <= j < all0.len() && all0[j] == now[i];
                if k < obs0.len() {
                    assert(obs[k] == obs0[k]);
                    assert(agrees(
                        grid_of(all0[j]),
                        obs0[k].0.x as int,
                        obs0[k].0.y as int,
                        obs0[k].1,
                    ));
                }
            }
            assert forall|k: int| 0 <= k < obs.len() implies {
                let o = #[trigger] obs[k];
                in_grid(marked, o.0.x as int, o.0.y as int) && confirms(
                    marked[o.0.y as int][o.0.x as int],
                    o.1,
                )
            } by {
                if k < obs0.len() {
                    assert(obs[k] == obs0[k]);
                    let o = obs0[k];
                    assert(in_grid(known0, o.0.x as int, o.0.y as int));
                    assert(confirms(known0[o.0.y as int][o.0.x as int], o.1));
                }
            }
            assert(self.wf());
        }
        if self.all_possible_layouts.len() < self.threshold {
            self.regenerate_hypotheses();
        }
        let ghost filled = self.ensemble();
        let ghost obs = self.observed();
        global_constraint_solver(&mut self.known_board, self.remaining_ship_lengths.as_slice());
        proof {
            let after = self.known();
            assert(self.ensemble() == filled);
            assert(self.observed() == obs);
            assert forall|k: int| 0 <= k < obs.len() implies {
                let o = #[trigger] obs[k];
                in_grid(after, o.0.x as int, o.0.y as int) && confirms(
                    after[o.0.y as int][o.0.x as int],
                    o.1,
                )
            } by {
                let o = obs[k];
                assert(in_grid(marked, o.0.x as int, o.0.y as int));
                assert(confirms(marked[o.0.y as int][o.0.x as int], o.1));
                if self.remaining().len() > 0 {
                    lemma_solver_monotone(
                        marked,
                        shortest(self.remaining()),
                        o.0.x as int,
                        o.0.y as int,
                    );
                }
            }
        }
        Ok(())
    }

    /// What becomes of a shot result: which are rejected, and why.
    pub open spec fn verdict(&self, pos: Position, result: CellState) -> Result<
        (),
        InvalidObservation,
    > {
        if !in_grid(self.known(), pos.x as int, pos.y as int) {
            Err(InvalidObservation::OutsideGrid)
        } else if contradicts(self.known()[pos.y as int][pos.x as int], result) {
            Err(InvalidObservation::Contradiction)
        } else {
            Ok(())
        }
    }
}

impl QuantumHunter {
    /// The cells the scorer prefers, best first: the `Empty` cells of the
    /// known board, ranked by their combined score, and among equal scores
    /// in row-major order; at most `TOP_CANDIDATES` of them.
    pub fn top_candidates(&self) -> (moves: Vec<(u8, u8)>)
        requires
            self.wf(),
        ensures
            self.ranked(moves@),
            forall|i: int|
                0 <= i < moves@.len() ==> in_grid(
                    self.known(),
                    (#[trigger] moves@[i]).0 as int,
                    moves@[i].1 as int,
                ),
    {
        let cells: Vec<Position> = get_possible_moves(&self.known_board);
        let total: usize = self.all_possible_layouts.len();
        let largest: u8 = longest_length(&self.remaining_ship_lengths);
        let ghost known = self.known();
        let ghost all = self.ensemble();
        proof {
            lemma_moves_upto(known, height(known));
        }
        let mut scores: Vec<u64> = Vec::new();
        let mut n: usize = 0;
        while n < cells.len()
            invariant
                self.wf(),
                known == self.known(),
                all == self.ensemble(),
                all == self.all_possible_layouts@,
                total == all.len(),
                cells@ == possible_moves(known),
                forall|i: int|
                    0 <= i < cells@.len() ==> in_grid(
                        known,
                        (#[trigger] cells@[i]).x as int,
                        cells@[i].y as int,
                    ),
                n <= cells@.len(),
                scores@.len() == n,
                forall|i: int|
                    0 <= i < n ==> #[trigger] scores@[i] == candidate_scores(
                        all,
                        cells@,
                        largest as int,
                    )[i],
            decreases cells@.len() - n,
        {
            let cell: Position = cells[n];
            proof {
                assert(in_grid(known, cells@[n as int].x as int, cells@[n as int].y as int));
                assert forall|i: int| 0 <= i < all.len() implies well_formed(
                    grid_of(#[trigger] all[i]),
                ) && in_grid(grid_of(all[i]), cell.x as int, cell.y as int) by {
                    assert(has_dims(grid_of(all[i]), self.cols(), self.rows()));
                }
            }
            let warmth: usize = heat_at(&self.all_possible_layouts, cell);
            scores.push(score_of(warmth, total, largest));
            n += 1;
        }
        proof {
            assert(scores@ =~= candidate_scores(all, cells@, largest as int));
        }
        let top: Vec<usize> = select_top(&scores, TOP_CANDIDATES);
        let mut moves: Vec<(u8, u8)> = Vec::new();
        let mut k: usize = 0;
        while k < top.len()
            invariant
                k <= top@.len(),
                is_top(scores@, TOP_CANDIDATES as int, top@),
                scores@.len() == cells@.len(),
                forall|i: int|
                    0 <= i < cells@.len() ==> in_grid(
                        known,
                        (#[trigger] cells@[i]).x as int,
                        cells@[i].y as int,
                    ),
                moves@.len() == k,
                forall|i: int| 0 <= i < k ==> #[trigger] moves@[i] == shots(cells@, top@)[i],
            decreases top@.len() - k,
        {
            let cell: Position = cells[top[k]];
            moves.push((cell.x, cell.y));
            k += 1;
        }
        proof {
            assert(moves@ =~= shots(cells@, top@));
        }
        moves
    }

    /// `moves` are the preferred candidates: the picks of the `TOP_CANDIDATES`
    /// best scores among the `Empty` cells of the known board.
    pub open spec fn ranked(&self, moves: Seq<(u8, u8)>) -> bool {
        exists|top: Seq<usize>|
            #![trigger shots(possible_moves(self.known()), top)]
            is_top(
                candidate_scores(
                    self.ensemble(),
                    possible_moves(self.known()),
                    longest(self.remaining()),
                ),
                TOP_CANDIDATES as int,
                top,
            ) && moves == shots(possible_moves(self.known()), top)
    }

    /// The next shot: the preferred candidates, ranked once more by the
    /// tactical verifier. `(0, 0)` when the ensemble is empty or no cell of
    /// the known board is `Empty`.
    pub fn find_best_move(&self) -> (best: (u8, u8))
        requires
            self.wf(),
        ensures
            self.is_best_move(best),
    {
        if self.all_possible_layouts.len() == 0 {
            return (0, 0);
        }
        let top_moves: Vec<(u8, u8)> = self.top_candidates();
        proof {
            let cells = possible_moves(self.known());
            let top = choose|top: Seq<usize>|
                #![trigger shots(cells, top)]
                is_top(
                    candidate_scores(self.ensemble(), cells, longest(self.remaining())),
                    TOP_CANDIDATES as int,
                    top,
                ) && top_moves@ == shots(cells, top);
            assert(top_moves@.len() == top.len());
            assert(cells.len() == 0 ==> top_moves@.len() == 0);
            assert(cells.len() > 0 ==> top_moves@.len() > 0);
        }
        if top_moves.len() == 0 {
            return (0, 0);
        }
        let best: (u8, u8) = verify_best_moves(&self.known_board, top_moves.as_slice());
        proof {
            assert(self.ranked(top_moves@));
        }
        best
    }

    /// `best` is the next shot: `(0, 0)` when the ensemble is empty or no cell
    /// of the known board is `Empty`, and else the choice of the tactical
    /// verifier among the preferred candidates.
    pub open spec fn is_best_move(&self, best: (u8, u8)) -> bool {
        &&& self.ensemble().len() == 0 || possible_moves(self.known()).len() == 0 ==> best == (
            0u8,
            0u8,
        )
        &&& self.ensemble().len() > 0 && possible_moves(self.known()).len() > 0 ==> exists|
            moves: Seq<(u8, u8)>,
        |
            #![trigger self.ranked(moves)]
            self.ranked(moves) && moves.len() > 0 && best == moves[first_best(
                self.known(),
                moves,
                moves.len(),
            )]
    }

    /// The preferred candidates are determined by the state of the hunter.
    pub proof fn lemma_ranked_unique(&self, other: &QuantumHunter, a: Seq<(u8, u8)>, b: Seq<(u8, u8)>)
        requires
            self.same_state(other),
            self.ranked(a),
            other.ranked(b),
        ensures
            a == b,
    {
        let cells = possible_moves(self.known());
        let scores = candidate_scores(self.ensemble(), cells, longest(self.remaining()));
        let top_a = choose|top: Seq<usize>|
            #![trigger shots(cells, top)]
            is_top(scores, TOP_CANDIDATES as int, top) && a == shots(cells, top);
        let top_b = choose|top: Seq<usize>|
            #![trigger shots(cells, top)]
            is_top(scores, TOP_CANDIDATES as int, top) && b == shots(cells, top);
        lemma_top_unique(scores, TOP_CANDIDATES as int, top_a, top_b);
    }

    /// The next shot is determined by the state of the hunter: two hunters
    /// with the same known board, ensemble and remaining ships choose the
    /// same cell, whatever their random sources hold.
    pub proof fn lemma_best_move_determined(&self, other: &QuantumHunter, a: (u8, u8), b: (u8, u8))
        requires
            self.same_state(other),
            self.is_best_move(a),
            other.is_best_move(b),
        ensures
            a == b,
    {
        if self.ensemble().len() > 0 && possible_moves(self.known()).len() > 0 {
            let moves_a = choose|moves: Seq<(u8, u8)>|
                #![trigger self.ranked(moves)]
                self.ranked(moves) && moves.len() > 0 && a == moves[first_best(
                    self.known(),
                    moves,
                    moves.len(),
                )];
            let moves_b = choose|moves: Seq<(u8, u8)>|
                #![trigger other.ranked(moves)]
                other.ranked(moves) && moves.len() > 0 && b == moves[first_best(
                    other.known(),
                    moves,
                    moves.len(),
                )];
            self.lemma_ranked_unique(other, moves_a, moves_b);
        }
    }

    /// Every layout of the ensemble agrees with every observation that was
    /// accepted: it is free where a `Miss` was reported and holds a ship
    /// where a `Hit` or a `Sunk` was.
    pub proof fn lemma_ensemble_consistent(&self, i: int, k: int)
        requires
            self.wf(),
            0 <= i < self.ensemble().len(),
            0 <= k < self.observed().len(),
        ensures
            agrees(
                grid_of(self.ensemble()[i]),
                self.observed()[k].0.x as int,
                self.observed()[k].0.y as int,
                self.observed()[k].1,
            ),
    {
    }
}

} // verus!
