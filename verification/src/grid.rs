//! Grid primitives: coordinates, cell states, ships and boards.

use vstd::prelude::*;

verus! {

/// What is known, or hypothesised, about one grid square.
///
/// On an observed board `Sunk` marks a cell of a destroyed ship; inside a
/// hypothesis layout it simply marks a cell that a ship occupies.
#[derive(Clone, Copy, Debug, PartialEq, Eq, Structural)]
pub enum CellState {
    Empty,
    Miss,
    Hit,
    Sunk,
}

/// A grid coordinate: column `x`, row `y`.
#[derive(Clone, Copy, Debug, PartialEq, Eq, Hash, Structural)]
pub struct Position {
    pub x: u8,
    pub y: u8,
}

/// A ship of a fleet: its identity, its length, the cells it occupies in
/// order from its origin, and how often it was hit.
#[derive(Debug)]
pub struct Ship {
    pub id: u8,
    pub length: u8,
    pub positions: Vec<Position>,
    pub hits: u8,
}

/// A grid of cell states, stored row by row: `board[y][x]`.
pub type Board = Vec<Vec<CellState>>;

/// The mathematical model of a board: a sequence of rows.
pub type Grid = Seq<Seq<CellState>>;

/// The model of a vector of rows.
pub open spec fn grid_of<T>(b: Vec<Vec<T>>) -> Seq<Seq<T>> {
    Seq::new(b@.len(), |y: int| b@[y]@)
}

/// The number of rows of a grid.
pub open spec fn height<T>(g: Seq<Seq<T>>) -> int {
    g.len() as int
}

/// The number of columns of a grid: the length of its first row.
pub open spec fn width<T>(g: Seq<Seq<T>>) -> int {
    if g.len() == 0 {
        0
    } else {
        g[0].len() as int
    }
}

/// Every row has the same length.
pub open spec fn rectangular<T>(g: Seq<Seq<T>>) -> bool {
    forall|y: int| 0 <= y < g.len() ==> (#[trigger] g[y]).len() == width(g)
}

/// The grid is rectangular, and both dimensions fit a coordinate.
pub open spec fn well_formed<T>(g: Seq<Seq<T>>) -> bool {
    &&& g.len() <= 255
    &&& width(g) <= 255
    &&& rectangular(g)
}

/// Column `x`, row `y` is a cell of the grid.
pub open spec fn in_grid<T>(g: Seq<Seq<T>>, x: int, y: int) -> bool {
    0 <= x < width(g) && 0 <= y < height(g)
}

/// The grid `g` with the cell at column `x`, row `y` replaced by `value`.
pub open spec fn put<T>(g: Seq<Seq<T>>, x: int, y: int, value: T) -> Seq<Seq<T>> {
    g.update(y, g[y].update(x, value))
}

/// The grid of `w` columns and `h` rows whose cells all hold `value`.
pub open spec fn filled_grid<T>(w: int, h: int, value: T) -> Seq<Seq<T>> {
    Seq::new(h as nat, |y: int| Seq::new(w as nat, |x: int| value))
}

/// The grid of `w` columns and `h` rows whose cells are all `Empty`.
pub open spec fn empty_grid(w: int, h: int) -> Grid {
    filled_grid(w, h, CellState::Empty)
}

/// The `i`-th cell of a straight run that starts at `origin`.
pub open spec fn run_cell(origin: Position, horizontal: bool, i: int) -> Position {
    if horizontal {
        Position { x: (origin.x + i) as u8, y: origin.y }
    } else {
        Position { x: origin.x, y: (origin.y + i) as u8 }
    }
}

/// What a placement check needs to know of a cell: whether it is taken.
pub trait Occupancy: Sized {
    /// The cell is taken: no ship may lie on it or next to it.
    spec fn taken(&self) -> bool;

    fn is_taken(&self) -> (t: bool)
        ensures
            t == self.taken(),
    ;
}

impl Occupancy for CellState {
    /// A cell of a board is taken unless it is `Empty`.
    open spec fn taken(&self) -> bool {
        *self != CellState::Empty
    }

    fn is_taken(&self) -> (t: bool) {
        !matches!(self, CellState::Empty)
    }
}

impl Occupancy for bool {
    /// A cell of an occupancy mask is taken where the mask says so.
    open spec fn taken(&self) -> bool {
        *self
    }

    fn is_taken(&self) -> (t: bool) {
        *self
    }
}

/// Replacing a cell keeps the shape of a grid.
pub proof fn lemma_put_shape<T>(g: Seq<Seq<T>>, x: int, y: int, value: T)
    requires
        rectangular(g),
        in_grid(g, x, y),
    ensures
        rectangular(put(g, x, y, value)),
        width(put(g, x, y, value)) == width(g),
        height(put(g, x, y, value)) == height(g),
        forall|cx: int, cy: int|
            in_grid(g, cx, cy) ==> #[trigger] put(g, x, y, value)[cy][cx] == (if cx == x && cy == y {
                value
            } else {
                g[cy][cx]
            }),
{
    let g1 = put(g, x, y, value);
    assert(g[0].len() == width(g));
    assert(g[y].len() == width(g));
    assert(g1[0].len() == width(g));
    assert forall|r: int| 0 <= r < g1.len() implies (#[trigger] g1[r]).len() == width(g1) by {
        assert(g[r].len() == width(g));
    }
    assert forall|cx: int, cy: int| in_grid(g, cx, cy) implies #[trigger] put(g, x, y, value)[cy][cx]
        == (if cx == x && cy == y {
        value
    } else {
        g[cy][cx]
    }) by {
        assert(g[cy].len() == width(g));
    }
}

/// Writing back what a cell held undoes a replacement.
pub proof fn lemma_put_back<T>(g: Seq<Seq<T>>, x: int, y: int, value: T)
    requires
        rectangular(g),
        in_grid(g, x, y),
    ensures
        put(put(g, x, y, value), x, y, g[y][x]) == g,
{
    let g1 = put(put(g, x, y, value), x, y, g[y][x]);
    assert(g[y].len() == width(g));
    assert(g1[y] =~= g[y]);
    assert(g1 =~= g);
}

impl CellState {
    /// The stable integer code of a cell state.
    pub open spec fn spec_code(self) -> int {
        match self {
            CellState::Empty => 0,
            CellState::Miss => 1,
            CellState::Hit => 2,
            CellState::Sunk => 3,
        }
    }

    /// The integer code under which a host exchanges this state.
    pub fn code(self) -> (c: u8)
        ensures
            c == self.spec_code(),
    {
        match self {
            CellState::Empty => 0,
            CellState::Miss => 1,
            CellState::Hit => 2,
            CellState::Sunk => 3,
        }
    }

    /// The state that a host's integer code stands for, if it is one.
    pub fn from_code(c: u8) -> (state: Option<CellState>)
        ensures
            c <= 3 <==> state is Some,
            state matches Some(s) ==> s.spec_code() == c,
    {
        if c == 0 {
            Some(CellState::Empty)
        } else if c == 1 {
            Some(CellState::Miss)
        } else if c == 2 {
            Some(CellState::Hit)
        } else if c == 3 {
            Some(CellState::Sunk)
        } else {
            None
        }
    }

    /// Whether a ship lies on a cell in this state, as far as is known or supposed.
    pub open spec fn spec_is_ship(self) -> bool {
        self == CellState::Hit || self == CellState::Sunk
    }

    /// Whether a ship lies on a cell in this state.
    #[verifier::when_used_as_spec(spec_is_ship)]
    pub fn is_ship(self) -> (b: bool)
        ensures
            b == self.spec_is_ship(),
    {
        self == CellState::Hit || self == CellState::Sunk
    }
}

impl Ship {
    /// A ship that has not been placed yet.
    pub fn new(id: u8, length: u8) -> (ship: Ship)
        ensures
            ship.id == id,
            ship.length == length,
            ship.positions@.len() == 0,
            ship.hits == 0,
    {
        Ship { id, length, positions: Vec::new(), hits: 0 }
    }
}

impl Clone for Ship {
    fn clone(&self) -> (copy: Ship)
        ensures
            copy.id == self.id,
            copy.length == self.length,
            copy.positions@ == self.positions@,
            copy.hits == self.hits,
    {
        let mut positions: Vec<Position> = Vec::new();
        let mut i: usize = 0;
        while i < self.positions.len()
            invariant
                i <= self.positions@.len(),
                positions@ == self.positions@.take(i as int),
            decreases self.positions@.len() - i,
        {
            positions.push(self.positions[i]);
            proof {
                assert(self.positions@.take(i + 1) =~= self.positions@.take(i as int).push(
                    self.positions@[i as int],
                ));
            }
            i += 1;
        }
        proof {
            assert(self.positions@.take(i as int) =~= self.positions@);
        }
        Ship { id: self.id, length: self.length, positions, hits: self.hits }
    }
}

/// A grid of `width` columns and `height` rows with `value` in every cell.
pub fn filled<T: Copy>(width: usize, height: usize, value: T) -> (rows: Vec<Vec<T>>)
    ensures
        grid_of(rows) == filled_grid(width as int, height as int, value),
        rectangular(grid_of(rows)),
        crate::grid::height(grid_of(rows)) == height,
        height > 0 ==> crate::grid::width(grid_of(rows)) == width,
{
    let mut rows: Vec<Vec<T>> = Vec::new();
    let mut y: usize = 0;
    while y < height
        invariant
            y <= height,
            rows@.len() == y,
            forall|r: int|
                0 <= r < y ==> (#[trigger] rows@[r])@ == Seq::new(width as nat, |x: int| value),
        decreases height - y,
    {
        let mut row: Vec<T> = Vec::new();
        let mut x: usize = 0;
        while x < width
            invariant
                x <= width,
                row@.len() == x,
                forall|i: int| 0 <= i < x ==> row@[i] == value,
            decreases width - x,
        {
            row.push(value);
            x += 1;
        }
        proof {
            assert(row@ =~= Seq::new(width as nat, |x: int| value));
        }
        rows.push(row);
        y += 1;
    }
    proof {
        assert(grid_of(rows) =~= filled_grid(width as int, height as int, value));
    }
    rows
}

/// A board of `width` columns and `height` rows with every cell `Empty`.
pub fn new_board(width: u8, height: u8) -> (board: Board)
    ensures
        grid_of(board) == empty_grid(width as int, height as int),
        well_formed(grid_of(board)),
        crate::grid::height(grid_of(board)) == height,
        height > 0 ==> crate::grid::width(grid_of(board)) == width,
{
    filled(width as usize, height as usize, CellState::Empty)
}

/// The number of columns of a grid: the length of its first row.
pub fn board_width<T>(board: &Vec<Vec<T>>) -> (w: usize)
    ensures
        w == width(grid_of(*board)),
{
    if board.len() == 0 {
        0
    } else {
        board[0].len()
    }
}

/// Whether a board is rectangular and small enough for byte coordinates.
pub fn is_well_formed<T>(board: &Vec<Vec<T>>) -> (ok: bool)
    ensures
        ok == well_formed(grid_of(*board)),
{
    let h: usize = board.len();
    let w: usize = board_width(board);
    if h > 255 || w > 255 {
        return false;
    }
    let mut y: usize = 0;
    while y < h
        invariant
            y <= h,
            h == board@.len(),
            w == width(grid_of(*board)),
            forall|r: int| 0 <= r < y ==> (#[trigger] grid_of(*board)[r]).len() == w,
        decreases h - y,
    {
        if board[y].len() != w {
            proof {
                assert(grid_of(*board)[y as int].len() != w);
            }
            return false;
        }
        y += 1;
    }
    true
}

/// Overwrites one cell of a grid.
pub fn set_cell<T>(board: &mut Vec<Vec<T>>, x: usize, y: usize, value: T)
    requires
        in_grid(grid_of(*old(board)), x as int, y as int),
        rectangular(grid_of(*old(board))),
    ensures
        grid_of(*final(board)) == put(grid_of(*old(board)), x as int, y as int, value),
        rectangular(grid_of(*final(board))),
        width(grid_of(*final(board))) == width(grid_of(*old(board))),
        height(grid_of(*final(board))) == height(grid_of(*old(board))),
{
    proof {
        assert(grid_of(*old(board))[y as int].len() == width(grid_of(*old(board))));
        lemma_put_shape(grid_of(*old(board)), x as int, y as int, value);
    }
    board[y][x] = value;
    proof {
        assert(grid_of(*board) =~= put(grid_of(*old(board)), x as int, y as int, value));
    }
}

/// A cell-by-cell copy of a grid.
pub fn copy_board<T: Copy>(board: &Vec<Vec<T>>) -> (copy: Vec<Vec<T>>)
    ensures
        grid_of(copy) == grid_of(*board),
{
    let mut copy: Vec<Vec<T>> = Vec::new();
    let mut y: usize = 0;
    while y < board.len()
        invariant
            y <= board@.len(),
            copy@.len() == y,
            forall|r: int| 0 <= r < y ==> (#[trigger] copy@[r])@ == board@[r]@,
        decreases board@.len() - y,
    {
        let mut row: Vec<T> = Vec::new();
        let mut x: usize = 0;
        while x < board[y].len()
            invariant
                y < board@.len(),
                x <= board@[y as int]@.len(),
                row@.len() == x,
                forall|i: int| 0 <= i < x ==> row@[i] == board@[y as int]@[i],
            decreases board@[y as int]@.len() - x,
        {
            row.push(board[y][x]);
            x += 1;
        }
        proof {
            assert(row@ =~= board@[y as int]@);
        }
        copy.push(row);
        y += 1;
    }
    proof {
        assert(grid_of(copy) =~= grid_of(*board));
    }
    copy
}

} // verus!
