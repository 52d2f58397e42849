//! The board: a fixed square grid of cells, immutable after generation.

use vstd::prelude::*;

use crate::geom::{cell_index, in_bounds, pos_in_bounds, Pos, BOARD_SIZE_I, CELL_COUNT};
use crate::rng::random_below;

verus! {

/// One cell of the board: a wall, or open ground with a decoration level
/// used only for display.
#[derive(Clone, Copy, Debug, PartialEq, Eq, Structural)]
pub enum MapCell {
    Wall,
    Empty(u8),
}

impl MapCell {
    /// True when the cell is a wall.
    pub fn is_wall(&self) -> (r: bool)
        ensures
            r == (*self is Wall),
    {
        matches!(self, MapCell::Wall)
    }
}

/// A well-formed cell: decoration levels run from 0 to 6.
pub open spec fn cell_ok(c: MapCell) -> bool {
    c matches MapCell::Empty(deco) ==> deco <= 6
}

/// True when `(x, y)` is on the board and not a wall: a cell an agent may
/// stand on and the path planner may cross.
pub open spec fn open_at(cells: Seq<MapCell>, x: int, y: int) -> bool {
    in_bounds(x, y) && !(cells[cell_index(x, y)] is Wall)
}

/// True when no cell of the board is a wall.
pub open spec fn no_walls(cells: Seq<MapCell>) -> bool {
    forall|i: int| 0 <= i < cells.len() ==> !(#[trigger] cells[i] is Wall)
}

/// The cell grid, row-major, `BOARD_SIZE` by `BOARD_SIZE`. Immutable after
/// generation.
pub struct Board {
    pub cells: Vec<MapCell>,
}

impl Board {
    /// A well-formed board: exactly one cell per grid position, each one
    /// well-formed.
    pub open spec fn wf(&self) -> bool {
        &&& self.cells@.len() == CELL_COUNT
        &&& forall|i: int| 0 <= i < CELL_COUNT ==> cell_ok(#[trigger] self.cells@[i])
    }

    /// Builds a board from an explicit grid of cells.
    pub fn from_cells(cells: Vec<MapCell>) -> (b: Board)
        requires
            cells@.len() == CELL_COUNT,
            forall|i: int| 0 <= i < CELL_COUNT ==> cell_ok(#[trigger] cells@[i]),
        ensures
            b.wf(),
            b.cells@ == cells@,
    {
        Board { cells }
    }

    /// Generates a board: each cell independently becomes a wall with
    /// probability one in four, and otherwise open ground with a uniformly
    /// random decoration level.
    pub fn generate() -> (b: Board)
        ensures
            b.wf(),
    {
        let mut cells: Vec<MapCell> = Vec::new();
        let mut i: usize = 0;
        while i < CELL_COUNT
            invariant
                i <= CELL_COUNT,
                cells@.len() == i,
                forall|k: int| 0 <= k < i ==> cell_ok(#[trigger] cells@[k]),
            decreases CELL_COUNT - i,
        {
            if random_below(4) == 0 {
                cells.push(MapCell::Wall);
            } else {
                let deco = random_below(7);
                cells.push(MapCell::Empty(deco as u8));
            }
            i += 1;
        }
        Board { cells }
    }

    /// The cell at position `p`.
    pub fn cell_at(&self, p: Pos) -> (r: MapCell)
        requires
            self.wf(),
            pos_in_bounds(p),
        ensures
            r == self.cells@[cell_index(p.x as int, p.y as int)],
    {
        let idx = (p.x + p.y * BOARD_SIZE_I) as usize;
        self.cells[idx]
    }

    /// True when the cell at `p` is a wall.
    pub fn is_occupied_by_wall(&self, p: Pos) -> (r: bool)
        requires
            self.wf(),
            pos_in_bounds(p),
        ensures
            r == !open_at(self.cells@, p.x as int, p.y as int),
    {
        self.cell_at(p).is_wall()
    }
}

} // verus!
