//! Grid geometry: board bounds, cell indexing, the four movement
//! directions and their vectors, and Manhattan distance.

use vstd::prelude::*;

verus! {

/// Side length of the square board, in cells.
pub const BOARD_SIZE: usize = 12;

/// Side length of the square board, as a coordinate.
pub const BOARD_SIZE_I: i32 = 12;

/// Number of cells on the board.
pub const CELL_COUNT: usize = 144;

/// Movement code yielded by a script when it has no move to make, and the
/// direction marker of the goal node of a computed path.
pub const NO_MOVE: u8 = 5;

/// A cell coordinate. The board's cells have `0 <= x < BOARD_SIZE_I` and
/// `0 <= y < BOARD_SIZE_I`; `x` grows eastward, `y` grows southward.
#[derive(Clone, Copy, Debug, PartialEq, Eq, Structural)]
pub struct Pos {
    pub x: i32,
    pub y: i32,
}

/// True when `(x, y)` lies on the board.
pub open spec fn in_bounds(x: int, y: int) -> bool {
    0 <= x < BOARD_SIZE_I && 0 <= y < BOARD_SIZE_I
}

/// True when `p` lies on the board.
pub open spec fn pos_in_bounds(p: Pos) -> bool {
    in_bounds(p.x as int, p.y as int)
}

/// Row-major index of the cell `(x, y)`.
pub open spec fn cell_index(x: int, y: int) -> int {
    x + y * (BOARD_SIZE_I as int)
}

/// Horizontal component of the unit vector of direction `d`.
/// Directions are indexed west, north, east, south.
pub open spec fn dir_x(d: int) -> int {
    if d == 0 {
        -1
    } else if d == 2 {
        1
    } else {
        0
    }
}

/// Vertical component of the unit vector of direction `d`.
pub open spec fn dir_y(d: int) -> int {
    if d == 1 {
        -1
    } else if d == 3 {
        1
    } else {
        0
    }
}

/// Distance between two coordinates on one axis.
pub open spec fn axis_dist(a: int, b: int) -> int {
    if a < b {
        b - a
    } else {
        a - b
    }
}

/// Manhattan distance between `(ax, ay)` and `(bx, by)`.
pub open spec fn manhattan(ax: int, ay: int, bx: int, by: int) -> int {
    axis_dist(ax, bx) + axis_dist(ay, by)
}

/// True when `(px, py)` and `(x, y)` are distinct cells that share an edge.
pub open spec fn adjacent(px: int, py: int, x: int, y: int) -> bool {
    (px == x && axis_dist(py, y) == 1) || (py == y && axis_dist(px, x) == 1)
}

/// Horizontal component of the unit vector of direction `d`.
pub fn dir_step_x(d: u8) -> (r: i32)
    requires
        d < 4,
    ensures
        r as int == dir_x(d as int),
{
    if d == 0 {
        -1
    } else if d == 2 {
        1
    } else {
        0
    }
}

/// Vertical component of the unit vector of direction `d`.
pub fn dir_step_y(d: u8) -> (r: i32)
    requires
        d < 4,
    ensures
        r as int == dir_y(d as int),
{
    if d == 1 {
        -1
    } else if d == 3 {
        1
    } else {
        0
    }
}

/// The direction opposite to `d`: walking one step along `d` and one step
/// along `reverse_direction(d)` returns to the starting cell.
pub fn reverse_direction(d: u8) -> (r: u8)
    requires
        d < 4,
    ensures
        r == (d + 2) % 4,
        r < 4,
{
    (d + 2) % 4
}

/// The reverse-direction formula `(d + 2) % 4` yields, for every direction,
/// the direction whose unit vector is the exact negation of the original's.
pub proof fn lemma_reverse_direction_negates(d: int)
    requires
        0 <= d < 4,
    ensures
        dir_x((d + 2) % 4) == -dir_x(d),
        dir_y((d + 2) % 4) == -dir_y(d),
{
}

/// Stepping in any direction moves to an adjacent cell.
pub proof fn lemma_step_adjacent(px: int, py: int, d: int)
    requires
        0 <= d < 4,
    ensures
        adjacent(px, py, px + dir_x(d), py + dir_y(d)),
{
}

/// Any adjacent cell is one step away in some direction.
pub proof fn lemma_adjacent_step(px: int, py: int, x: int, y: int)
    requires
        adjacent(px, py, x, y),
    ensures
        exists|d: int|
            0 <= d < 4 && x == px + #[trigger] dir_x(d) && y == py + dir_y(d),
{
    if px == x && py > y {
        assert(x == px + dir_x(1) && y == py + dir_y(1));
    } else if px == x {
        assert(x == px + dir_x(3) && y == py + dir_y(3));
    } else if py == y && px > x {
        assert(x == px + dir_x(0) && y == py + dir_y(0));
    } else {
        assert(x == px + dir_x(2) && y == py + dir_y(2));
    }
}

/// Row-major index of the cell at `p`.
pub fn pos_index(p: Pos) -> (r: usize)
    requires
        pos_in_bounds(p),
    ensures
        r as int == cell_index(p.x as int, p.y as int),
        r < CELL_COUNT,
{
    (p.x + p.y * BOARD_SIZE_I) as usize
}

/// True when some element of `v` is the position `p`.
pub open spec fn seq_contains_pos(v: Seq<Pos>, p: Pos) -> bool {
    exists|j: int| 0 <= j < v.len() && v[j] == p
}

/// Linear scan for `p` in `v`.
pub fn contains_pos(v: &Vec<Pos>, p: Pos) -> (r: bool)
    ensures
        r == seq_contains_pos(v@, p),
{
    let mut j: usize = 0;
    while j < v.len()
        invariant
            j <= v.len(),
            forall|k: int| 0 <= k < j ==> v@[k] != p,
        decreases v.len() - j,
    {
        if v[j].x == p.x && v[j].y == p.y {
            assert(v@[j as int] == p);
            return true;
        }
        j += 1;
    }
    false
}

} // verus!
