//! The path planner: uniform-cost search over the 4-connected grid from a
//! start cell to the nearest of a set of goal cells.
//!
//! All edge costs are 1, so the frontier, filled in nondecreasing cost
//! order, stays sorted by cost and its front entry is always one of
//! minimal cost: the search expands cells in order of increasing
//! accumulated cost, exactly the priority-queue discipline specialised to
//! unit costs. The first goal expanded is therefore a nearest goal.

use vstd::prelude::*;
use vstd::seq_lib::*;
use vstd::set_lib::*;

use crate::geom::{
    adjacent, cell_index, dir_x, dir_y, in_bounds, manhattan, pos_in_bounds, seq_contains_pos,
    Pos, BOARD_SIZE_I, CELL_COUNT, NO_MOVE,
};
use crate::grid::{no_walls, open_at, MapCell};

verus! {

/// One node of a computed path: the position of a cell on the walk, and
/// the direction to take from that cell toward the goal. The goal cell
/// itself carries the sentinel `NO_MOVE` instead of a direction. The node
/// nearest the start sits at the end of the vector, so popping yields the
/// next immediate step.
#[derive(Clone, Copy, Debug, PartialEq, Eq, Structural)]
pub struct PathNode {
    pub direction: u8,
    pub pos: Pos,
}

/// There is a walk of at most `n` steps from `(sx, sy)` to `(x, y)` whose
/// cells, except possibly the first, are all open.
pub open spec fn reach(cells: Seq<MapCell>, sx: int, sy: int, x: int, y: int, n: nat) -> bool
    decreases n,
{
    (sx == x && sy == y) || (n > 0 && open_at(cells, x, y) && exists|px: int, py: int|
        #[trigger] adjacent(px, py, x, y) && reach(cells, sx, sy, px, py, (n - 1) as nat))
}

/// `reach`, from one position to another.
pub open spec fn reach_pos(cells: Seq<MapCell>, from: Pos, to: Pos, n: nat) -> bool {
    reach(cells, from.x as int, from.y as int, to.x as int, to.y as int, n)
}

/// A walk that fits in `n` steps fits in any larger budget.
pub proof fn lemma_reach_mono(cells: Seq<MapCell>, sx: int, sy: int, x: int, y: int, n: nat, m: nat)
    requires
        reach(cells, sx, sy, x, y, n),
        n <= m,
    ensures
        reach(cells, sx, sy, x, y, m),
    decreases n,
{
    if sx == x && sy == y {
    } else {
        let (px, py) = choose|px: int, py: int|
            #[trigger] adjacent(px, py, x, y) && reach(cells, sx, sy, px, py, (n - 1) as nat);
        lemma_reach_mono(cells, sx, sy, px, py, (n - 1) as nat, (m - 1) as nat);
    }
}

/// A walk extends by one step onto an adjacent open cell.
pub proof fn lemma_reach_extend(
    cells: Seq<MapCell>,
    sx: int,
    sy: int,
    px: int,
    py: int,
    n: nat,
    x: int,
    y: int,
)
    requires
        reach(cells, sx, sy, px, py, n),
        adjacent(px, py, x, y),
        open_at(cells, x, y),
    ensures
        reach(cells, sx, sy, x, y, (n + 1) as nat),
{
    assert(((n + 1) as nat - 1) as nat == n);
}

/// No walk is shorter than the Manhattan distance between its endpoints.
pub proof fn lemma_reach_ge_manhattan(
    cells: Seq<MapCell>,
    sx: int,
    sy: int,
    x: int,
    y: int,
    n: nat,
)
    requires
        reach(cells, sx, sy, x, y, n),
    ensures
        manhattan(sx, sy, x, y) <= n,
    decreases n,
{
    if sx == x && sy == y {
    } else {
        let (px, py) = choose|px: int, py: int|
            #[trigger] adjacent(px, py, x, y) && reach(cells, sx, sy, px, py, (n - 1) as nat);
        lemma_reach_ge_manhattan(cells, sx, sy, px, py, (n - 1) as nat);
    }
}

/// On a board without walls, every cell is reachable in exactly the
/// Manhattan distance.
pub proof fn lemma_no_walls_reach_manhattan(
    cells: Seq<MapCell>,
    sx: int,
    sy: int,
    x: int,
    y: int,
)
    requires
        cells.len() == 144,
        no_walls(cells),
        in_bounds(sx, sy),
        in_bounds(x, y),
    ensures
        reach(cells, sx, sy, x, y, manhattan(sx, sy, x, y) as nat),
    decreases manhattan(sx, sy, x, y),
{
    let m = manhattan(sx, sy, x, y);
    if sx == x && sy == y {
    } else {
        let (px, py): (int, int) = if x > sx {
            (x - 1, y)
        } else if x < sx {
            (x + 1, y)
        } else if y > sy {
            (x, y - 1)
        } else {
            (x, y + 1)
        };
        lemma_no_walls_reach_manhattan(cells, sx, sy, px, py);
        assert(adjacent(px, py, x, y));
        assert(open_at(cells, x, y));
        assert(manhattan(sx, sy, px, py) == m - 1);
        assert((m as nat - 1) as nat == (m - 1) as nat);
        lemma_reach_mono(cells, sx, sy, px, py, (m - 1) as nat, (m as nat - 1) as nat);
    }
}

/// On a board without walls, the shortest walk between two cells is
/// exactly their Manhattan distance: the move count the planner reports
/// for such a board (by its minimality clause) equals that distance.
pub proof fn lemma_no_walls_shortest(
    cells: Seq<MapCell>,
    sx: int,
    sy: int,
    x: int,
    y: int,
    n: nat,
)
    requires
        cells.len() == 144,
        no_walls(cells),
        in_bounds(sx, sy),
        in_bounds(x, y),
        reach(cells, sx, sy, x, y, n),
        forall|m: nat| m < n ==> !#[trigger] reach(cells, sx, sy, x, y, m),
    ensures
        n == manhattan(sx, sy, x, y),
{
    lemma_reach_ge_manhattan(cells, sx, sy, x, y, n);
    lemma_no_walls_reach_manhattan(cells, sx, sy, x, y);
    assert(!(manhattan(sx, sy, x, y) < n)) by {
        if manhattan(sx, sy, x, y) < n {
            assert(reach(cells, sx, sy, x, y, manhattan(sx, sy, x, y) as nat));
        }
    }
}

/// Cells behind an unbroken barrier are unreachable: if a set of cells
/// contains the start, is closed under single open steps, and excludes
/// `(x, y)`, then no walk of any length reaches `(x, y)`.
pub proof fn lemma_blocked_region_unreachable(
    cells: Seq<MapCell>,
    sx: int,
    sy: int,
    x: int,
    y: int,
    n: nat,
    region: spec_fn(int, int) -> bool,
)
    requires
        region(sx, sy),
        !region(x, y),
        forall|px: int, py: int, qx: int, qy: int|
            region(px, py) && #[trigger] adjacent(px, py, qx, qy) && open_at(cells, qx, qy)
                ==> region(qx, qy),
    ensures
        !reach(cells, sx, sy, x, y, n),
    decreases n,
{
    if reach(cells, sx, sy, x, y, n) {
        if sx == x && sy == y {
        } else {
            let (px, py) = choose|px: int, py: int|
                #[trigger] adjacent(px, py, x, y) && reach(cells, sx, sy, px, py, (n - 1) as nat);
            if region(px, py) {
                assert(region(x, y));
            } else {
                lemma_blocked_region_unreachable(cells, sx, sy, px, py, (n - 1) as nat, region);
            }
        }
    }
}

/// A sequence of pairwise distinct board positions has at most one entry
/// per cell of the board.
proof fn lemma_distinct_pos_len(s: Seq<Pos>)
    requires
        forall|i: int| 0 <= i < s.len() ==> pos_in_bounds(#[trigger] s[i]),
        forall|i: int, j: int| 0 <= i < j < s.len() ==> s[i] != s[j],
    ensures
        s.len() <= 144,
{
    let idxs = s.map(|i: int, p: Pos| cell_index(p.x as int, p.y as int));
    assert forall|i: int, j: int|
        0 <= i < idxs.len() && 0 <= j < idxs.len() && i != j implies idxs[i] != idxs[j] by {
        assert(pos_in_bounds(s[i]) && pos_in_bounds(s[j]));
        if i < j {
            assert(s[i] != s[j]);
        } else {
            assert(s[j] != s[i]);
        }
    }
    assert(idxs.no_duplicates());
    idxs.unique_seq_to_set();
    assert(idxs.to_set().subset_of(set_int_range(0, 144))) by {
        assert forall|e: int| idxs.to_set().contains(e) implies set_int_range(0, 144).contains(e) by {
            let i = choose|i: int| 0 <= i < idxs.len() && idxs[i] == e;
            assert(pos_in_bounds(s[i]));
        }
    }
    lemma_int_range(0, 144);
    lemma_len_subset(idxs.to_set(), set_int_range(0, 144));
}

/// On a board with no walls, the planner always finds a path when it is
/// given an on-board goal, and the path's move count is exactly the
/// Manhattan distance from the start to the goal it reached — never more
/// than the distance to any single goal.
pub proof fn lemma_no_walls_path_moves(
    cells: Seq<MapCell>,
    start: Pos,
    goals: Seq<Pos>,
    r: Option<Vec<PathNode>>,
    gi: int,
)
    requires
        find_path_post(cells, start, goals, r),
        cells.len() == 144,
        no_walls(cells),
        pos_in_bounds(start),
        0 <= gi < goals.len(),
        pos_in_bounds(goals[gi]),
    ensures
        r matches Option::Some(path) && {
            let moves = path@.len() - 1;
            &&& moves == manhattan(
                start.x as int,
                start.y as int,
                path@[0].pos.x as int,
                path@[0].pos.y as int,
            )
            &&& moves <= manhattan(
                start.x as int,
                start.y as int,
                goals[gi].x as int,
                goals[gi].y as int,
            )
        },
{
    let g = goals[gi];
    let gm = manhattan(start.x as int, start.y as int, g.x as int, g.y as int) as nat;
    lemma_no_walls_reach_manhattan(cells, start.x as int, start.y as int, g.x as int, g.y as int);
    assert(reach_pos(cells, start, g, gm));
    match r {
        Option::None => {
            assert(false);
        },
        Option::Some(path) => {
            let moves = (path@.len() - 1) as nat;
            // never more than the distance to the given goal
            assert(!(gm < moves));
            // exactly the distance to the goal it reached
            let reached = path@[0].pos;
            let ri = choose|ri: int| 0 <= ri < goals.len() && goals[ri] == reached;
            assert(reach_pos(cells, start, reached, moves));
            assert(pos_in_bounds(reached)) by {
                if path@.len() == 1 {
                    assert(reached == start);
                } else {
                    assert(path_step_ok(cells, path@[1], path@[0]));
                }
            }
            assert forall|m: nat| m < moves
                implies !reach(
                    cells,
                    start.x as int,
                    start.y as int,
                    reached.x as int,
                    reached.y as int,
                    m,
                ) by {
                assert(!reach_pos(cells, start, goals[ri], m));
            }
            lemma_no_walls_shortest(
                cells,
                start.x as int,
                start.y as int,
                reached.x as int,
                reached.y as int,
                moves,
            );
        },
    }
}

/// A start that is itself a goal yields a path of zero moves: the one
/// node carrying the sentinel direction on the start cell.
pub proof fn lemma_start_in_goals_zero_moves(
    cells: Seq<MapCell>,
    start: Pos,
    goals: Seq<Pos>,
    r: Option<Vec<PathNode>>,
)
    requires
        find_path_post(cells, start, goals, r),
        seq_contains_pos(goals, start),
    ensures
        r matches Option::Some(path) && path@.len() == 1 && path@[0].pos == start
            && path@[0].direction == NO_MOVE,
{
    let gi = choose|gi: int| 0 <= gi < goals.len() && goals[gi] == start;
    assert(reach_pos(cells, start, goals[gi], 0));
    match r {
        Option::None => {
            assert(false);
        },
        Option::Some(path) => {
            if path@.len() > 1 {
                assert(!reach_pos(cells, start, goals[gi], 0));
                assert(false);
            }
        },
    }
}

/// Goals sealed off behind an unbroken wall barrier give `None`: if some
/// set of cells contains the start, is closed under single open steps,
/// and holds no goal, the planner finds nothing.
pub proof fn lemma_barrier_gives_none(
    cells: Seq<MapCell>,
    start: Pos,
    goals: Seq<Pos>,
    r: Option<Vec<PathNode>>,
    region: spec_fn(int, int) -> bool,
)
    requires
        find_path_post(cells, start, goals, r),
        region(start.x as int, start.y as int),
        forall|px: int, py: int, qx: int, qy: int|
            region(px, py) && #[trigger] adjacent(px, py, qx, qy) && open_at(cells, qx, qy)
                ==> region(qx, qy),
        forall|gi: int| 0 <= gi < goals.len() ==> !region((#[trigger] goals[gi]).x as int, goals[gi].y as int),
    ensures
        r is None,
{
    match r {
        Option::None => {},
        Option::Some(path) => {
            let n = (path@.len() - 1) as nat;
            assert(reach_pos(cells, start, path@[0].pos, n));
            let gi = choose|gi: int| 0 <= gi < goals.len() && goals[gi] == path@[0].pos;
            lemma_blocked_region_unreachable(
                cells,
                start.x as int,
                start.y as int,
                path@[0].pos.x as int,
                path@[0].pos.y as int,
                n,
                region,
            );
            assert(false);
        },
    }
}

/// Two in-bounds positions with the same row-major index coincide.
proof fn lemma_cell_index_injective(x1: int, y1: int, x2: int, y2: int)
    requires
        in_bounds(x1, y1),
        in_bounds(x2, y2),
        cell_index(x1, y1) == cell_index(x2, y2),
    ensures
        x1 == x2 && y1 == y2,
{
}

/// The accumulated cost recorded for the cell at `p`.
pub open spec fn cost_at(cost: Seq<usize>, p: Pos) -> int {
    cost[cell_index(p.x as int, p.y as int)] as int
}

/// True when the search has assigned `(x, y)` a finite cost.
pub open spec fn discovered_at(cost: Seq<usize>, x: int, y: int) -> bool {
    in_bounds(x, y) && cost[cell_index(x, y)] != usize::MAX
}

/// Soundness of the cost table: the start is discovered at cost zero, and
/// every discovered cell is reachable within its recorded cost.
pub open spec fn cost_ok(cells: Seq<MapCell>, start: Pos, cost: Seq<usize>) -> bool {
    &&& cells.len() == 144
    &&& cost.len() == 144
    &&& pos_in_bounds(start)
    &&& discovered_at(cost, start.x as int, start.y as int)
    &&& cost_at(cost, start) == 0
    &&& forall|x: int, y: int| #[trigger] discovered_at(cost, x, y)
        ==> reach(cells, start.x as int, start.y as int, x, y, cost[cell_index(x, y)] as nat)
}

/// The recorded parent link of a discovered non-start cell: the stored
/// direction points back to a discovered predecessor one cost unit
/// cheaper, and the cell itself is open.
pub open spec fn parent_edge(
    cells: Seq<MapCell>,
    cost: Seq<usize>,
    came: Seq<Option<u8>>,
    x: int,
    y: int,
) -> bool {
    &&& open_at(cells, x, y)
    &&& cost[cell_index(x, y)] >= 1
    &&& came[cell_index(x, y)] matches Option::Some(d) && d < 4
        && in_bounds(x + dir_x(d as int), y + dir_y(d as int))
        && discovered_at(cost, x + dir_x(d as int), y + dir_y(d as int))
        && cost[cell_index(x + dir_x(d as int), y + dir_y(d as int))] as int
            == cost[cell_index(x, y)] as int - 1
}

/// The parent table matches the cost table: the start has no parent, and
/// every other discovered cell has a valid parent link.
pub open spec fn parent_ok(
    cells: Seq<MapCell>,
    start: Pos,
    cost: Seq<usize>,
    came: Seq<Option<u8>>,
) -> bool {
    &&& came.len() == 144
    &&& came[cell_index(start.x as int, start.y as int)] is None
    &&& forall|x: int, y: int|
        #[trigger] discovered_at(cost, x, y) && !(x == start.x as int && y == start.y as int)
            ==> parent_edge(cells, cost, came, x, y)
}

/// The neighbor of `p` one step along `d` is, if open, discovered at a
/// cost of at most one more than `p`'s.
pub open spec fn relaxed_edge(cells: Seq<MapCell>, cost: Seq<usize>, p: Pos, d: int) -> bool {
    open_at(cells, p.x as int + dir_x(d), p.y as int + dir_y(d)) ==> {
        &&& discovered_at(cost, p.x as int + dir_x(d), p.y as int + dir_y(d))
        &&& cost[cell_index(p.x as int + dir_x(d), p.y as int + dir_y(d))] as int
            <= cost_at(cost, p) + 1
    }
}

/// The frontier discipline of the search. Entries before `head` are
/// expanded; the rest are pending. The frontier holds every discovered
/// cell exactly once, in nondecreasing cost order, with all pending costs
/// within one of the front pending entry's cost, and every expanded entry
/// has all four of its edges relaxed.
pub open spec fn frontier_ok(
    cells: Seq<MapCell>,
    cost: Seq<usize>,
    frontier: Seq<Pos>,
    head: int,
) -> bool {
    &&& 0 <= head <= frontier.len() <= 144
    &&& forall|i: int| #![trigger frontier[i]] 0 <= i < frontier.len()
        ==> pos_in_bounds(frontier[i])
            && discovered_at(cost, frontier[i].x as int, frontier[i].y as int)
    &&& forall|i: int, j: int| #![trigger frontier[i], frontier[j]]
        0 <= i < j < frontier.len() ==> frontier[i] != frontier[j]
    &&& forall|i: int, j: int| #![trigger frontier[i], frontier[j]]
        0 <= i <= j < frontier.len() ==> cost_at(cost, frontier[i]) <= cost_at(cost, frontier[j])
    &&& forall|j: int| #![trigger frontier[j]] head <= j < frontier.len()
        ==> cost_at(cost, frontier[j]) <= cost_at(cost, frontier[head]) + 1
    &&& forall|i: int| #![trigger frontier[i]] 0 <= i < frontier.len()
        ==> cost_at(cost, frontier[i]) <= i
    &&& forall|x: int, y: int| #[trigger] discovered_at(cost, x, y)
        ==> exists|i: int| 0 <= i < frontier.len()
            && (#[trigger] frontier[i]).x as int == x && frontier[i].y as int == y
    &&& forall|i: int, d: int| #![trigger relaxed_edge(cells, cost, frontier[i], d)]
        0 <= i < head && 0 <= d < 4 ==> relaxed_edge(cells, cost, frontier[i], d)
}

/// There is a walk of at most `k` steps from position `p` to `(x, y)`.
pub open spec fn reach_from(cells: Seq<MapCell>, p: Pos, x: int, y: int, k: nat) -> bool {
    reach(cells, p.x as int, p.y as int, x, y, k)
}

/// Some pending frontier entry reaches `(x, y)` within a total budget of
/// `n`: its recorded cost plus the walk's length.
pub open spec fn queue_escape(
    cells: Seq<MapCell>,
    cost: Seq<usize>,
    frontier: Seq<Pos>,
    head: int,
    x: int,
    y: int,
    n: nat,
) -> bool {
    exists|j: int, k: nat|
        head <= j < frontier.len() && #[trigger] reach_from(cells, frontier[j], x, y, k)
            && cost_at(cost, frontier[j]) + k <= n
}

/// The frontier-cut argument: any walk from the start either ends on a
/// cell already costed within the walk's length, or crosses the pending
/// part of the frontier with enough budget left.
proof fn lemma_cut(
    cells: Seq<MapCell>,
    start: Pos,
    cost: Seq<usize>,
    frontier: Seq<Pos>,
    head: int,
    x: int,
    y: int,
    n: nat,
)
    requires
        cost_ok(cells, start, cost),
        frontier_ok(cells, cost, frontier, head),
        reach(cells, start.x as int, start.y as int, x, y, n),
    ensures
        (discovered_at(cost, x, y) && cost[cell_index(x, y)] <= n)
            || queue_escape(cells, cost, frontier, head, x, y, n),
    decreases n,
{
    let sx = start.x as int;
    let sy = start.y as int;
    if sx == x && sy == y {
        assert(discovered_at(cost, x, y));
    } else {
        let (px, py) = choose|px: int, py: int|
            #[trigger] adjacent(px, py, x, y) && reach(cells, sx, sy, px, py, (n - 1) as nat);
        lemma_cut(cells, start, cost, frontier, head, px, py, (n - 1) as nat);
        if discovered_at(cost, px, py) && cost[cell_index(px, py)] <= n - 1 {
            let i = choose|i: int|
                0 <= i < frontier.len() && (#[trigger] frontier[i]).x as int == px
                    && frontier[i].y as int == py;
            if i < head {
                crate::geom::lemma_adjacent_step(px, py, x, y);
                let d = choose|d: int|
                    0 <= d < 4 && x == px + #[trigger] dir_x(d) && y == py + dir_y(d);
                assert(relaxed_edge(cells, cost, frontier[i], d));
                assert(discovered_at(cost, x, y) && cost[cell_index(x, y)] <= n);
            } else {
                assert(reach(cells, px, py, px, py, 0));
                assert(reach_from(cells, frontier[i], x, y, 1nat)) by {
                    assert((1nat - 1) as nat == 0nat);
                }
                assert(queue_escape(cells, cost, frontier, head, x, y, n)) by {
                    assert(cost_at(cost, frontier[i]) + 1nat <= n);
                }
            }
        } else {
            let (j, k) = choose|j: int, k: nat|
                head <= j < frontier.len() && #[trigger] reach_from(cells, frontier[j], px, py, k)
                    && cost_at(cost, frontier[j]) + k <= (n - 1) as nat;
            assert(reach_from(cells, frontier[j], x, y, (k + 1) as nat)) by {
                assert(((k + 1) as nat - 1) as nat == k);
                assert(adjacent(px, py, x, y));
            }
            assert(queue_escape(cells, cost, frontier, head, x, y, n)) by {
                assert(cost_at(cost, frontier[j]) + ((k + 1) as nat) <= n);
            }
        }
    }
}

/// A valid link of a computed path: moving from `from`'s position in
/// `from`'s direction lands on `to`'s position, an open cell.
pub open spec fn path_step_ok(cells: Seq<MapCell>, from: PathNode, to: PathNode) -> bool {
    &&& from.direction < 4
    &&& pos_in_bounds(from.pos)
    &&& to.pos.x as int == from.pos.x as int + dir_x(from.direction as int)
    &&& to.pos.y as int == from.pos.y as int + dir_y(from.direction as int)
    &&& open_at(cells, to.pos.x as int, to.pos.y as int)
}

/// Everything the planner promises of its result.
///
/// `None` means no goal is reachable from the start by any walk. A
/// returned path runs from a goal (sentinel direction, front of the
/// vector) back to the start (end of the vector), each node one valid
/// step from the next; its move count `len - 1` is a walk length that
/// reaches that goal, and no goal is reachable in fewer moves.
pub open spec fn find_path_post(
    cells: Seq<MapCell>,
    start: Pos,
    goals: Seq<Pos>,
    r: Option<Vec<PathNode>>,
) -> bool {
    match r {
        Option::None => forall|gi: int, n: nat|
            #![trigger reach_pos(cells, start, goals[gi], n)]
            0 <= gi < goals.len() ==> !reach_pos(cells, start, goals[gi], n),
        Option::Some(path) => {
            &&& path@.len() >= 1
            &&& seq_contains_pos(goals, path@[0].pos)
            &&& path@[0].direction == NO_MOVE
            &&& path@[path@.len() - 1].pos == start
            &&& forall|i: int| 1 <= i < path@.len()
                ==> path_step_ok(cells, #[trigger] path@[i], path@[i - 1])
            &&& reach_pos(cells, start, path@[0].pos, (path@.len() - 1) as nat)
            &&& forall|gi: int, m: nat|
                #![trigger reach_pos(cells, start, goals[gi], m)]
                0 <= gi < goals.len() && m < path@.len() - 1
                    ==> !reach_pos(cells, start, goals[gi], m)
        },
    }
}

/// Walks the parent table backward from `goal` to the start, recording
/// each step's forward direction, goal first and start last.
fn build_path(
    start: Pos,
    board: &crate::grid::Board,
    cost: &Vec<usize>,
    came: &Vec<Option<u8>>,
    goal: Pos,
) -> (path: Vec<PathNode>)
    requires
        board.wf(),
        cost_ok(board.cells@, start, cost@),
        parent_ok(board.cells@, start, cost@, came@),
        pos_in_bounds(goal),
        discovered_at(cost@, goal.x as int, goal.y as int),
    ensures
        path@.len() == cost_at(cost@, goal) + 1,
        path@[0].pos == goal,
        path@[0].direction == NO_MOVE,
        path@[path@.len() - 1].pos == start,
        forall|i: int| 1 <= i < path@.len()
            ==> path_step_ok(board.cells@, #[trigger] path@[i], path@[i - 1]),
{
    let ghost cells = board.cells@;
    let mut path: Vec<PathNode> = Vec::new();
    path.push(PathNode { direction: NO_MOVE, pos: goal });
    let mut cur: Pos = goal;
    loop
        invariant
            cost_ok(cells, start, cost@),
            parent_ok(cells, start, cost@, came@),
            pos_in_bounds(cur),
            discovered_at(cost@, cur.x as int, cur.y as int),
            path@.len() >= 1,
            path@[0].pos == goal,
            path@[0].direction == NO_MOVE,
            path@[path@.len() - 1].pos == cur,
            cost_at(cost@, cur) + path@.len() == cost_at(cost@, goal) + 1,
            forall|i: int| 1 <= i < path@.len()
                ==> path_step_ok(cells, #[trigger] path@[i], path@[i - 1]),
        ensures
            cur == start,
        decreases cost@[cell_index(cur.x as int, cur.y as int)],
    {
        let ci_cur = crate::geom::pos_index(cur);
        match came[ci_cur] {
            Option::None => {
                proof {
                    if !(cur.x as int == start.x as int && cur.y as int == start.y as int) {
                        assert(parent_edge(cells, cost@, came@, cur.x as int, cur.y as int));
                    }
                    assert(cur == start);
                }
                break;
            },
            Option::Some(d) => {
                proof {
                    assert(came@[ci_cur as int] is Some);
                    if cur.x as int == start.x as int && cur.y as int == start.y as int {
                        assert(came@[cell_index(start.x as int, start.y as int)] is None);
                        assert(false);
                    }
                    assert(parent_edge(cells, cost@, came@, cur.x as int, cur.y as int));
                    crate::geom::lemma_reverse_direction_negates(d as int);
                }
                let px = cur.x + crate::geom::dir_step_x(d);
                let py = cur.y + crate::geom::dir_step_y(d);
                let pred = Pos { x: px, y: py };
                let rd = crate::geom::reverse_direction(d);
                path.push(PathNode { direction: rd, pos: pred });
                proof {
                    let n = path@.len() - 1;
                    assert(path@[n].pos == pred && path@[n].direction == rd);
                    assert(path@[n - 1].pos == cur);
                    assert(path_step_ok(cells, path@[n], path@[n - 1]));
                }
                cur = pred;
            },
        }
    }
    path
}

/// Uniform-cost search from `start` to the nearest position in `goals`.
///
/// `None` exactly when no goal can be reached by a walk over open cells.
/// A returned path runs from the reached goal (front, sentinel direction)
/// back to `start` (end); popping nodes off the end yields the moves in
/// walking order, and no goal is reachable in fewer moves than the path
/// holds. An empty goal set always yields `None`; a start that is itself
/// a goal yields the one-node path with no moves.
#[verifier::spinoff_prover]
#[verifier::rlimit(100)]
pub fn find_path(start: Pos, board: &crate::grid::Board, goals: &Vec<Pos>) -> (r: Option<
    Vec<PathNode>,
>)
    requires
        board.wf(),
        pos_in_bounds(start),
    ensures
        find_path_post(board.cells@, start, goals@, r),
        goals@.len() == 0 ==> r is None,
{
    let ghost cells = board.cells@;
    let mut cost: Vec<usize> = Vec::new();
    let mut came: Vec<Option<u8>> = Vec::new();
    let mut i: usize = 0;
    while i < CELL_COUNT
        invariant
            i <= CELL_COUNT,
            cost@.len() == i,
            came@.len() == i,
            forall|k: int| 0 <= k < i ==> cost@[k] == usize::MAX,
            forall|k: int| 0 <= k < i ==> came@[k] is None,
        decreases CELL_COUNT - i,
    {
        cost.push(usize::MAX);
        came.push(None);
        i += 1;
    }
    let sidx = crate::geom::pos_index(start);
    cost.set(sidx, 0);
    let mut frontier: Vec<Pos> = Vec::new();
    frontier.push(start);
    let mut head: usize = 0;
    proof {
        assert forall|x: int, y: int| #[trigger] discovered_at(cost@, x, y)
            implies x == start.x as int && y == start.y as int by {
            lemma_cell_index_injective(x, y, start.x as int, start.y as int);
        }
        assert(cost_ok(cells, start, cost@));
        assert(parent_ok(cells, start, cost@, came@));
        assert(frontier_ok(cells, cost@, frontier@, 0)) by {
            assert forall|x: int, y: int| #[trigger] discovered_at(cost@, x, y)
                implies exists|i: int|
                    0 <= i < frontier@.len() && (#[trigger] frontier@[i]).x as int == x
                        && frontier@[i].y as int == y by {
                assert(frontier@[0].x as int == x && frontier@[0].y as int == y);
            }
        }
    }
    while head < frontier.len()
        invariant
            board.wf(),
            cells == board.cells@,
            pos_in_bounds(start),
            cost_ok(cells, start, cost@),
            parent_ok(cells, start, cost@, came@),
            frontier_ok(cells, cost@, frontier@, head as int),
            forall|i: int| 0 <= i < head
                ==> !seq_contains_pos(goals@, #[trigger] frontier@[i]),
        decreases 144 - head,
    {
        let p = frontier[head];
        let pidx = crate::geom::pos_index(p);
        if crate::geom::contains_pos(goals, p) {
            let path = build_path(start, board, &cost, &came, p);
            proof {
                assert(reach_pos(cells, start, p, (path@.len() - 1) as nat)) by {
                    assert(discovered_at(cost@, p.x as int, p.y as int));
                }
                lemma_pop_goal_optimal(cells, start, cost@, frontier@, head as int, goals@, p);
            }
            return Some(path);
        }
        let c = cost[pidx];
        proof {
            assert(discovered_at(cost@, p.x as int, p.y as int));
            assert(c < usize::MAX);
        }
        let mut d: u8 = 0;
        while d < 4
            invariant
                board.wf(),
                cells == board.cells@,
                pos_in_bounds(start),
                pos_in_bounds(p),
                !seq_contains_pos(goals@, p),
                d <= 4,
                head < frontier@.len(),
                frontier@[head as int] == p,
                cost@[cell_index(p.x as int, p.y as int)] == c,
                c < usize::MAX,
                cost_ok(cells, start, cost@),
                parent_ok(cells, start, cost@, came@),
                frontier_ok(cells, cost@, frontier@, head as int),
                forall|i: int| 0 <= i < head
                    ==> !seq_contains_pos(goals@, #[trigger] frontier@[i]),
                forall|dd: int| 0 <= dd < d
                    ==> #[trigger] relaxed_edge(cells, cost@, p, dd),
            decreases 4 - d,
        {
            let ghost pre_cost = cost@;
            let ghost pre_came = came@;
            let ghost pre_frontier = frontier@;
            let nx = p.x + crate::geom::dir_step_x(d);
            let ny = p.y + crate::geom::dir_step_y(d);
            if 0 <= nx && nx < BOARD_SIZE_I && 0 <= ny && ny < BOARD_SIZE_I {
                let q = Pos { x: nx, y: ny };
                let qidx = crate::geom::pos_index(q);
                if !board.cells[qidx].is_wall() {
                    if cost[qidx] == usize::MAX {
                        cost.set(qidx, c + 1);
                        came.set(qidx, Some(crate::geom::reverse_direction(d)));
                        frontier.push(q);
                        proof {
                            lemma_search_push(
                                cells, start, pre_cost, cost@, came@, pre_came, pre_frontier,
                                frontier@, head as int, p, q, d as int, c,
                            );
                        }
                    } else {
                        proof {
                            assert(discovered_at(cost@, q.x as int, q.y as int));
                            let i = choose|i: int|
                                0 <= i < frontier@.len()
                                    && (#[trigger] frontier@[i]).x as int == q.x as int
                                    && frontier@[i].y as int == q.y as int;
                            assert(cost_at(cost@, frontier@[i]) == cost@[cell_index(
                                q.x as int,
                                q.y as int,
                            )] as int);
                            if i <= head {
                                assert(cost_at(cost@, frontier@[i]) <= cost_at(cost@, p));
                            } else {
                                assert(cost_at(cost@, frontier@[i]) <= cost_at(
                                    cost@,
                                    frontier@[head as int],
                                ) + 1);
                            }
                            assert(relaxed_edge(cells, cost@, p, d as int));
                        }
                    }
                } else {
                    proof {
                        assert(board.cells@[cell_index(q.x as int, q.y as int)] is Wall);
                        assert(!open_at(cells, p.x as int + dir_x(d as int), p.y as int + dir_y(
                            d as int,
                        )));
                        assert(relaxed_edge(cells, cost@, p, d as int));
                    }
                }
            } else {
                proof {
                    assert(!in_bounds(p.x as int + dir_x(d as int), p.y as int + dir_y(d as int)));
                    assert(relaxed_edge(cells, cost@, p, d as int));
                }
            }
            proof {
                assert forall|dd: int| 0 <= dd < d + 1
                    implies #[trigger] relaxed_edge(cells, cost@, p, dd) by {
                    if dd < d {
                        assert(relaxed_edge(cells, pre_cost, p, dd));
                        lemma_relaxed_edge_stable(cells, pre_cost, cost@, p, dd);
                    }
                }
            }
            d += 1;
        }
        proof {
            assert forall|j: int| #![trigger frontier@[j]]
                head + 1 <= j < frontier@.len()
                implies cost_at(cost@, frontier@[j])
                    <= cost_at(cost@, frontier@[head as int + 1]) + 1 by {
                assert(cost_at(cost@, frontier@[head as int])
                    <= cost_at(cost@, frontier@[head as int + 1]));
                assert(cost_at(cost@, frontier@[j]) <= cost_at(cost@, frontier@[head as int]) + 1);
            }
            assert forall|i: int, d2: int|
                #![trigger relaxed_edge(cells, cost@, frontier@[i], d2)]
                0 <= i < head + 1 && 0 <= d2 < 4
                implies relaxed_edge(cells, cost@, frontier@[i], d2) by {
                if i == head {
                    assert(frontier@[i] == p);
                    assert(relaxed_edge(cells, cost@, p, d2));
                }
            }
            assert(frontier_ok(cells, cost@, frontier@, head as int + 1));
        }
        head += 1;
    }
    proof {
        lemma_exhausted_unreachable(cells, start, cost@, frontier@, head as int, goals@);
    }
    None
}

/// When the entry popped from the frontier is a goal, no goal is
/// reachable in fewer moves than that entry's cost.
#[verifier::rlimit(50)]
proof fn lemma_pop_goal_optimal(
    cells: Seq<MapCell>,
    start: Pos,
    cost: Seq<usize>,
    frontier: Seq<Pos>,
    head: int,
    goals: Seq<Pos>,
    p: Pos,
)
    requires
        cost_ok(cells, start, cost),
        frontier_ok(cells, cost, frontier, head),
        0 <= head < frontier.len(),
        frontier[head] == p,
        forall|i: int| 0 <= i < head ==> !seq_contains_pos(goals, #[trigger] frontier[i]),
    ensures
        forall|gi: int, m: nat|
            #![trigger reach_pos(cells, start, goals[gi], m)]
            0 <= gi < goals.len() && m < cost_at(cost, p)
                ==> !reach_pos(cells, start, goals[gi], m),
{
    assert forall|gi: int, m: nat|
        0 <= gi < goals.len() && m < cost_at(cost, p)
            implies !reach_pos(cells, start, goals[gi], m) by {
        if reach_pos(cells, start, goals[gi], m) {
            let g = goals[gi];
            lemma_cut(cells, start, cost, frontier, head, g.x as int, g.y as int, m);
            if discovered_at(cost, g.x as int, g.y as int)
                && cost[cell_index(g.x as int, g.y as int)] <= m {
                let i = choose|i: int|
                    0 <= i < frontier.len() && (#[trigger] frontier[i]).x as int == g.x as int
                        && frontier[i].y as int == g.y as int;
                assert(frontier[i] == g);
                if i < head {
                    assert(seq_contains_pos(goals, frontier[i]));
                    assert(false);
                } else {
                    assert(cost_at(cost, frontier[head]) <= cost_at(cost, frontier[i]));
                    assert(false);
                }
            } else {
                let (j, k) = choose|j: int, k: nat|
                    head <= j < frontier.len()
                        && #[trigger] reach_from(cells, frontier[j], g.x as int, g.y as int, k)
                        && cost_at(cost, frontier[j]) + k <= m;
                assert(cost_at(cost, frontier[head]) <= cost_at(cost, frontier[j]));
                assert(false);
            }
        }
    }
}

/// When the frontier is exhausted without popping a goal, no goal is
/// reachable at all.
#[verifier::rlimit(50)]
proof fn lemma_exhausted_unreachable(
    cells: Seq<MapCell>,
    start: Pos,
    cost: Seq<usize>,
    frontier: Seq<Pos>,
    head: int,
    goals: Seq<Pos>,
)
    requires
        cost_ok(cells, start, cost),
        frontier_ok(cells, cost, frontier, head),
        head == frontier.len(),
        forall|i: int| 0 <= i < head ==> !seq_contains_pos(goals, #[trigger] frontier[i]),
    ensures
        forall|gi: int, n: nat|
            #![trigger reach_pos(cells, start, goals[gi], n)]
            0 <= gi < goals.len() ==> !reach_pos(cells, start, goals[gi], n),
{
    assert forall|gi: int, n: nat| 0 <= gi < goals.len()
        implies !reach_pos(cells, start, goals[gi], n) by {
        if reach_pos(cells, start, goals[gi], n) {
            let g = goals[gi];
            lemma_cut(cells, start, cost, frontier, head, g.x as int, g.y as int, n);
            if discovered_at(cost, g.x as int, g.y as int)
                && cost[cell_index(g.x as int, g.y as int)] <= n {
                let i = choose|i: int|
                    0 <= i < frontier.len() && (#[trigger] frontier[i]).x as int == g.x as int
                        && frontier[i].y as int == g.y as int;
                assert(frontier[i] == g);
                assert(seq_contains_pos(goals, frontier[i]));
                assert(false);
            } else {
                assert(false);
            }
        }
    }
}

/// A relaxed edge stays relaxed when the cost table changes only on cells
/// it never mentions: undiscovered ones.
proof fn lemma_relaxed_edge_stable(
    cells: Seq<MapCell>,
    pre: Seq<usize>,
    post: Seq<usize>,
    p: Pos,
    d: int,
)
    requires
        0 <= d < 4,
        pre.len() == 144,
        post.len() == 144,
        pos_in_bounds(p),
        pre[cell_index(p.x as int, p.y as int)] != usize::MAX,
        relaxed_edge(cells, pre, p, d),
        forall|ci: int| 0 <= ci < 144 && pre[ci] != usize::MAX ==> post[ci] == pre[ci],
    ensures
        relaxed_edge(cells, post, p, d),
{
    let nx = p.x as int + dir_x(d);
    let ny = p.y as int + dir_y(d);
    if open_at(cells, nx, ny) {
        assert(discovered_at(pre, nx, ny));
        assert(post[cell_index(nx, ny)] == pre[cell_index(nx, ny)]);
        assert(post[cell_index(p.x as int, p.y as int)] == pre[cell_index(p.x as int, p.y as int)]);
    }
}

/// The common situation at a discovery: `q`, the open neighbor of the
/// current frontier entry `p` one step along `d`, was uncosted, and the
/// tables were just extended with it.
pub open spec fn push_step(
    cells: Seq<MapCell>,
    start: Pos,
    pre_cost: Seq<usize>,
    cost: Seq<usize>,
    pre_frontier: Seq<Pos>,
    frontier: Seq<Pos>,
    head: int,
    p: Pos,
    q: Pos,
    d: int,
    c: usize,
) -> bool {
    &&& 0 <= d < 4
    &&& cost_ok(cells, start, pre_cost)
    &&& frontier_ok(cells, pre_cost, pre_frontier, head)
    &&& head < pre_frontier.len()
    &&& pre_frontier[head] == p
    &&& pre_cost[cell_index(p.x as int, p.y as int)] == c
    &&& c < usize::MAX
    &&& q.x as int == p.x as int + dir_x(d)
    &&& q.y as int == p.y as int + dir_y(d)
    &&& pos_in_bounds(q)
    &&& open_at(cells, q.x as int, q.y as int)
    &&& pre_cost[cell_index(q.x as int, q.y as int)] == usize::MAX
    &&& cost == pre_cost.update(cell_index(q.x as int, q.y as int), (c + 1) as usize)
    &&& frontier == pre_frontier.push(q)
}

/// After a discovery the cost table stays sound.
#[verifier::rlimit(50)]
proof fn lemma_push_cost_ok(
    cells: Seq<MapCell>,
    start: Pos,
    pre_cost: Seq<usize>,
    cost: Seq<usize>,
    pre_frontier: Seq<Pos>,
    frontier: Seq<Pos>,
    head: int,
    p: Pos,
    q: Pos,
    d: int,
    c: usize,
)
    requires
        push_step(cells, start, pre_cost, cost, pre_frontier, frontier, head, p, q, d, c),
    ensures
        cost_ok(cells, start, cost),
{
    let qi = cell_index(q.x as int, q.y as int);
    let sx = start.x as int;
    let sy = start.y as int;
    assert(cell_index(sx, sy) != qi);
    assert forall|x: int, y: int| #[trigger] discovered_at(cost, x, y)
        implies reach(cells, sx, sy, x, y, cost[cell_index(x, y)] as nat) by {
        if cell_index(x, y) == qi {
            lemma_cell_index_injective(x, y, q.x as int, q.y as int);
            assert(discovered_at(pre_cost, p.x as int, p.y as int));
            assert(reach(cells, sx, sy, p.x as int, p.y as int, c as nat));
            crate::geom::lemma_step_adjacent(p.x as int, p.y as int, d);
            lemma_reach_extend(cells, sx, sy, p.x as int, p.y as int, c as nat, x, y);
            assert(cost[qi] as nat == (c as nat + 1) as nat);
        } else {
            assert(discovered_at(pre_cost, x, y));
        }
    }
}

/// After a discovery the parent table stays sound: `q` points back at
/// `p`, everything else is untouched.
#[verifier::rlimit(50)]
proof fn lemma_push_parent_ok(
    cells: Seq<MapCell>,
    start: Pos,
    pre_cost: Seq<usize>,
    cost: Seq<usize>,
    pre_came: Seq<Option<u8>>,
    came: Seq<Option<u8>>,
    pre_frontier: Seq<Pos>,
    frontier: Seq<Pos>,
    head: int,
    p: Pos,
    q: Pos,
    d: int,
    c: usize,
)
    requires
        push_step(cells, start, pre_cost, cost, pre_frontier, frontier, head, p, q, d, c),
        parent_ok(cells, start, pre_cost, pre_came),
        came == pre_came.update(
            cell_index(q.x as int, q.y as int),
            Option::Some(((d + 2) % 4) as u8),
        ),
    ensures
        parent_ok(cells, start, cost, came),
{
    let qi = cell_index(q.x as int, q.y as int);
    let sx = start.x as int;
    let sy = start.y as int;
    assert(cell_index(sx, sy) != qi);
    crate::geom::lemma_reverse_direction_negates(d);
    assert forall|x: int, y: int|
        #[trigger] discovered_at(cost, x, y) && !(x == sx && y == sy)
        implies parent_edge(cells, cost, came, x, y) by {
        if cell_index(x, y) == qi {
            lemma_cell_index_injective(x, y, q.x as int, q.y as int);
            let rd = (d + 2) % 4;
            assert(came[cell_index(x, y)] == Option::Some(rd as u8));
            assert(x + dir_x(rd) == p.x as int && y + dir_y(rd) == p.y as int);
            assert(cell_index(p.x as int, p.y as int) != qi);
            assert(discovered_at(cost, p.x as int, p.y as int));
            assert(cost[cell_index(p.x as int, p.y as int)] == c);
        } else {
            assert(discovered_at(pre_cost, x, y));
            assert(parent_edge(cells, pre_cost, pre_came, x, y));
            assert(came[cell_index(x, y)] == pre_came[cell_index(x, y)]);
            let pd = pre_came[cell_index(x, y)]->0;
            assert(cell_index(x + dir_x(pd as int), y + dir_y(pd as int)) != qi);
        }
    }
}

/// After a discovery the frontier discipline is restored, with `q` at
/// the back at cost `c + 1`.
#[verifier::rlimit(100)]
proof fn lemma_push_frontier_ok(
    cells: Seq<MapCell>,
    start: Pos,
    pre_cost: Seq<usize>,
    cost: Seq<usize>,
    pre_frontier: Seq<Pos>,
    frontier: Seq<Pos>,
    head: int,
    p: Pos,
    q: Pos,
    d: int,
    c: usize,
)
    requires
        push_step(cells, start, pre_cost, cost, pre_frontier, frontier, head, p, q, d, c),
    ensures
        frontier_ok(cells, cost, frontier, head),
{
    let qi = cell_index(q.x as int, q.y as int);
    let last = frontier.len() - 1;
    assert(cost_at(pre_cost, pre_frontier[head]) <= head);
    assert(c + 1 <= last);
    assert(c + 1 < usize::MAX);
    assert forall|x: int, y: int| in_bounds(x, y) && cell_index(x, y) == qi
        implies x == q.x as int && y == q.y as int by {
        lemma_cell_index_injective(x, y, q.x as int, q.y as int);
    }
    // old entries are unchanged, stay discovered, and keep their cost
    assert forall|i: int| 0 <= i < last implies {
        &&& #[trigger] frontier[i] == pre_frontier[i]
        &&& pos_in_bounds(frontier[i])
        &&& discovered_at(cost, frontier[i].x as int, frontier[i].y as int)
        &&& cost_at(cost, frontier[i]) == cost_at(pre_cost, pre_frontier[i])
        &&& frontier[i] != q
    } by {
        assert(discovered_at(pre_cost, pre_frontier[i].x as int, pre_frontier[i].y as int));
        assert(cell_index(pre_frontier[i].x as int, pre_frontier[i].y as int) != qi);
    }
    assert(frontier[last] == q);
    assert(discovered_at(cost, q.x as int, q.y as int));
    assert(cost_at(cost, q) == c + 1);
    assert(cost_at(cost, frontier[head]) == c);
    // pairwise distinct, hence still within one entry per cell
    assert forall|i: int, j: int| #![trigger frontier[i], frontier[j]]
        0 <= i < j < frontier.len() implies frontier[i] != frontier[j] by {
        if j < last {
            assert(pre_frontier[i] != pre_frontier[j]);
        }
    }
    lemma_distinct_pos_len(frontier);
    // sorted by cost
    assert forall|i: int, j: int| #![trigger frontier[i], frontier[j]]
        0 <= i <= j < frontier.len()
        implies cost_at(cost, frontier[i]) <= cost_at(cost, frontier[j]) by {
        if j < last {
            assert(cost_at(pre_cost, pre_frontier[i]) <= cost_at(pre_cost, pre_frontier[j]));
        } else if i < last {
            if i <= head {
                assert(cost_at(pre_cost, pre_frontier[i]) <= cost_at(pre_cost, pre_frontier[head]));
            } else {
                assert(cost_at(pre_cost, pre_frontier[i])
                    <= cost_at(pre_cost, pre_frontier[head]) + 1);
            }
        }
    }
    // pending costs stay within one of the front pending entry
    assert forall|j: int| #![trigger frontier[j]] head <= j < frontier.len()
        implies cost_at(cost, frontier[j]) <= cost_at(cost, frontier[head]) + 1 by {
        if j < last {
            assert(cost_at(pre_cost, pre_frontier[j]) <= cost_at(pre_cost, pre_frontier[head]) + 1);
        }
    }
    // every discovered cell still has a frontier entry
    assert forall|x: int, y: int| #[trigger] discovered_at(cost, x, y)
        implies exists|i: int|
            0 <= i < frontier.len() && (#[trigger] frontier[i]).x as int == x
                && frontier[i].y as int == y by {
        if cell_index(x, y) == qi {
            assert(frontier[last].x as int == x && frontier[last].y as int == y);
        } else {
            assert(discovered_at(pre_cost, x, y));
            let i = choose|i: int|
                0 <= i < pre_frontier.len() && (#[trigger] pre_frontier[i]).x as int == x
                    && pre_frontier[i].y as int == y;
            assert(frontier[i].x as int == x && frontier[i].y as int == y);
        }
    }
    // expanded entries keep all their edges relaxed
    assert forall|i: int, d2: int| #![trigger relaxed_edge(cells, cost, frontier[i], d2)]
        0 <= i < head && 0 <= d2 < 4
        implies relaxed_edge(cells, cost, frontier[i], d2) by {
        assert(relaxed_edge(cells, pre_cost, pre_frontier[i], d2));
        lemma_relaxed_edge_stable(cells, pre_cost, cost, pre_frontier[i], d2);
    }
}

/// Re-establishes the search invariants after discovering `q` from the
/// frontier entry `p` along direction `d`: `q`'s cost becomes `c + 1`,
/// its parent points back at `p`, and `q` joins the end of the frontier.
#[verifier::rlimit(50)]
proof fn lemma_search_push(
    cells: Seq<MapCell>,
    start: Pos,
    pre_cost: Seq<usize>,
    cost: Seq<usize>,
    came: Seq<Option<u8>>,
    pre_came: Seq<Option<u8>>,
    pre_frontier: Seq<Pos>,
    frontier: Seq<Pos>,
    head: int,
    p: Pos,
    q: Pos,
    d: int,
    c: usize,
)
    requires
        push_step(cells, start, pre_cost, cost, pre_frontier, frontier, head, p, q, d, c),
        parent_ok(cells, start, pre_cost, pre_came),
        came == pre_came.update(
            cell_index(q.x as int, q.y as int),
            Option::Some(((d + 2) % 4) as u8),
        ),
    ensures
        cost_ok(cells, start, cost),
        parent_ok(cells, start, cost, came),
        frontier_ok(cells, cost, frontier, head),
        relaxed_edge(cells, cost, p, d),
        cost[cell_index(p.x as int, p.y as int)] == c,
        forall|dd: int| 0 <= dd < 4 && relaxed_edge(cells, pre_cost, p, dd)
            ==> #[trigger] relaxed_edge(cells, cost, p, dd),
{
    let qi = cell_index(q.x as int, q.y as int);
    assert(cell_index(p.x as int, p.y as int) != qi);
    assert(cost_at(pre_cost, pre_frontier[head]) <= head);
    assert(c + 1 < usize::MAX);
    lemma_push_cost_ok(cells, start, pre_cost, cost, pre_frontier, frontier, head, p, q, d, c);
    lemma_push_parent_ok(
        cells, start, pre_cost, cost, pre_came, came, pre_frontier, frontier, head, p, q, d, c,
    );
    lemma_push_frontier_ok(cells, start, pre_cost, cost, pre_frontier, frontier, head, p, q, d, c);
    assert(relaxed_edge(cells, cost, p, d)) by {
        assert(cost[cell_index(p.x as int, p.y as int)] == c);
        assert(cost[qi] == c + 1);
    }
    assert forall|dd: int| 0 <= dd < 4 && relaxed_edge(cells, pre_cost, p, dd)
        implies #[trigger] relaxed_edge(cells, cost, p, dd) by {
        lemma_relaxed_edge_stable(cells, pre_cost, cost, p, dd);
    }
}

} // verus!
