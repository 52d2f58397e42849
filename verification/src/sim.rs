//! The shared world and its agents: consumable items, single-occupant
//! dens, per-agent state, the native-call surface a script sees, and the
//! per-tick state transition.
//!
//! The script interpreter itself lives outside this library. The host
//! resumes each agent's script once per tick; during that resume the
//! script calls the bridge methods here (`get_x`, `find_path_to_item`,
//! `get_next_move`, ...), and the yielded value comes back to the host,
//! which hands it to `tick_agent` as a `ScriptEvent`. Agents are
//! processed strictly one at a time, in index order.

use vstd::prelude::*;

use crate::geom::{
    dir_x, dir_y, in_bounds, pos_in_bounds, seq_contains_pos, Pos, BOARD_SIZE_I, NO_MOVE,
};
use crate::grid::{open_at, Board, MapCell};
use crate::path::{find_path, find_path_post, PathNode};
use crate::rng::random_below;

verus! {

/// Satiety is kept in thousandths: this is 1.0, the full stomach.
pub const SATIETY_MAX: u32 = 1000;

/// A newly placed agent starts at satiety 0.5.
pub const SATIETY_START: u32 = 500;

/// Eating one item raises satiety by 0.2.
pub const ITEM_ENERGY: u32 = 200;

/// Each tick lowers satiety by 0.005.
pub const HUNGER_RATE: u32 = 5;

/// No more than this many items exist at once.
pub const MAX_ITEMS: usize = 10;

/// A display-only colour; it plays no part in the rules.
#[derive(Clone, Copy, Debug, PartialEq, Eq, Structural)]
pub struct Tint {
    pub r: u8,
    pub g: u8,
    pub b: u8,
}

/// A fixed resting place. At most one agent occupies a den at a time;
/// the flag tracks arrival and departure.
#[derive(Clone, Copy, Debug, PartialEq, Eq, Structural)]
pub struct Den {
    pub pos: Pos,
    pub occupied: bool,
}

/// One agent: its stable id, grid position, display tint, satiety in
/// thousandths, count of items eaten, and the cached path the script
/// last computed.
#[derive(Debug)]
pub struct AgentState {
    pub id: usize,
    pub pos: Pos,
    pub tint: Tint,
    pub satiety: u32,
    pub ate: u64,
    pub path: Option<Vec<PathNode>>,
}

/// What one resume of an agent's script produced: it ran to completion,
/// it yielded a movement code, or it faulted.
#[derive(Clone, Copy, Debug, PartialEq, Eq, Structural)]
pub enum ScriptEvent {
    Finished,
    Suspended(i64),
    Error,
}

/// The movement code a script event carries, if any.
pub open spec fn decoded_code(e: ScriptEvent) -> Option<i64> {
    match e {
        ScriptEvent::Suspended(v) => Option::Some(v),
        _ => Option::None,
    }
}

/// The whole simulation: the board, the shared item and den sets, and
/// the agents.
pub struct Sim {
    pub board: Board,
    pub items: Vec<Pos>,
    pub dens: Vec<Den>,
    pub agents: Vec<AgentState>,
}

/// Items sit on open cells, no two on the same cell.
pub open spec fn items_ok(cells: Seq<MapCell>, items: Seq<Pos>) -> bool {
    &&& forall|i: int| #![trigger items[i]] 0 <= i < items.len()
        ==> open_at(cells, items[i].x as int, items[i].y as int)
    &&& forall|i: int, j: int| #![trigger items[i], items[j]]
        0 <= i < j < items.len() ==> items[i] != items[j]
}

/// Dens sit on open cells, no two on the same cell.
pub open spec fn dens_ok(cells: Seq<MapCell>, dens: Seq<Den>) -> bool {
    &&& forall|i: int| #![trigger dens[i]] 0 <= i < dens.len()
        ==> open_at(cells, dens[i].pos.x as int, dens[i].pos.y as int)
    &&& forall|i: int, j: int| #![trigger dens[i], dens[j]]
        0 <= i < j < dens.len() ==> dens[i].pos != dens[j].pos
}

/// Agents stand on open cells, one per cell, numbered by their index,
/// with satiety inside [0, 1].
pub open spec fn agents_ok(cells: Seq<MapCell>, agents: Seq<AgentState>) -> bool {
    &&& forall|i: int| #![trigger agents[i]] 0 <= i < agents.len()
        ==> open_at(cells, agents[i].pos.x as int, agents[i].pos.y as int)
            && agents[i].satiety <= SATIETY_MAX && agents[i].id == i
    &&& forall|i: int, j: int| #![trigger agents[i], agents[j]]
        0 <= i < j < agents.len() ==> agents[i].pos != agents[j].pos
}

/// A den's flag is set exactly when some agent stands on it.
pub open spec fn den_flags_ok(dens: Seq<Den>, agents: Seq<AgentState>) -> bool {
    forall|i: int| #![trigger dens[i]] 0 <= i < dens.len()
        ==> (dens[i].occupied <==> exists|j: int|
            0 <= j < agents.len() && (#[trigger] agents[j]).pos == dens[i].pos)
}

impl Sim {
    /// The simulation invariant, established at creation and preserved
    /// by every tick and native call.
    pub open spec fn wf(&self) -> bool {
        &&& self.board.wf()
        &&& items_ok(self.board.cells@, self.items@)
        &&& dens_ok(self.board.cells@, self.dens@)
        &&& agents_ok(self.board.cells@, self.agents@)
        &&& den_flags_ok(self.dens@, self.agents@)
    }

    /// Position of agent `i`.
    pub fn agent_pos(&self, i: usize) -> (r: Pos)
        requires
            i < self.agents@.len(),
        ensures
            r == self.agents@[i as int].pos,
    {
        self.agents[i].pos
    }

    /// Native `get_x`: the agent's column.
    pub fn get_x(&self, i: usize) -> (r: i64)
        requires
            i < self.agents@.len(),
        ensures
            r == self.agents@[i as int].pos.x as i64,
    {
        self.agents[i].pos.x as i64
    }

    /// Native `get_y`: the agent's row.
    pub fn get_y(&self, i: usize) -> (r: i64)
        requires
            i < self.agents@.len(),
        ensures
            r == self.agents@[i as int].pos.y as i64,
    {
        self.agents[i].pos.y as i64
    }

    /// Native `get_satiety`: the agent's satiety, in thousandths of a
    /// full stomach. The host divides by 1000 to hand the script a real
    /// number.
    pub fn get_satiety(&self, i: usize) -> (r: u32)
        requires
            i < self.agents@.len(),
        ensures
            r == self.agents@[i as int].satiety,
    {
        self.agents[i].satiety
    }

    /// Native `is_at_den`: true exactly when the agent stands on some
    /// den's position, whatever that den's occupancy flag says.
    pub fn is_at_den(&self, i: usize) -> (r: bool)
        requires
            i < self.agents@.len(),
        ensures
            r == exists|j: int|
                0 <= j < self.dens@.len()
                    && (#[trigger] self.dens@[j]).pos == self.agents@[i as int].pos,
    {
        let p = self.agents[i].pos;
        let mut j: usize = 0;
        while j < self.dens.len()
            invariant
                j <= self.dens@.len(),
                p == self.agents@[i as int].pos,
                i < self.agents@.len(),
                forall|k: int| 0 <= k < j ==> (#[trigger] self.dens@[k]).pos != p,
            decreases self.dens@.len() - j,
        {
            if self.dens[j].pos.x == p.x && self.dens[j].pos.y == p.y {
                assert(self.dens@[j as int].pos == p);
                return true;
            }
            j += 1;
        }
        false
    }
}

/// Everything of an agent except its cached path: what the path-caching
/// native calls leave untouched.
pub open spec fn same_but_path(a: AgentState, b: AgentState) -> bool {
    b.id == a.id && b.pos == a.pos && b.tint == a.tint && b.satiety == a.satiety && b.ate == a.ate
}

/// Positions of the dens whose flag is clear, in den order: the goal set
/// of `find_path_to_den`.
pub open spec fn free_den_positions(dens: Seq<Den>) -> Seq<Pos>
    decreases dens.len(),
{
    if dens.len() == 0 {
        Seq::empty()
    } else {
        let rest = free_den_positions(dens.drop_last());
        if !dens.last().occupied {
            rest.push(dens.last().pos)
        } else {
            rest
        }
    }
}

/// Replacing agents' cached paths disturbs neither the agent invariant
/// nor the den flags.
proof fn lemma_wf_path_update(
    cells: Seq<MapCell>,
    dens: Seq<Den>,
    pre: Seq<AgentState>,
    post: Seq<AgentState>,
)
    requires
        post.len() == pre.len(),
        forall|j: int| 0 <= j < pre.len() ==> same_but_path(pre[j], #[trigger] post[j]),
        agents_ok(cells, pre),
        den_flags_ok(dens, pre),
    ensures
        agents_ok(cells, post),
        den_flags_ok(dens, post),
{
    assert forall|i: int| 0 <= i < dens.len() implies ((#[trigger] dens[i]).occupied
        <==> exists|j: int| 0 <= j < post.len() && (#[trigger] post[j]).pos == dens[i].pos) by {
        if dens[i].occupied {
            let j = choose|j: int| 0 <= j < pre.len() && (#[trigger] pre[j]).pos == dens[i].pos;
            assert(post[j].pos == dens[i].pos);
        }
        if exists|j: int| 0 <= j < post.len() && (#[trigger] post[j]).pos == dens[i].pos {
            let j = choose|j: int| 0 <= j < post.len() && (#[trigger] post[j]).pos == dens[i].pos;
            assert(pre[j].pos == dens[i].pos);
        }
    }
}

impl Sim {
    /// Native `find_path_to_item`: plans a path from the agent's cell to
    /// the nearest item, replaces the agent's cached path with the
    /// outcome, and reports whether one was found.
    pub fn find_path_to_item(&mut self, i: usize) -> (found: bool)
        requires
            old(self).wf(),
            i < old(self).agents@.len(),
        ensures
            final(self).wf(),
            final(self).board == old(self).board,
            final(self).items@ == old(self).items@,
            final(self).dens@ == old(self).dens@,
            final(self).agents@.len() == old(self).agents@.len(),
            forall|j: int| 0 <= j < final(self).agents@.len() && j != i
                ==> #[trigger] final(self).agents@[j] == old(self).agents@[j],
            same_but_path(old(self).agents@[i as int], final(self).agents@[i as int]),
            find_path_post(
                final(self).board.cells@,
                old(self).agents@[i as int].pos,
                old(self).items@,
                final(self).agents@[i as int].path,
            ),
            found == (final(self).agents@[i as int].path is Some),
    {
        let start = self.agents[i].pos;
        let r = find_path(start, &self.board, &self.items);
        let found = r.is_some();
        self.agents[i].path = r;
        proof {
            lemma_wf_path_update(
                self.board.cells@,
                self.dens@,
                old(self).agents@,
                self.agents@,
            );
        }
        found
    }

    /// Native `find_path_to_den`: plans a path from the agent's cell to
    /// the nearest den whose flag is clear, replaces the agent's cached
    /// path with the outcome, and reports whether one was found.
    pub fn find_path_to_den(&mut self, i: usize) -> (found: bool)
        requires
            old(self).wf(),
            i < old(self).agents@.len(),
        ensures
            final(self).wf(),
            final(self).board == old(self).board,
            final(self).items@ == old(self).items@,
            final(self).dens@ == old(self).dens@,
            final(self).agents@.len() == old(self).agents@.len(),
            forall|j: int| 0 <= j < final(self).agents@.len() && j != i
                ==> #[trigger] final(self).agents@[j] == old(self).agents@[j],
            same_but_path(old(self).agents@[i as int], final(self).agents@[i as int]),
            find_path_post(
                final(self).board.cells@,
                old(self).agents@[i as int].pos,
                free_den_positions(old(self).dens@),
                final(self).agents@[i as int].path,
            ),
            found == (final(self).agents@[i as int].path is Some),
    {
        let mut goals: Vec<Pos> = Vec::new();
        let mut j: usize = 0;
        while j < self.dens.len()
            invariant
                j <= self.dens@.len(),
                goals@ == free_den_positions(self.dens@.take(j as int)),
            decreases self.dens@.len() - j,
        {
            let den = self.dens[j];
            proof {
                assert(self.dens@.take(j as int + 1).drop_last() =~= self.dens@.take(j as int));
                assert(self.dens@.take(j as int + 1).last() == self.dens@[j as int]);
            }
            if !den.occupied {
                goals.push(den.pos);
            }
            j += 1;
        }
        proof {
            assert(self.dens@.take(self.dens@.len() as int) =~= self.dens@);
        }
        let start = self.agents[i].pos;
        let r = find_path(start, &self.board, &goals);
        let found = r.is_some();
        self.agents[i].path = r;
        proof {
            lemma_wf_path_update(
                self.board.cells@,
                self.dens@,
                old(self).agents@,
                self.agents@,
            );
        }
        found
    }

    /// Native `get_next_move`: pops the next step off the agent's cached
    /// path and returns its direction code, or the no-movement sentinel
    /// when no path is cached or the cached path is used up.
    pub fn get_next_move(&mut self, i: usize) -> (code: i64)
        requires
            old(self).wf(),
            i < old(self).agents@.len(),
        ensures
            final(self).wf(),
            final(self).board == old(self).board,
            final(self).items@ == old(self).items@,
            final(self).dens@ == old(self).dens@,
            final(self).agents@.len() == old(self).agents@.len(),
            forall|j: int| 0 <= j < final(self).agents@.len() && j != i
                ==> #[trigger] final(self).agents@[j] == old(self).agents@[j],
            same_but_path(old(self).agents@[i as int], final(self).agents@[i as int]),
            match old(self).agents@[i as int].path {
                Option::None => code == NO_MOVE as i64 && final(self).agents@[i as int].path is None,
                Option::Some(v) => {
                    if v@.len() == 0 {
                        &&& code == NO_MOVE as i64
                        &&& (final(self).agents@[i as int].path matches Option::Some(w) && w@ == v@)
                    } else {
                        &&& code == v@[v@.len() - 1].direction as i64
                        &&& (final(self).agents@[i as int].path matches Option::Some(w)
                            && w@ == v@.subrange(0, v@.len() - 1))
                    }
                },
            },
    {
        let mut agent = self.agents.remove(i);
        let mut code: i64 = NO_MOVE as i64;
        match agent.path {
            Option::None => {
                agent.path = None;
            },
            Option::Some(mut v) => {
                match v.pop() {
                    Option::None => {},
                    Option::Some(node) => {
                        code = node.direction as i64;
                    },
                }
                agent.path = Some(v);
            },
        }
        self.agents.insert(i, agent);
        proof {
            assert(self.agents@ =~= old(self).agents@.update(
                i as int,
                self.agents@[i as int],
            ));
            lemma_wf_path_update(
                self.board.cells@,
                self.dens@,
                old(self).agents@,
                self.agents@,
            );
        }
        code
    }
}

/// A coordinate clamped to the board: movement clamps at both edges
/// rather than wrapping.
pub open spec fn clamp_coord(v: int) -> int {
    if v < 0 {
        0
    } else if v >= BOARD_SIZE_I {
        (BOARD_SIZE_I - 1) as int
    } else {
        v
    }
}

/// True when an agent other than `i` stands on `(x, y)`.
pub open spec fn other_agent_at(agents: Seq<AgentState>, i: int, x: int, y: int) -> bool {
    exists|j: int|
        0 <= j < agents.len() && j != i && (#[trigger] agents[j]).pos.x as int == x
            && agents[j].pos.y as int == y
}

/// A destination agent `i` may not enter: a wall or out-of-bounds cell,
/// or a cell where another agent already stands.
pub open spec fn move_blocked(
    cells: Seq<MapCell>,
    agents: Seq<AgentState>,
    i: int,
    x: int,
    y: int,
) -> bool {
    !open_at(cells, x, y) || other_agent_at(agents, i, x, y)
}

/// Where agent `i` stands after its movement decision is applied: a
/// yielded code indexing a direction moves it one cell, clamped to the
/// board and refused when the destination is blocked; any other outcome
/// leaves it in place.
pub open spec fn next_agent_pos(
    cells: Seq<MapCell>,
    agents: Seq<AgentState>,
    i: int,
    e: ScriptEvent,
) -> Pos {
    let p = agents[i].pos;
    match decoded_code(e) {
        Option::Some(code) => if 0 <= code < 4 {
            let x = clamp_coord(p.x + dir_x(code as int));
            let y = clamp_coord(p.y + dir_y(code as int));
            if move_blocked(cells, agents, i, x, y) {
                p
            } else {
                Pos { x: x as i32, y: y as i32 }
            }
        } else {
            p
        },
        Option::None => p,
    }
}

/// Satiety after eating one item: raised by the award, clamped to full.
pub open spec fn award_satiety(s: int) -> int {
    if s + ITEM_ENERGY > SATIETY_MAX {
        SATIETY_MAX as int
    } else {
        s + ITEM_ENERGY
    }
}

/// Satiety after the per-tick decay: lowered by the rate, floored at
/// empty.
pub open spec fn decay_satiety(s: int) -> int {
    if s >= HUNGER_RATE {
        s - HUNGER_RATE
    } else {
        0
    }
}

/// The consumption counter after one more item, stuck at the top of its
/// range rather than wrapping.
pub open spec fn saturating_inc(a: u64) -> u64 {
    if a < u64::MAX {
        (a + 1) as u64
    } else {
        a
    }
}

/// A den's flag after an agent's tick: set on arrival, cleared on
/// departure, otherwise untouched.
pub open spec fn den_flag_after(den: Den, prev: Pos, np: Pos) -> bool {
    if den.pos == np {
        true
    } else if np != prev && den.pos == prev {
        false
    } else {
        den.occupied
    }
}

/// Everything one agent's tick does to the world, relative to the state
/// before it: the movement decision is applied, an item under the agent
/// is consumed with its award, satiety decays, and den flags follow the
/// agent's departure and arrival. Nothing else changes.
pub open spec fn tick_post(pre: Sim, post: Sim, i: int, event: ScriptEvent) -> bool {
    let np = next_agent_pos(pre.board.cells@, pre.agents@, i, event);
    let consumed = seq_contains_pos(pre.items@, np);
    &&& post.board == pre.board
    &&& post.agents@.len() == pre.agents@.len()
    &&& forall|j: int| #![trigger post.agents@[j]]
        0 <= j < pre.agents@.len() && j != i ==> post.agents@[j] == pre.agents@[j]
    &&& post.agents@[i].pos == np
    &&& post.agents@[i].id == pre.agents@[i].id
    &&& post.agents@[i].tint == pre.agents@[i].tint
    &&& post.agents@[i].path == pre.agents@[i].path
    &&& post.agents@[i].ate == if consumed {
        saturating_inc(pre.agents@[i].ate)
    } else {
        pre.agents@[i].ate
    }
    &&& post.agents@[i].satiety as int == decay_satiety(
        if consumed {
            award_satiety(pre.agents@[i].satiety as int)
        } else {
            pre.agents@[i].satiety as int
        },
    )
    &&& if consumed {
        exists|k: int|
            0 <= k < pre.items@.len() && #[trigger] pre.items@[k] == np && post.items@
                == pre.items@.remove(k)
    } else {
        post.items@ == pre.items@
    }
    &&& post.dens@.len() == pre.dens@.len()
    &&& forall|di: int| #![trigger post.dens@[di]] 0 <= di < pre.dens@.len()
        ==> post.dens@[di].pos == pre.dens@[di].pos && post.dens@[di].occupied == den_flag_after(
            pre.dens@[di],
            pre.agents@[i].pos,
            np,
        )
}

/// Index of the item sitting on `p`, if any.
fn find_pos_index(v: &Vec<Pos>, p: Pos) -> (r: Option<usize>)
    ensures
        match r {
            Option::Some(k) => k < v@.len() && v@[k as int] == p,
            Option::None => !seq_contains_pos(v@, p),
        },
{
    let mut j: usize = 0;
    while j < v.len()
        invariant
            j <= v@.len(),
            forall|k: int| 0 <= k < j ==> v@[k] != p,
        decreases v@.len() - j,
    {
        if v[j].x == p.x && v[j].y == p.y {
            assert(v@[j as int] == p);
            return Some(j);
        }
        j += 1;
    }
    None
}

/// Index of the den sitting on `p`, if any.
fn find_den_index(v: &Vec<Den>, p: Pos) -> (r: Option<usize>)
    ensures
        match r {
            Option::Some(k) => k < v@.len() && v@[k as int].pos == p,
            Option::None => forall|k: int| 0 <= k < v@.len() ==> (#[trigger] v@[k]).pos != p,
        },
{
    let mut j: usize = 0;
    while j < v.len()
        invariant
            j <= v@.len(),
            forall|k: int| 0 <= k < j ==> (#[trigger] v@[k]).pos != p,
        decreases v@.len() - j,
    {
        if v[j].pos.x == p.x && v[j].pos.y == p.y {
            assert(v@[j as int].pos == p);
            return Some(j);
        }
        j += 1;
    }
    None
}

/// Removing one item keeps the item invariant.
proof fn lemma_items_remove(cells: Seq<MapCell>, pre: Seq<Pos>, post: Seq<Pos>, k: int)
    requires
        0 <= k < pre.len(),
        post == pre.remove(k),
        items_ok(cells, pre),
    ensures
        items_ok(cells, post),
{
    assert forall|j: int| 0 <= j < post.len()
        implies open_at(cells, (#[trigger] post[j]).x as int, post[j].y as int) by {
        if j < k {
            assert(post[j] == pre[j]);
        } else {
            assert(post[j] == pre[j + 1]);
        }
    }
    assert forall|a: int, b: int| #![trigger post[a], post[b]] 0 <= a < b < post.len()
        implies post[a] != post[b] by {
        let pa: int = if a < k { a } else { a + 1 };
        let pb: int = if b < k { b } else { b + 1 };
        assert(post[a] == pre[pa] && post[b] == pre[pb]);
        assert(pre[pa] != pre[pb]);
    }
}

impl Sim {
    /// True when agent `i` may not move onto `cand`.
    fn blocked_for_agent(&self, i: usize, cand: Pos) -> (r: bool)
        requires
            self.board.wf(),
            pos_in_bounds(cand),
            i < self.agents@.len(),
        ensures
            r == move_blocked(
                self.board.cells@,
                self.agents@,
                i as int,
                cand.x as int,
                cand.y as int,
            ),
    {
        if self.board.is_occupied_by_wall(cand) {
            return true;
        }
        let mut j: usize = 0;
        while j < self.agents.len()
            invariant
                j <= self.agents@.len(),
                i < self.agents@.len(),
                forall|k: int| 0 <= k < j && k != i
                    ==> !((#[trigger] self.agents@[k]).pos.x == cand.x
                        && self.agents@[k].pos.y == cand.y),
            decreases self.agents@.len() - j,
        {
            if j != i {
                let q = self.agents[j].pos;
                if q.x == cand.x && q.y == cand.y {
                    assert(other_agent_at(
                        self.agents@,
                        i as int,
                        cand.x as int,
                        cand.y as int,
                    )) by {
                        assert(self.agents@[j as int].pos.x as int == cand.x as int
                            && self.agents@[j as int].pos.y as int == cand.y as int);
                    }
                    return true;
                }
            }
            j += 1;
        }
        false
    }

    /// One agent's tick, given what its script's resume produced. A
    /// yielded code indexing a direction moves the agent one cell,
    /// clamped to the board and refused when the destination is a wall
    /// or another agent's cell; any other event or code leaves it in
    /// place. An item on the resulting cell is then eaten, satiety
    /// decays, and den flags track the agent's departure and arrival.
    #[verifier::spinoff_prover]
    #[verifier::rlimit(100)]
    pub fn tick_agent(&mut self, i: usize, event: ScriptEvent)
        requires
            old(self).wf(),
            i < old(self).agents@.len(),
        ensures
            final(self).wf(),
            tick_post(*old(self), *final(self), i as int, event),
    {
        let ghost cells = self.board.cells@;
        let ghost pre_agents = self.agents@;
        let prev = self.agents[i].pos;
        let code: i64 = match event {
            ScriptEvent::Suspended(v) => v,
            _ => -1,
        };
        let mut target = prev;
        if 0 <= code && code < 4 {
            let d = code as u8;
            let mut x = prev.x + crate::geom::dir_step_x(d);
            let mut y = prev.y + crate::geom::dir_step_y(d);
            if x < 0 {
                x = 0;
            } else if x >= BOARD_SIZE_I {
                x = BOARD_SIZE_I - 1;
            }
            if y < 0 {
                y = 0;
            } else if y >= BOARD_SIZE_I {
                y = BOARD_SIZE_I - 1;
            }
            let cand = Pos { x, y };
            if !self.blocked_for_agent(i, cand) {
                target = cand;
            }
        }
        let ghost np = next_agent_pos(cells, pre_agents, i as int, event);
        proof {
            assert(target == np);
            assert(open_at(cells, np.x as int, np.y as int));
        }
        self.agents[i].pos = target;
        // consumption
        match find_pos_index(&self.items, target) {
            Option::Some(k) => {
                self.items.remove(k);
                let a = self.agents[i].ate;
                self.agents[i].ate = if a < u64::MAX {
                    a + 1
                } else {
                    a
                };
                let s = self.agents[i].satiety;
                self.agents[i].satiety = if s + ITEM_ENERGY > SATIETY_MAX {
                    SATIETY_MAX
                } else {
                    s + ITEM_ENERGY
                };
                proof {
                    lemma_items_remove(cells, old(self).items@, self.items@, k as int);
                }
            },
            Option::None => {},
        }
        // hunger decay
        let s = self.agents[i].satiety;
        self.agents[i].satiety = if s >= HUNGER_RATE {
            s - HUNGER_RATE
        } else {
            0
        };
        // den occupancy transitions
        if prev.x != target.x || prev.y != target.y {
            match find_den_index(&self.dens, prev) {
                Option::Some(di) => {
                    let dpos = self.dens[di].pos;
                    self.dens.set(di, Den { pos: dpos, occupied: false });
                },
                Option::None => {},
            }
        }
        match find_den_index(&self.dens, target) {
            Option::Some(di) => {
                let dpos = self.dens[di].pos;
                self.dens.set(di, Den { pos: dpos, occupied: true });
            },
            Option::None => {},
        }
        proof {
            lemma_tick_wf(*old(self), *self, i as int, event);
        }
    }
}

/// The tick transition preserves the simulation invariant.
#[verifier::rlimit(100)]
proof fn lemma_tick_wf(pre: Sim, post: Sim, i: int, event: ScriptEvent)
    requires
        pre.wf(),
        0 <= i < pre.agents@.len(),
        tick_post(pre, post, i, event),
        open_at(
            pre.board.cells@,
            next_agent_pos(pre.board.cells@, pre.agents@, i, event).x as int,
            next_agent_pos(pre.board.cells@, pre.agents@, i, event).y as int,
        ),
    ensures
        post.wf(),
{
    let cells = pre.board.cells@;
    let np = next_agent_pos(cells, pre.agents@, i, event);
    let prev = pre.agents@[i].pos;
    let consumed = seq_contains_pos(pre.items@, np);
    // items
    if consumed {
        let k = choose|k: int|
            0 <= k < pre.items@.len() && #[trigger] pre.items@[k] == np && post.items@
                == pre.items@.remove(k);
        lemma_items_remove(cells, pre.items@, post.items@, k);
    }
    // agents: positions distinct, cells open, satiety bounded
    assert forall|a: int, b: int| #![trigger post.agents@[a], post.agents@[b]]
        0 <= a < b < post.agents@.len() implies post.agents@[a].pos != post.agents@[b].pos by {
        if a != i && b != i {
            assert(pre.agents@[a].pos != pre.agents@[b].pos);
        } else {
            let o: int = if a == i { b } else { a };
            assert(post.agents@[o].pos == pre.agents@[o].pos);
            if np == prev {
                if o < i {
                    assert(pre.agents@[o].pos != pre.agents@[i].pos);
                } else {
                    assert(pre.agents@[i].pos != pre.agents@[o].pos);
                }
            } else {
                assert(!move_blocked(cells, pre.agents@, i, np.x as int, np.y as int));
                assert(!other_agent_at(pre.agents@, i, np.x as int, np.y as int));
                assert(pre.agents@[o].pos != np) by {
                    if pre.agents@[o].pos == np {
                        assert(pre.agents@[o].pos.x as int == np.x as int
                            && pre.agents@[o].pos.y as int == np.y as int);
                    }
                }
            }
        }
    }
    assert(agents_ok(cells, post.agents@)) by {
        assert forall|j: int| 0 <= j < post.agents@.len()
            implies open_at(
                cells,
                (#[trigger] post.agents@[j]).pos.x as int,
                post.agents@[j].pos.y as int,
            ) && post.agents@[j].satiety <= SATIETY_MAX && post.agents@[j].id == j by {
            if j != i {
                assert(post.agents@[j] == pre.agents@[j]);
            }
        }
    }
    // dens: positions unchanged, flags match occupancy
    assert(dens_ok(cells, post.dens@)) by {
        assert forall|a: int, b: int| #![trigger post.dens@[a], post.dens@[b]]
            0 <= a < b < post.dens@.len() implies post.dens@[a].pos != post.dens@[b].pos by {
            assert(pre.dens@[a].pos != pre.dens@[b].pos);
        }
        assert forall|a: int| 0 <= a < post.dens@.len()
            implies open_at(
                cells,
                (#[trigger] post.dens@[a]).pos.x as int,
                post.dens@[a].pos.y as int,
            ) by {
            assert(post.dens@[a].pos == pre.dens@[a].pos);
            assert(open_at(cells, pre.dens@[a].pos.x as int, pre.dens@[a].pos.y as int));
        }
    }
    assert(den_flags_ok(post.dens@, post.agents@)) by {
        assert forall|di: int| 0 <= di < post.dens@.len()
            implies ((#[trigger] post.dens@[di]).occupied <==> exists|j: int|
                0 <= j < post.agents@.len() && (#[trigger] post.agents@[j]).pos
                    == post.dens@[di].pos) by {
            let dpos = pre.dens@[di].pos;
            assert(post.dens@[di].pos == dpos);
            if dpos == np {
                // arrival: agent i stands here now
                assert(post.agents@[i].pos == dpos);
                assert(post.dens@[di].occupied);
            } else if np != prev && dpos == prev {
                // departure: nobody stands here any more
                assert(!post.dens@[di].occupied);
                assert forall|j: int| 0 <= j < post.agents@.len()
                    implies (#[trigger] post.agents@[j]).pos != dpos by {
                    if j != i {
                        assert(post.agents@[j] == pre.agents@[j]);
                        if j < i {
                            assert(pre.agents@[j].pos != pre.agents@[i].pos);
                        } else {
                            assert(pre.agents@[i].pos != pre.agents@[j].pos);
                        }
                    }
                }
            } else {
                // untouched: occupancy here is what it was
                assert(post.dens@[di].occupied == pre.dens@[di].occupied);
                if pre.dens@[di].occupied {
                    let j = choose|j: int|
                        0 <= j < pre.agents@.len() && (#[trigger] pre.agents@[j]).pos == dpos;
                    assert(j != i) by {
                        if j == i {
                            assert(dpos == prev);
                            assert(np == prev || !(np != prev && dpos == prev));
                            assert(dpos == np);
                        }
                    }
                    assert(post.agents@[j].pos == dpos);
                }
                if exists|j: int|
                    0 <= j < post.agents@.len() && (#[trigger] post.agents@[j]).pos == dpos {
                    let j = choose|j: int|
                        0 <= j < post.agents@.len() && (#[trigger] post.agents@[j]).pos == dpos;
                    assert(j != i) by {
                        if j == i {
                            assert(post.agents@[i].pos == np);
                        }
                    }
                    assert(pre.agents@[j].pos == dpos);
                }
            }
        }
    }
}

/// True when some entry of `v` sits on the cell `(x, y)`.
pub open spec fn contains_xy(v: Seq<Pos>, x: int, y: int) -> bool {
    exists|j: int|
        0 <= j < v.len() && (#[trigger] v[j]).x as int == x && v[j].y as int == y
}

/// Picks a cell that is open and not in `occupied`, re-rolling random
/// cells until one fits. The re-rolling is bounded and falls back to a
/// row-major scan, so the call returns even on a crowded board: `None`
/// exactly when every open cell is occupied.
pub fn generate_pos(board: &Board, occupied: &Vec<Pos>) -> (r: Option<Pos>)
    requires
        board.wf(),
    ensures
        match r {
            Option::Some(p) => pos_in_bounds(p) && open_at(board.cells@, p.x as int, p.y as int)
                && !seq_contains_pos(occupied@, p),
            Option::None => forall|x: int, y: int|
                in_bounds(x, y) && #[trigger] open_at(board.cells@, x, y)
                    ==> contains_xy(occupied@, x, y),
        },
{
    let mut t: usize = 0;
    while t < 100
        invariant
            board.wf(),
        decreases 100 - t,
    {
        let rx = random_below(BOARD_SIZE_I as u32);
        let ry = random_below(BOARD_SIZE_I as u32);
        let p = Pos { x: rx as i32, y: ry as i32 };
        if !board.is_occupied_by_wall(p) && !crate::geom::contains_pos(occupied, p) {
            return Some(p);
        }
        t += 1;
    }
    let mut y: i32 = 0;
    while y < BOARD_SIZE_I
        invariant
            board.wf(),
            0 <= y <= BOARD_SIZE_I,
            forall|xx: int, yy: int|
                in_bounds(xx, yy) && yy < y && #[trigger] open_at(board.cells@, xx, yy)
                    ==> contains_xy(occupied@, xx, yy),
        decreases BOARD_SIZE_I - y,
    {
        let mut x: i32 = 0;
        while x < BOARD_SIZE_I
            invariant
                board.wf(),
                0 <= y < BOARD_SIZE_I,
                0 <= x <= BOARD_SIZE_I,
                forall|xx: int, yy: int|
                    in_bounds(xx, yy) && yy < y && #[trigger] open_at(board.cells@, xx, yy)
                        ==> contains_xy(occupied@, xx, yy),
                forall|xx: int|
                    0 <= xx < x && #[trigger] open_at(board.cells@, xx, y as int)
                        ==> contains_xy(occupied@, xx, y as int),
            decreases BOARD_SIZE_I - x,
        {
            let p = Pos { x, y };
            if !board.is_occupied_by_wall(p) && !crate::geom::contains_pos(occupied, p) {
                return Some(p);
            }
            proof {
                if open_at(board.cells@, x as int, y as int) {
                    assert(seq_contains_pos(occupied@, p));
                    let j = choose|j: int| 0 <= j < occupied@.len() && occupied@[j] == p;
                    assert(occupied@[j].x as int == x as int && occupied@[j].y as int == y as int);
                }
            }
            x += 1;
        }
        y += 1;
    }
    None
}

impl Sim {
    /// The decision the spawn roll feeds: on a winning roll (zero), and
    /// only below the item cap, one new item appears on an open cell
    /// that holds no item yet. Nothing else changes, a losing roll or a
    /// full cap changes nothing, and when the roll wins, the cap has
    /// room and some open cell is item-free, an item is guaranteed to
    /// appear.
    pub fn spawn_with_roll(&mut self, roll: u32)
        requires
            old(self).wf(),
        ensures
            final(self).wf(),
            final(self).board == old(self).board,
            final(self).dens@ == old(self).dens@,
            final(self).agents@ == old(self).agents@,
            forall|k: int| 0 <= k < old(self).items@.len()
                ==> #[trigger] final(self).items@[k] == old(self).items@[k],
            final(self).items@.len() == old(self).items@.len() || (roll == 0
                && old(self).items@.len() < MAX_ITEMS && final(self).items@.len()
                == old(self).items@.len() + 1),
            final(self).items@.len() == old(self).items@.len() + 1 ==> {
                let p = final(self).items@[old(self).items@.len() as int];
                &&& open_at(final(self).board.cells@, p.x as int, p.y as int)
                &&& !seq_contains_pos(old(self).items@, p)
            },
            (roll == 0 && old(self).items@.len() < MAX_ITEMS && exists|x: int, y: int|
                in_bounds(x, y) && #[trigger] open_at(old(self).board.cells@, x, y)
                    && !contains_xy(old(self).items@, x, y)) ==> final(self).items@.len()
                == old(self).items@.len() + 1,
    {
        if self.items.len() < MAX_ITEMS && roll == 0 {
            match generate_pos(&self.board, &self.items) {
                Option::Some(p) => {
                    if !crate::geom::contains_pos(&self.items, p) {
                        self.items.push(p);
                        proof {
                            assert forall|a: int, b: int|
                                #![trigger self.items@[a], self.items@[b]]
                                0 <= a < b < self.items@.len()
                                implies self.items@[a] != self.items@[b] by {
                                if b < self.items@.len() - 1 {
                                    assert(old(self).items@[a] != old(self).items@[b]);
                                } else {
                                    assert(!seq_contains_pos(old(self).items@, self.items@[b]));
                                }
                            }
                        }
                    }
                },
                Option::None => {
                    proof {
                        if exists|x: int, y: int|
                            in_bounds(x, y) && #[trigger] open_at(self.board.cells@, x, y)
                                && !contains_xy(self.items@, x, y) {
                            let (x, y) = choose|x: int, y: int|
                                in_bounds(x, y) && #[trigger] open_at(self.board.cells@, x, y)
                                    && !contains_xy(self.items@, x, y);
                            assert(contains_xy(self.items@, x, y));
                            assert(false);
                        }
                    }
                },
            }
        }
    }

    /// Probabilistic item spawn, run once per tick after all agents: a
    /// one-in-ten roll decides, and `spawn_with_roll` applies it.
    pub fn maybe_spawn_item(&mut self)
        requires
            old(self).wf(),
        ensures
            final(self).wf(),
            final(self).board == old(self).board,
            final(self).dens@ == old(self).dens@,
            final(self).agents@ == old(self).agents@,
            forall|k: int| 0 <= k < old(self).items@.len()
                ==> #[trigger] final(self).items@[k] == old(self).items@[k],
            final(self).items@.len() == old(self).items@.len() || (old(self).items@.len()
                < MAX_ITEMS && final(self).items@.len() == old(self).items@.len() + 1),
            final(self).items@.len() == old(self).items@.len() + 1 ==> {
                let p = final(self).items@[old(self).items@.len() as int];
                &&& open_at(final(self).board.cells@, p.x as int, p.y as int)
                &&& !seq_contains_pos(old(self).items@, p)
            },
    {
        let roll = random_below(10);
        self.spawn_with_roll(roll);
    }

    /// Builds a fresh simulation: a generated board, `num_dens` dens and
    /// `num_agents` agents placed on mutually distinct free cells, no
    /// items yet, every den unoccupied, every agent at half satiety with
    /// a random tint. `None` only when the generated board runs out of
    /// free cells for these placements.
    pub fn new(num_agents: usize, num_dens: usize) -> (r: Option<Sim>)
        ensures
            match r {
                Option::Some(s) => {
                    &&& s.wf()
                    &&& s.agents@.len() == num_agents
                    &&& s.dens@.len() == num_dens
                    &&& s.items@.len() == 0
                    &&& forall|j: int| 0 <= j < s.agents@.len()
                        ==> (#[trigger] s.agents@[j]).satiety == SATIETY_START
                            && s.agents@[j].ate == 0 && s.agents@[j].path is None
                    &&& forall|di: int| 0 <= di < s.dens@.len()
                        ==> !(#[trigger] s.dens@[di]).occupied
                },
                Option::None => true,
            },
            num_agents == 0 && num_dens == 0 ==> r is Some,
    {
        let board = Board::generate();
        let mut dens: Vec<Den> = Vec::new();
        let mut taken: Vec<Pos> = Vec::new();
        let mut k: usize = 0;
        while k < num_dens
            invariant
                board.wf(),
                k <= num_dens,
                dens@.len() == k,
                taken@.len() == k,
                forall|a: int| 0 <= a < k ==> #[trigger] taken@[a] == dens@[a].pos,
                dens_ok(board.cells@, dens@),
                forall|a: int| 0 <= a < k ==> !(#[trigger] dens@[a]).occupied,
            decreases num_dens - k,
        {
            match generate_pos(&board, &taken) {
                Option::None => {
                    return None;
                },
                Option::Some(p) => {
                    proof {
                        assert forall|a: int| 0 <= a < dens@.len()
                            implies (#[trigger] dens@[a]).pos != p by {
                            assert(taken@[a] == dens@[a].pos);
                        }
                    }
                    dens.push(Den { pos: p, occupied: false });
                    taken.push(p);
                },
            }
            k += 1;
        }
        let mut agents: Vec<AgentState> = Vec::new();
        let mut id: usize = 0;
        while id < num_agents
            invariant
                board.wf(),
                id <= num_agents,
                dens@.len() == num_dens,
                dens_ok(board.cells@, dens@),
                forall|a: int| 0 <= a < num_dens ==> !(#[trigger] dens@[a]).occupied,
                agents@.len() == id,
                taken@.len() == num_dens + id,
                forall|a: int| 0 <= a < num_dens ==> #[trigger] taken@[a] == dens@[a].pos,
                forall|a: int| 0 <= a < id
                    ==> #[trigger] taken@[num_dens + a] == agents@[a].pos,
                agents_ok(board.cells@, agents@),
                forall|a: int| 0 <= a < id
                    ==> (#[trigger] agents@[a]).satiety == SATIETY_START && agents@[a].ate == 0
                        && agents@[a].path is None,
                forall|a: int, di: int| #![trigger agents@[a], dens@[di]]
                    0 <= a < id && 0 <= di < num_dens ==> agents@[a].pos != dens@[di].pos,
            decreases num_agents - id,
        {
            match generate_pos(&board, &taken) {
                Option::None => {
                    return None;
                },
                Option::Some(p) => {
                    proof {
                        assert forall|a: int| 0 <= a < agents@.len()
                            implies (#[trigger] agents@[a]).pos != p by {
                            assert(taken@[num_dens + a] == agents@[a].pos);
                        }
                        assert forall|di: int| 0 <= di < num_dens
                            implies (#[trigger] dens@[di]).pos != p by {
                            assert(taken@[di] == dens@[di].pos);
                        }
                    }
                    let r = random_below(256) as u8 / 2 + 127;
                    let g = random_below(256) as u8 / 2 + 127;
                    let b = random_below(256) as u8 / 2 + 127;
                    agents.push(
                        AgentState {
                            id,
                            pos: p,
                            tint: Tint { r, g, b },
                            satiety: SATIETY_START,
                            ate: 0,
                            path: None,
                        },
                    );
                    taken.push(p);
                },
            }
            id += 1;
        }
        let sim = Sim { board, items: Vec::new(), dens, agents };
        proof {
            assert forall|di: int| 0 <= di < sim.dens@.len()
                implies ((#[trigger] sim.dens@[di]).occupied <==> exists|j: int|
                    0 <= j < sim.agents@.len() && (#[trigger] sim.agents@[j]).pos
                        == sim.dens@[di].pos) by {
                assert(!sim.dens@[di].occupied);
                if exists|j: int|
                    0 <= j < sim.agents@.len() && (#[trigger] sim.agents@[j]).pos
                        == sim.dens@[di].pos {
                    let j = choose|j: int|
                        0 <= j < sim.agents@.len() && (#[trigger] sim.agents@[j]).pos
                            == sim.dens@[di].pos;
                    assert(sim.agents@[j].pos != sim.dens@[di].pos);
                }
            }
        }
        Some(sim)
    }
}

/// A den is occupied exactly when an agent stands on it, and never by
/// two at once: any two agents standing on the same den are one and the
/// same.
pub proof fn lemma_den_single_occupant(s: Sim, di: int, j1: int, j2: int)
    requires
        s.wf(),
        0 <= di < s.dens@.len(),
        0 <= j1 < s.agents@.len(),
        0 <= j2 < s.agents@.len(),
        s.agents@[j1].pos == s.dens@[di].pos,
        s.agents@[j2].pos == s.dens@[di].pos,
    ensures
        j1 == j2,
        s.dens@[di].occupied,
{
    if j1 != j2 {
        if j1 < j2 {
            assert(s.agents@[j1].pos != s.agents@[j2].pos);
        } else {
            assert(s.agents@[j2].pos != s.agents@[j1].pos);
        }
    }
}

/// Satiety never leaves [0, 1]: it is part of the simulation invariant,
/// which creation establishes and every tick preserves, so it holds
/// after any sequence of ticks.
pub proof fn lemma_satiety_bounded(s: Sim, j: int)
    requires
        s.wf(),
        0 <= j < s.agents@.len(),
    ensures
        s.agents@[j].satiety <= SATIETY_MAX,
{
}

} // verus!
