//! Immutable-value board model: cells, directions, agents and board states,
//! together with their mathematical views and well-formedness invariants.

use vstd::prelude::*;

verus! {

/// Width of the playing field; cells have `0 <= x < BOARD_WIDTH`.
pub const BOARD_WIDTH: i32 = 11;

/// Height of the playing field; cells have `0 <= y < BOARD_HEIGHT`.
pub const BOARD_HEIGHT: i32 = 11;

/// Largest number of agents a board may hold.
pub const MAX_AGENTS: usize = 4;

/// Health an agent is restored to when it eats.
pub const MAX_HEALTH: u8 = 100;

/// Upper bound kept on the turn counter of a well-formed board; it leaves
/// ample room for the search to step a board a few more turns without the
/// counter overflowing its machine representation.
pub const TURN_LIMIT: u64 = 0x1000_0000_0000_0000;

/// An integer coordinate pair on (or, transiently, just off) the board.
#[derive(Clone, Copy, PartialEq, Eq, Structural, Debug)]
pub struct Cell {
    pub x: i32,
    pub y: i32,
}

/// The four moves an agent can choose from, in canonical enumeration order.
#[derive(Clone, Copy, PartialEq, Eq, Structural, Debug)]
pub enum Direction {
    Up,
    Down,
    Left,
    Right,
}

/// One snake: an identifier, a head-first body, a health value and a
/// liveness flag that turns false once the agent has been eliminated.
#[derive(Debug)]
pub struct Agent {
    pub id: u8,
    pub body: Vec<Cell>,
    pub health: u8,
    pub alive: bool,
}

/// A full game snapshot at one turn.  Treated as an immutable value:
/// every transformation returns a new `BoardState`.
#[derive(Debug)]
pub struct BoardState {
    pub turn: u64,
    pub food: Vec<Cell>,
    pub hazards: Vec<Cell>,
    pub agents: Vec<Agent>,
}

/// Raw per-agent data of an external snapshot, before validation.
#[derive(Debug)]
pub struct AgentSnapshot {
    pub id: u8,
    pub body: Vec<Cell>,
    pub health: u8,
}

/// Errors the engine can surface to its caller.
#[derive(Clone, Copy, PartialEq, Eq, Structural, Debug)]
pub enum EngineError {
    /// The external snapshot cannot form a valid board.
    InvalidSnapshot,
    /// A caller broke an engine precondition, e.g. supplied a move for an
    /// eliminated agent.
    InvariantViolation,
}

/// Mathematical view of an agent.
#[verifier::ext_equal]
pub ghost struct AgentModel {
    pub id: u8,
    pub body: Seq<Cell>,
    pub health: int,
    pub alive: bool,
}

/// Mathematical view of a board state.
#[verifier::ext_equal]
pub ghost struct BoardModel {
    pub turn: int,
    pub food: Seq<Cell>,
    pub hazards: Seq<Cell>,
    pub agents: Seq<AgentModel>,
}

impl View for Agent {
    type V = AgentModel;

    open spec fn view(&self) -> AgentModel {
        AgentModel { id: self.id, body: self.body@, health: self.health as int, alive: self.alive }
    }
}

impl View for BoardState {
    type V = BoardModel;

    open spec fn view(&self) -> BoardModel {
        BoardModel {
            turn: self.turn as int,
            food: self.food@,
            hazards: self.hazards@,
            agents: Seq::new(self.agents@.len(), |i: int| self.agents@[i]@),
        }
    }
}

/// The agent model an unvalidated snapshot agent denotes: health is capped at
/// `MAX_HEALTH` and an agent arriving with zero health is already eliminated.
pub open spec fn snap_view(a: AgentSnapshot) -> AgentModel {
    AgentModel {
        id: a.id,
        body: a.body@,
        health: if a.health > MAX_HEALTH { MAX_HEALTH as int } else { a.health as int },
        alive: a.health >= 1,
    }
}

pub open spec fn cell_in_bounds(c: Cell) -> bool {
    0 <= c.x < BOARD_WIDTH && 0 <= c.y < BOARD_HEIGHT
}

pub open spec fn all_cells_in_bounds(s: Seq<Cell>) -> bool {
    forall|k: int| 0 <= k < s.len() ==> cell_in_bounds(#[trigger] s[k])
}

pub open spec fn no_dup_cells(s: Seq<Cell>) -> bool {
    forall|i: int, j: int| 0 <= i < j < s.len() ==> s[i] != s[j]
}

pub open spec fn ids_unique(agents: Seq<AgentModel>) -> bool {
    forall|i: int, j: int|
        0 <= i < j < agents.len() ==> #[trigger] agents[i].id != #[trigger] agents[j].id
}

/// Invariant of one agent: a non-empty body; health within range; and, while
/// the agent lives, positive health and a body that lies on the board.
pub open spec fn agent_wf(a: AgentModel) -> bool {
    &&& a.body.len() >= 1
    &&& 0 <= a.health <= MAX_HEALTH as int
    &&& a.alive ==> a.health >= 1 && all_cells_in_bounds(a.body)
}

/// Structural invariant of a board, except for the bound on the turn counter.
pub open spec fn board_wf_core(b: BoardModel) -> bool {
    &&& b.agents.len() <= MAX_AGENTS as int
    &&& ids_unique(b.agents)
    &&& forall|i: int| 0 <= i < b.agents.len() ==> agent_wf(#[trigger] b.agents[i])
    &&& all_cells_in_bounds(b.food)
    &&& no_dup_cells(b.food)
    &&& all_cells_in_bounds(b.hazards)
    &&& no_dup_cells(b.hazards)
    &&& b.turn >= 0
}

/// Full board invariant, established by construction from a snapshot and
/// preserved (up to the turn bound) by every transition.
pub open spec fn board_wf(b: BoardModel) -> bool {
    board_wf_core(b) && b.turn <= TURN_LIMIT as int
}

/// Whether some agent of the board carries the given id.
pub open spec fn has_agent(b: BoardModel, id: u8) -> bool {
    exists|i: int| 0 <= i < b.agents.len() && #[trigger] b.agents[i].id == id
}

/// The index of the agent carrying the given id (unique on a well-formed
/// board; meaningful only when `has_agent` holds).
pub open spec fn idx_of(b: BoardModel, id: u8) -> int {
    choose|i: int| 0 <= i < b.agents.len() && #[trigger] b.agents[i].id == id
}

/// Whether the agent with the given id exists and has not been eliminated.
pub open spec fn model_alive(b: BoardModel, id: u8) -> bool {
    exists|i: int|
        0 <= i < b.agents.len() && #[trigger] b.agents[i].id == id && b.agents[i].alive
}

pub open spec fn spec_dir_dx(d: Direction) -> int {
    match d {
        Direction::Left => -1,
        Direction::Right => 1,
        _ => 0,
    }
}

pub open spec fn spec_dir_dy(d: Direction) -> int {
    match d {
        Direction::Up => 1,
        Direction::Down => -1,
        _ => 0,
    }
}

/// The cell one step in direction `d` from `c`.
pub open spec fn spec_apply_dir(c: Cell, d: Direction) -> Cell {
    Cell { x: (c.x + spec_dir_dx(d)) as i32, y: (c.y + spec_dir_dy(d)) as i32 }
}

/// Executable step of one cell in a direction; defined for cells on or next
/// to the board, which keeps the arithmetic far from any overflow.
pub fn apply_dir(c: Cell, d: Direction) -> (r: Cell)
    requires
        -2 <= c.x <= BOARD_WIDTH + 1,
        -2 <= c.y <= BOARD_HEIGHT + 1,
    ensures
        r == spec_apply_dir(c, d),
{
    match d {
        Direction::Up => Cell { x: c.x, y: c.y + 1 },
        Direction::Down => Cell { x: c.x, y: c.y - 1 },
        Direction::Left => Cell { x: c.x - 1, y: c.y },
        Direction::Right => Cell { x: c.x + 1, y: c.y },
    }
}

/// Executable bounds test, mirroring `cell_in_bounds`.
pub fn in_bounds(c: Cell) -> (r: bool)
    ensures
        r == cell_in_bounds(c),
{
    0 <= c.x && c.x < BOARD_WIDTH && 0 <= c.y && c.y < BOARD_HEIGHT
}

/// Linear membership test on a vector of cells.
pub fn cell_in(v: &Vec<Cell>, c: Cell) -> (r: bool)
    ensures
        r == v@.contains(c),
{
    let mut k: usize = 0;
    while k < v.len()
        invariant
            0 <= k <= v@.len(),
            forall|j: int| 0 <= j < k ==> v@[j] != c,
        decreases v@.len() - k,
    {
        if v[k] == c {
            assert(v@.contains(c));
            return true;
        }
        k += 1;
    }
    assert(!v@.contains(c)) by {
        if v@.contains(c) {
            let j = choose|j: int| 0 <= j < v@.len() && v@[j] == c;
            assert(v@[j] != c);
        }
    }
    false
}

/// Executable bounds test over a whole vector of cells.
pub fn all_in_bounds(v: &Vec<Cell>) -> (r: bool)
    ensures
        r == all_cells_in_bounds(v@),
{
    let mut k: usize = 0;
    while k < v.len()
        invariant
            0 <= k <= v@.len(),
            forall|j: int| 0 <= j < k ==> cell_in_bounds(#[trigger] v@[j]),
        decreases v@.len() - k,
    {
        if !in_bounds(v[k]) {
            return false;
        }
        k += 1;
    }
    true
}

/// Element-wise copy of a cell vector.
pub fn copy_cells(v: &Vec<Cell>) -> (r: Vec<Cell>)
    ensures
        r@ == v@,
{
    let mut r: Vec<Cell> = Vec::new();
    let mut k: usize = 0;
    while k < v.len()
        invariant
            0 <= k <= v@.len(),
            r@ == v@.take(k as int),
        decreases v@.len() - k,
    {
        r.push(v[k]);
        assert(r@ =~= v@.take(k as int + 1));
        k += 1;
    }
    assert(r@ =~= v@);
    r
}

} // verus!

verus! {

/// The subsequence of `s` that keeps the first occurrence of each cell.
pub open spec fn dedup_cells(s: Seq<Cell>) -> Seq<Cell>
    decreases s.len(),
{
    if s.len() == 0 {
        Seq::empty()
    } else {
        let pre = dedup_cells(s.drop_last());
        if pre.contains(s.last()) {
            pre
        } else {
            pre.push(s.last())
        }
    }
}

/// Deduplication yields a duplicate-free sequence with the same membership.
pub proof fn lemma_dedup_cells(s: Seq<Cell>)
    ensures
        no_dup_cells(dedup_cells(s)),
        forall|c: Cell| dedup_cells(s).contains(c) <==> s.contains(c),
        all_cells_in_bounds(s) ==> all_cells_in_bounds(dedup_cells(s)),
    decreases s.len(),
{
    if s.len() == 0 {
        assert forall|c: Cell| dedup_cells(s).contains(c) <==> s.contains(c) by {
            if s.contains(c) {
                let j = choose|j: int| 0 <= j < s.len() && s[j] == c;
            }
            if dedup_cells(s).contains(c) {
                let j = choose|j: int| 0 <= j < dedup_cells(s).len() && dedup_cells(s)[j] == c;
            }
        }
    } else {
        let t = s.drop_last();
        let x = s.last();
        lemma_dedup_cells(t);
        let pre = dedup_cells(t);
        assert forall|c: Cell| s.contains(c) <==> (t.contains(c) || c == x) by {
            if s.contains(c) {
                let j = choose|j: int| 0 <= j < s.len() && s[j] == c;
                if j < s.len() - 1 {
                    assert(t[j] == c);
                    assert(t.contains(c));
                }
            }
            if t.contains(c) {
                let j = choose|j: int| 0 <= j < t.len() && t[j] == c;
                assert(s[j] == c);
                assert(s.contains(c));
            }
            if c == x {
                assert(s[s.len() - 1] == c);
                assert(s.contains(c));
            }
        }
        if all_cells_in_bounds(s) {
            assert forall|k: int| 0 <= k < t.len() implies cell_in_bounds(#[trigger] t[k]) by {
                assert(t[k] == s[k]);
            }
            assert(cell_in_bounds(x)) by {
                assert(x == s[s.len() - 1]);
            }
        }
        if pre.contains(x) {
            assert(dedup_cells(s) == pre);
        } else {
            let d = pre.push(x);
            assert(dedup_cells(s) == d);
            assert forall|i: int, j: int| 0 <= i < j < d.len() implies d[i] != d[j] by {
                if j < d.len() - 1 {
                    assert(d[i] == pre[i] && d[j] == pre[j]);
                } else {
                    assert(d[j] == x);
                    assert(d[i] == pre[i]);
                    if pre[i] == x {
                        assert(pre.contains(x));
                    }
                }
            }
            assert forall|c: Cell| d.contains(c) <==> (pre.contains(c) || c == x) by {
                if d.contains(c) {
                    let j = choose|j: int| 0 <= j < d.len() && d[j] == c;
                    if j < d.len() - 1 {
                        assert(pre[j] == c);
                        assert(pre.contains(c));
                    }
                }
                if pre.contains(c) {
                    let j = choose|j: int| 0 <= j < pre.len() && pre[j] == c;
                    assert(d[j] == c);
                    assert(d.contains(c));
                }
                if c == x {
                    assert(d[d.len() - 1] == c);
                    assert(d.contains(c));
                }
            }
            if all_cells_in_bounds(s) {
                assert forall|k: int| 0 <= k < d.len() implies cell_in_bounds(#[trigger] d[k]) by {
                    if k < d.len() - 1 {
                        assert(d[k] == pre[k]);
                    } else {
                        assert(d[k] == x);
                    }
                }
            }
        }
    }
}

/// Executable deduplication, keeping first occurrences in order.
pub fn dedup(v: &Vec<Cell>) -> (r: Vec<Cell>)
    ensures
        r@ == dedup_cells(v@),
{
    let mut r: Vec<Cell> = Vec::new();
    let mut k: usize = 0;
    while k < v.len()
        invariant
            0 <= k <= v@.len(),
            r@ == dedup_cells(v@.take(k as int)),
        decreases v@.len() - k,
    {
        let c = v[k];
        proof {
            let p = v@.take(k as int + 1);
            assert(p.drop_last() =~= v@.take(k as int));
            assert(p.last() == v@[k as int]);
        }
        if !cell_in(&r, c) {
            r.push(c);
        }
        k += 1;
    }
    assert(v@.take(v@.len() as int) =~= v@);
    r
}

} // verus!

verus! {

/// Validity of an external snapshot: at most four agents, unique ids,
/// non-empty bodies, and every named cell on the board.
pub open spec fn snapshot_ok(
    food: Seq<Cell>,
    hazards: Seq<Cell>,
    agents: Seq<AgentSnapshot>,
) -> bool {
    &&& agents.len() <= MAX_AGENTS as int
    &&& forall|i: int, j: int|
        0 <= i < j < agents.len() ==> #[trigger] agents[i].id != #[trigger] agents[j].id
    &&& forall|i: int|
        0 <= i < agents.len() ==> (#[trigger] agents[i].body@.len() >= 1
            && all_cells_in_bounds(agents[i].body@))
    &&& all_cells_in_bounds(food)
    &&& all_cells_in_bounds(hazards)
}

/// The board model a valid snapshot denotes: food and hazard duplicates are
/// collapsed and each agent is taken through `snap_view`.
pub open spec fn snapshot_model(
    turn: u32,
    food: Seq<Cell>,
    hazards: Seq<Cell>,
    agents: Seq<AgentSnapshot>,
) -> BoardModel {
    BoardModel {
        turn: turn as int,
        food: dedup_cells(food),
        hazards: dedup_cells(hazards),
        agents: Seq::new(agents.len(), |i: int| snap_view(agents[i])),
    }
}

impl BoardState {
    /// Full board invariant, stated over the board's mathematical view.
    pub open spec fn wf(&self) -> bool {
        board_wf(self@)
    }

    /// Builds a validated board from an external snapshot.  Fails with
    /// `InvalidSnapshot` exactly when the snapshot has more than four agents,
    /// a duplicated id, an empty body, or a cell off the board.
    pub fn from_snapshot(
        turn: u32,
        food: Vec<Cell>,
        hazards: Vec<Cell>,
        agents: Vec<AgentSnapshot>,
    ) -> (r: Result<BoardState, EngineError>)
        ensures
            match r {
                Ok(b) => {
                    &&& snapshot_ok(food@, hazards@, agents@)
                    &&& b.wf()
                    &&& b@ == snapshot_model(turn, food@, hazards@, agents@)
                },
                Err(e) => {
                    &&& e == EngineError::InvalidSnapshot
                    &&& !snapshot_ok(food@, hazards@, agents@)
                },
            },
    {
        let n = agents.len();
        if n > MAX_AGENTS {
            return Err(EngineError::InvalidSnapshot);
        }
        let mut i: usize = 0;
        while i < n
            invariant
                n == agents@.len(),
                0 <= i <= n,
                forall|p: int, q: int|
                    0 <= p < q < n && p < i ==> #[trigger] agents@[p].id != #[trigger] agents@[q].id,
            decreases n - i,
        {
            let mut j: usize = i + 1;
            while j < n
                invariant
                    n == agents@.len(),
                    0 <= i < n,
                    i < j <= n,
                    forall|q: int| i < q < j ==> agents@[i as int].id != #[trigger] agents@[q].id,
                decreases n - j,
            {
                if agents[i].id == agents[j].id {
                    return Err(EngineError::InvalidSnapshot);
                }
                j += 1;
            }
            i += 1;
        }
        let mut i: usize = 0;
        while i < n
            invariant
                n == agents@.len(),
                0 <= i <= n,
                forall|p: int|
                    0 <= p < i ==> (#[trigger] agents@[p].body@.len() >= 1
                        && all_cells_in_bounds(agents@[p].body@)),
            decreases n - i,
        {
            if agents[i].body.len() == 0 {
                return Err(EngineError::InvalidSnapshot);
            }
            if !all_in_bounds(&agents[i].body) {
                return Err(EngineError::InvalidSnapshot);
            }
            i += 1;
        }
        if !all_in_bounds(&food) {
            return Err(EngineError::InvalidSnapshot);
        }
        if !all_in_bounds(&hazards) {
            return Err(EngineError::InvalidSnapshot);
        }
        let food2 = dedup(&food);
        let hazards2 = dedup(&hazards);
        let mut built: Vec<Agent> = Vec::new();
        let mut i: usize = 0;
        while i < n
            invariant
                n == agents@.len(),
                0 <= i <= n,
                built@.len() == i,
                forall|p: int| 0 <= p < i ==> #[trigger] built@[p]@ == snap_view(agents@[p]),
                forall|p: int|
                    0 <= p < n ==> (#[trigger] agents@[p].body@.len() >= 1
                        && all_cells_in_bounds(agents@[p].body@)),
            decreases n - i,
        {
            let a = &agents[i];
            let health = if a.health > MAX_HEALTH {
                MAX_HEALTH
            } else {
                a.health
            };
            let agent = Agent {
                id: a.id,
                body: copy_cells(&a.body),
                health,
                alive: a.health >= 1,
            };
            assert(agent@ =~= snap_view(agents@[i as int]));
            built.push(agent);
            i += 1;
        }
        let b = BoardState { turn: turn as u64, food: food2, hazards: hazards2, agents: built };
        proof {
            lemma_dedup_cells(food@);
            lemma_dedup_cells(hazards@);
            let m = snapshot_model(turn, food@, hazards@, agents@);
            assert(b@.agents =~= m.agents);
            assert(b@ =~= m);
        }
        Ok(b)
    }

    /// The position (if any) of the agent carrying `id`.
    pub fn find_agent(&self, id: u8) -> (r: Option<usize>)
        requires
            board_wf_core(self@),
        ensures
            match r {
                Some(i) => has_agent(self@, id) && i as int == idx_of(self@, id)
                    && 0 <= i < self@.agents.len() && self@.agents[i as int].id == id,
                None => !has_agent(self@, id),
            },
    {
        let n = self.agents.len();
        let mut i: usize = 0;
        while i < n
            invariant
                board_wf_core(self@),
                n == self@.agents.len(),
                0 <= i <= n,
                forall|p: int| 0 <= p < i ==> #[trigger] self@.agents[p].id != id,
            decreases n - i,
        {
            if self.agents[i].id == id {
                proof {
                    assert(self@.agents[i as int].id == id);
                    let w = idx_of(self@, id);
                    assert(0 <= w < self@.agents.len() && self@.agents[w].id == id);
                    if w != i as int {
                        assert(ids_unique(self@.agents));
                    }
                }
                return Some(i);
            }
            i += 1;
        }
        proof {
            if has_agent(self@, id) {
                let w = choose|w: int| 0 <= w < self@.agents.len() && #[trigger] self@.agents[w].id == id;
                assert(self@.agents[w].id != id);
            }
        }
        None
    }

    /// Whether the agent carrying `id` exists and is still alive.
    pub fn is_alive(&self, id: u8) -> (r: bool)
        requires
            board_wf_core(self@),
        ensures
            r == model_alive(self@, id),
    {
        match self.find_agent(id) {
            Some(i) => {
                let a = self.agents[i].alive;
                proof {
                    if a {
                        assert(model_alive(self@, id));
                    } else if model_alive(self@, id) {
                        let w = choose|w: int|
                            0 <= w < self@.agents.len() && #[trigger] self@.agents[w].id == id
                                && self@.agents[w].alive;
                        if w != i as int {
                            assert(ids_unique(self@.agents));
                        }
                    }
                }
                a
            },
            None => {
                proof {
                    if model_alive(self@, id) {
                        let w = choose|w: int|
                            0 <= w < self@.agents.len() && #[trigger] self@.agents[w].id == id
                                && self@.agents[w].alive;
                        assert(has_agent(self@, id));
                    }
                }
                false
            },
        }
    }
}

} // verus!

verus! {

impl BoardState {
    /// Head cell of the agent carrying `id`, if such an agent exists.
    pub fn head_of(&self, id: u8) -> (r: Option<Cell>)
        requires
            board_wf_core(self@),
        ensures
            match r {
                Some(c) => has_agent(self@, id) && c == self@.agents[idx_of(self@, id)].body[0],
                None => !has_agent(self@, id),
            },
    {
        match self.find_agent(id) {
            Some(i) => {
                proof {
                    assert(agent_wf(self@.agents[i as int]));
                }
                Some(self.agents[i].body[0])
            },
            None => None,
        }
    }

    /// Body length of the agent carrying `id`, if such an agent exists.
    pub fn length_of(&self, id: u8) -> (r: Option<usize>)
        requires
            board_wf_core(self@),
        ensures
            match r {
                Some(l) => has_agent(self@, id) && l == self@.agents[idx_of(self@, id)].body.len(),
                None => !has_agent(self@, id),
            },
    {
        match self.find_agent(id) {
            Some(i) => Some(self.agents[i].body.len()),
            None => None,
        }
    }

    /// The food cells of the board, as a fresh vector.
    pub fn food_cells(&self) -> (r: Vec<Cell>)
        ensures
            r@ == self@.food,
    {
        copy_cells(&self.food)
    }
}

} // verus!
