//! The joint transition function: applies one chosen direction per living
//! agent and produces the successor board, reproducing the official
//! elimination semantics.
//!
//! Order of effects within one turn:
//! 1. every living agent's head advances and its body shifts (the tail is
//!    kept when the agent lands on food, so eating grows the body by one);
//! 2. health drops by one, or resets to the maximum on eating;
//! 3. an agent is eliminated if its head left the board, its health reached
//!    zero, its head lies on a non-head segment of any agent's moved body
//!    (its own included), or it lost a head-to-head meeting — a head-to-head
//!    eliminates every agent whose pre-move length does not strictly exceed
//!    that of all others arriving on the same cell;
//! 4. all eliminations are simultaneous: they are judged against the moved
//!    bodies and the pre-move lengths of every agent that was alive when the
//!    turn began, never against the outcome of another elimination;
//! 5. food landed on by any agent that began the turn alive is removed, and
//!    the turn counter advances by one.  Hazards are carried over unchanged
//!    (the zero-damage variant of the hazard rule).

use vstd::prelude::*;
use crate::board::{
    Agent, AgentModel, BoardModel, BoardState, Cell, Direction, EngineError, MAX_HEALTH,
    TURN_LIMIT, all_cells_in_bounds, all_in_bounds, board_wf_core, cell_in, cell_in_bounds,
    copy_cells, ids_unique, in_bounds, no_dup_cells, spec_apply_dir, apply_dir, agent_wf,
};

verus! {

/// A joint assignment is acceptable exactly when it names one direction per
/// living agent and none for an eliminated one.
pub open spec fn moves_ok(b: BoardModel, mv: Seq<Option<Direction>>) -> bool {
    &&& mv.len() == b.agents.len()
    &&& forall|i: int| 0 <= i < mv.len() ==> ((#[trigger] mv[i]) is Some <==> b.agents[i].alive)
}

/// The cell the head of (living) agent `i` advances to.
pub open spec fn new_head(b: BoardModel, mv: Seq<Option<Direction>>, i: int) -> Cell {
    spec_apply_dir(b.agents[i].body[0], mv[i]->0)
}

/// Whether (living) agent `i` lands on a food cell this turn.
pub open spec fn eats(b: BoardModel, mv: Seq<Option<Direction>>, i: int) -> bool {
    b.food.contains(new_head(b, mv, i))
}

/// Body of (living) agent `i` after advancing: the new head followed by the
/// old body, whose last segment drops unless the agent ate.
pub open spec fn moved_body(b: BoardModel, mv: Seq<Option<Direction>>, i: int) -> Seq<Cell> {
    if eats(b, mv, i) {
        seq![new_head(b, mv, i)] + b.agents[i].body
    } else {
        seq![new_head(b, mv, i)] + b.agents[i].body.drop_last()
    }
}

/// Health of (living) agent `i` after advancing.
pub open spec fn moved_health(b: BoardModel, mv: Seq<Option<Direction>>, i: int) -> int {
    if eats(b, mv, i) {
        MAX_HEALTH as int
    } else {
        b.agents[i].health - 1
    }
}

/// Agent `i` after step 1 and 2, liveness not yet re-judged.
pub open spec fn moved_agent(b: BoardModel, mv: Seq<Option<Direction>>, i: int) -> AgentModel {
    let a = b.agents[i];
    if !a.alive {
        a
    } else {
        AgentModel { id: a.id, body: moved_body(b, mv, i), health: moved_health(b, mv, i), alive: true }
    }
}

/// Elimination: the moved head lies off the board.
pub open spec fn elim_out_of_bounds(b: BoardModel, mv: Seq<Option<Direction>>, i: int) -> bool {
    !cell_in_bounds(new_head(b, mv, i))
}

/// Elimination: health ran out this turn.
pub open spec fn elim_starved(b: BoardModel, mv: Seq<Option<Direction>>, i: int) -> bool {
    moved_health(b, mv, i) <= 0
}

/// Elimination: the moved head lies on a non-head segment of the moved body
/// of some agent that began the turn alive (possibly agent `i` itself).
pub open spec fn elim_body_collision(b: BoardModel, mv: Seq<Option<Direction>>, i: int) -> bool {
    exists|j: int|
        0 <= j < b.agents.len() && (#[trigger] b.agents[j]).alive && exists|k: int|
            1 <= k < moved_body(b, mv, j).len() && moved_body(b, mv, j)[k] == new_head(b, mv, i)
}

/// Elimination: another agent that began the turn alive arrives on the same
/// cell with a pre-move body no shorter than agent `i`'s.
pub open spec fn elim_head_to_head(b: BoardModel, mv: Seq<Option<Direction>>, i: int) -> bool {
    exists|j: int|
        0 <= j < b.agents.len() && j != i && (#[trigger] b.agents[j]).alive
            && new_head(b, mv, j) == new_head(b, mv, i)
            && b.agents[j].body.len() >= b.agents[i].body.len()
}

/// Whether (living) agent `i` is eliminated this turn.
pub open spec fn eliminated(b: BoardModel, mv: Seq<Option<Direction>>, i: int) -> bool {
    ||| elim_out_of_bounds(b, mv, i)
    ||| elim_starved(b, mv, i)
    ||| elim_body_collision(b, mv, i)
    ||| elim_head_to_head(b, mv, i)
}

/// Agent `i` in the successor board.
pub open spec fn stepped_agent(b: BoardModel, mv: Seq<Option<Direction>>, i: int) -> AgentModel {
    let a = b.agents[i];
    if !a.alive {
        a
    } else {
        AgentModel {
            id: a.id,
            body: moved_body(b, mv, i),
            health: moved_health(b, mv, i),
            alive: !eliminated(b, mv, i),
        }
    }
}

/// Whether some agent that began the turn alive lands on cell `c`.
pub open spec fn cell_eaten(b: BoardModel, mv: Seq<Option<Direction>>, c: Cell) -> bool {
    exists|i: int|
        0 <= i < b.agents.len() && (#[trigger] b.agents[i]).alive && new_head(b, mv, i) == c
}

/// The food cells that survive the turn, among the first `k` of the board's.
pub open spec fn remaining_food_prefix(b: BoardModel, mv: Seq<Option<Direction>>, k: nat) -> Seq<
    Cell,
>
    decreases k,
{
    if k == 0 {
        Seq::empty()
    } else {
        let pre = remaining_food_prefix(b, mv, (k - 1) as nat);
        if cell_eaten(b, mv, b.food[k - 1]) {
            pre
        } else {
            pre.push(b.food[k - 1])
        }
    }
}

/// The food cells that survive the turn.
pub open spec fn remaining_food(b: BoardModel, mv: Seq<Option<Direction>>) -> Seq<Cell> {
    remaining_food_prefix(b, mv, b.food.len())
}

/// The successor board of `b` under the joint assignment `mv`.
pub open spec fn spec_step(b: BoardModel, mv: Seq<Option<Direction>>) -> BoardModel {
    BoardModel {
        turn: b.turn + 1,
        food: remaining_food(b, mv),
        hazards: b.hazards,
        agents: Seq::new(b.agents.len(), |i: int| stepped_agent(b, mv, i)),
    }
}

/// The surviving food is duplicate-free, on the board, and holds exactly the
/// old food cells nobody landed on.
pub proof fn lemma_remaining_food(b: BoardModel, mv: Seq<Option<Direction>>)
    requires
        board_wf_core(b),
    ensures
        no_dup_cells(remaining_food(b, mv)),
        all_cells_in_bounds(remaining_food(b, mv)),
        forall|c: Cell|
            #[trigger] remaining_food(b, mv).contains(c) <==> (b.food.contains(c) && !cell_eaten(
                b,
                mv,
                c,
            )),
{
    let n = b.food.len();
    lemma_remaining_food_prefix(b, mv, n);
    assert(b.food.take(n as int) =~= b.food);
    assert forall|c: Cell|
        #[trigger] remaining_food(b, mv).contains(c) <==> (b.food.contains(c) && !cell_eaten(
            b,
            mv,
            c,
        )) by {
        assert(remaining_food_prefix(b, mv, n).contains(c) <==> (b.food.take(n as int).contains(c)
            && !cell_eaten(b, mv, c)));
    }
}

proof fn lemma_remaining_food_prefix(b: BoardModel, mv: Seq<Option<Direction>>, k: nat)
    requires
        board_wf_core(b),
        k <= b.food.len(),
    ensures
        no_dup_cells(remaining_food_prefix(b, mv, k)),
        all_cells_in_bounds(remaining_food_prefix(b, mv, k)),
        forall|c: Cell|
            #[trigger] remaining_food_prefix(b, mv, k).contains(c) <==> (b.food.take(
                k as int,
            ).contains(c) && !cell_eaten(b, mv, c)),
    decreases k,
{
    let r = remaining_food_prefix(b, mv, k);
    let p = b.food.take(k as int);
    if k == 0 {
        assert forall|c: Cell|
            #[trigger] r.contains(c) <==> (p.contains(c) && !cell_eaten(b, mv, c)) by {
            if r.contains(c) {
                let j = choose|j: int| 0 <= j < r.len() && r[j] == c;
            }
            if p.contains(c) {
                let j = choose|j: int| 0 <= j < p.len() && p[j] == c;
            }
        }
    } else {
        let km1 = (k - 1) as nat;
        lemma_remaining_food_prefix(b, mv, km1);
        let pre = remaining_food_prefix(b, mv, km1);
        let q = b.food.take(km1 as int);
        let x = b.food[km1 as int];
        assert(cell_in_bounds(x));
        assert forall|c: Cell| #[trigger] p.contains(c) <==> (q.contains(c) || c == x) by {
            if p.contains(c) {
                let j = choose|j: int| 0 <= j < p.len() && p[j] == c;
                if j < p.len() - 1 {
                    assert(q[j] == c);
                    assert(q.contains(c));
                }
            }
            if q.contains(c) {
                let j = choose|j: int| 0 <= j < q.len() && q[j] == c;
                assert(p[j] == c);
                assert(p.contains(c));
            }
            if c == x {
                assert(p[k - 1] == c);
                assert(p.contains(c));
            }
        }
        if cell_eaten(b, mv, x) {
            assert(r == pre);
            assert forall|c: Cell|
                #[trigger] r.contains(c) <==> (p.contains(c) && !cell_eaten(b, mv, c)) by {
                assert(pre.contains(c) <==> (q.contains(c) && !cell_eaten(b, mv, c)));
                assert(p.contains(c) <==> (q.contains(c) || c == x));
                if p.contains(c) && !cell_eaten(b, mv, c) {
                    assert(c != x);
                    assert(q.contains(c));
                }
            }
        } else {
            assert(r == pre.push(x));
            assert(!pre.contains(x)) by {
                if pre.contains(x) {
                    assert(q.contains(x));
                    let j = choose|j: int| 0 <= j < q.len() && q[j] == x;
                    assert(b.food[j] == b.food[k - 1]);
                    assert(no_dup_cells(b.food));
                }
            }
            assert forall|i: int, j: int| 0 <= i < j < r.len() implies r[i] != r[j] by {
                if j < r.len() - 1 {
                    assert(r[i] == pre[i] && r[j] == pre[j]);
                } else {
                    assert(r[j] == x && r[i] == pre[i]);
                    if pre[i] == x {
                        assert(pre.contains(x));
                    }
                }
            }
            assert forall|i: int| 0 <= i < r.len() implies cell_in_bounds(#[trigger] r[i]) by {
                if i < r.len() - 1 {
                    assert(r[i] == pre[i]);
                } else {
                    assert(r[i] == x);
                }
            }
            assert forall|c: Cell|
                #[trigger] r.contains(c) <==> (p.contains(c) && !cell_eaten(b, mv, c)) by {
                assert(pre.contains(c) <==> (q.contains(c) && !cell_eaten(b, mv, c)));
                assert(p.contains(c) <==> (q.contains(c) || c == x));
                if r.contains(c) {
                    let j = choose|j: int| 0 <= j < r.len() && r[j] == c;
                    if j < r.len() - 1 {
                        assert(pre[j] == c);
                        assert(pre.contains(c));
                    }
                }
                if pre.contains(c) {
                    let j = choose|j: int| 0 <= j < pre.len() && pre[j] == c;
                    assert(r[j] == c);
                    assert(r.contains(c));
                }
                if c == x {
                    assert(r[r.len() - 1] == c);
                    assert(r.contains(c));
                }
            }
        }
    }
}

/// A transition preserves the board invariant and advances the turn by one.
pub proof fn lemma_step_preserves_wf(b: BoardModel, mv: Seq<Option<Direction>>)
    requires
        board_wf_core(b),
        moves_ok(b, mv),
    ensures
        board_wf_core(spec_step(b, mv)),
        spec_step(b, mv).turn == b.turn + 1,
        spec_step(b, mv).agents.len() == b.agents.len(),
        forall|i: int|
            0 <= i < b.agents.len() ==> #[trigger] spec_step(b, mv).agents[i].id == b.agents[i].id,
{
    let s2 = spec_step(b, mv);
    lemma_remaining_food(b, mv);
    assert forall|c: Cell| remaining_food(b, mv).contains(c) implies b.food.contains(c) by {}
    assert forall|i: int| 0 <= i < s2.agents.len() implies agent_wf(#[trigger] s2.agents[i]) by {
        let a = b.agents[i];
        assert(agent_wf(a));
        if a.alive {
            let nb = moved_body(b, mv, i);
            assert(nb.len() >= 1);
            if !eliminated(b, mv, i) {
                assert(!elim_out_of_bounds(b, mv, i));
                assert(!elim_starved(b, mv, i));
                assert forall|k: int| 0 <= k < nb.len() implies cell_in_bounds(#[trigger] nb[k]) by {
                    if k == 0 {
                        assert(nb[k] == new_head(b, mv, i));
                    } else {
                        assert(nb[k] == a.body[k - 1]);
                        assert(all_cells_in_bounds(a.body));
                    }
                }
            }
        }
    }
    assert(ids_unique(s2.agents)) by {
        assert forall|i: int, j: int|
            0 <= i < j < s2.agents.len() implies #[trigger] s2.agents[i].id
            != #[trigger] s2.agents[j].id by {
            assert(s2.agents[i].id == b.agents[i].id);
            assert(s2.agents[j].id == b.agents[j].id);
            assert(ids_unique(b.agents));
        }
    }
}

} // verus!

verus! {

/// Membership among the non-head segments (index 1 and up) of a body.
fn cell_in_tail(v: &Vec<Cell>, c: Cell) -> (r: bool)
    ensures
        r == exists|k: int| 1 <= k < v@.len() && v@[k] == c,
{
    let mut k: usize = 1;
    if v.len() <= 1 {
        proof {
            if exists|k: int| 1 <= k < v@.len() && v@[k] == c {
                let w = choose|k: int| 1 <= k < v@.len() && v@[k] == c;
            }
        }
        return false;
    }
    while k < v.len()
        invariant
            1 <= k <= v@.len(),
            forall|j: int| 1 <= j < k ==> v@[j] != c,
        decreases v@.len() - k,
    {
        if v[k] == c {
            return true;
        }
        k += 1;
    }
    proof {
        if exists|k: int| 1 <= k < v@.len() && v@[k] == c {
            let w = choose|k: int| 1 <= k < v@.len() && v@[k] == c;
        }
    }
    false
}

/// Applies one turn of the game to `s` under the joint assignment `moves`
/// and returns the successor board.  Fails with `InvariantViolation` exactly
/// when the assignment does not name one direction per living agent (and
/// none for an eliminated one); a board condition never fails.
pub fn step(s: &BoardState, moves: &Vec<Option<Direction>>) -> (r: Result<
    BoardState,
    EngineError,
>)
    requires
        board_wf_core(s@),
        s@.turn < TURN_LIMIT as int + 8,
    ensures
        match r {
            Ok(s2) => {
                &&& moves_ok(s@, moves@)
                &&& s2@ == spec_step(s@, moves@)
                &&& board_wf_core(s2@)
                &&& s2@.turn == s@.turn + 1
            },
            Err(e) => {
                &&& e == EngineError::InvariantViolation
                &&& !moves_ok(s@, moves@)
            },
        },
{
    let ghost b = s@;
    let ghost mv = moves@;
    let n = s.agents.len();
    if moves.len() != n {
        return Err(EngineError::InvariantViolation);
    }
    let mut i: usize = 0;
    while i < n
        invariant
            n == b.agents.len(),
            mv.len() == n,
            b == s@,
            mv == moves@,
            0 <= i <= n,
            forall|p: int| 0 <= p < i ==> ((#[trigger] mv[p]) is Some <==> b.agents[p].alive),
        decreases n - i,
    {
        if moves[i].is_some() != s.agents[i].alive {
            proof {
                assert(!((mv[i as int]) is Some <==> b.agents[i as int].alive));
            }
            return Err(EngineError::InvariantViolation);
        }
        i += 1;
    }
    assert(moves_ok(b, mv));
    // Step 1 and 2: advance every living agent, feed or age it.
    let mut mid: Vec<Agent> = Vec::new();
    let mut i: usize = 0;
    while i < n
        invariant
            board_wf_core(b),
            moves_ok(b, mv),
            n == b.agents.len(),
            b == s@,
            mv == moves@,
            0 <= i <= n,
            mid@.len() == i,
            forall|p: int| 0 <= p < i ==> #[trigger] mid@[p]@ == moved_agent(b, mv, p),
        decreases n - i,
    {
        let a = &s.agents[i];
        proof {
            assert(a@ == b.agents[i as int]);
            assert(agent_wf(b.agents[i as int]));
        }
        if !a.alive {
            let copy = Agent { id: a.id, body: copy_cells(&a.body), health: a.health, alive: false };
            proof {
                assert(copy@ =~= moved_agent(b, mv, i as int));
            }
            mid.push(copy);
        } else {
            let d = moves[i].unwrap();
            let head = a.body[0];
            let nh = apply_dir(head, d);
            proof {
                assert(nh == new_head(b, mv, i as int));
            }
            let ate = cell_in(&s.food, nh);
            let mut nb: Vec<Cell> = Vec::new();
            nb.push(nh);
            let lim = if ate {
                a.body.len()
            } else {
                a.body.len() - 1
            };
            let mut k: usize = 0;
            while k < lim
                invariant
                    lim <= a.body@.len(),
                    0 <= k <= lim,
                    nb@ == seq![nh] + a.body@.take(k as int),
                decreases lim - k,
            {
                nb.push(a.body[k]);
                assert(nb@ =~= seq![nh] + a.body@.take(k as int + 1));
                k += 1;
            }
            proof {
                if ate {
                    assert(a.body@.take(lim as int) =~= a.body@);
                } else {
                    assert(a.body@.take(lim as int) =~= a.body@.drop_last());
                }
                assert(nb@ == moved_body(b, mv, i as int));
            }
            let h2 = if ate {
                MAX_HEALTH
            } else {
                a.health - 1
            };
            let moved = Agent { id: a.id, body: nb, health: h2, alive: true };
            proof {
                assert(moved@ =~= moved_agent(b, mv, i as int));
            }
            mid.push(moved);
        }
        i += 1;
    }
    // Steps 3 to 5: judge all eliminations against the moved bodies and the
    // pre-move lengths, simultaneously.
    let mut elim: Vec<bool> = Vec::new();
    let mut i: usize = 0;
    while i < n
        invariant
            board_wf_core(b),
            moves_ok(b, mv),
            n == b.agents.len(),
            b == s@,
            mv == moves@,
            mid@.len() == n,
            forall|p: int| 0 <= p < n ==> #[trigger] mid@[p]@ == moved_agent(b, mv, p),
            0 <= i <= n,
            elim@.len() == i,
            forall|p: int|
                0 <= p < i ==> #[trigger] elim@[p] == (b.agents[p].alive && eliminated(b, mv, p)),
        decreases n - i,
    {
        if !s.agents[i].alive {
            elim.push(false);
        } else {
            let m = &mid[i];
            proof {
                assert(m@ == moved_agent(b, mv, i as int));
                assert(moved_body(b, mv, i as int).len() >= 1);
            }
            let nh = m.body[0];
            proof {
                assert(moved_body(b, mv, i as int)[0] == new_head(b, mv, i as int));
                assert(nh == new_head(b, mv, i as int));
            }
            let mut dead = !in_bounds(nh);
            assert(dead == elim_out_of_bounds(b, mv, i as int));
            if !dead {
                if m.health == 0 {
                    dead = true;
                }
                assert(m@.health == moved_health(b, mv, i as int));
            }
            let ghost dead_so_far = elim_out_of_bounds(b, mv, i as int) || elim_starved(
                b,
                mv,
                i as int,
            );
            assert(dead == dead_so_far);
            if !dead {
                let mut j: usize = 0;
                let mut found = false;
                while j < n
                    invariant
                        board_wf_core(b),
                        n == b.agents.len(),
                        b == s@,
                        mid@.len() == n,
                        forall|p: int| 0 <= p < n ==> #[trigger] mid@[p]@ == moved_agent(b, mv, p),
                        0 <= j <= n,
                        0 <= i < n,
                        nh == new_head(b, mv, i as int),
                        found == exists|q: int|
                            0 <= q < j && (#[trigger] b.agents[q]).alive && exists|k: int|
                                1 <= k < moved_body(b, mv, q).len() && moved_body(b, mv, q)[k]
                                    == new_head(b, mv, i as int),
                    decreases n - j,
                {
                    if !found && s.agents[j].alive {
                        let mj = &mid[j];
                        proof {
                            assert(mj@ == moved_agent(b, mv, j as int));
                            assert(mj@.body == moved_body(b, mv, j as int));
                        }
                        if cell_in_tail(&mj.body, nh) {
                            found = true;
                        }
                    }
                    j += 1;
                }
                assert(found == elim_body_collision(b, mv, i as int));
                if found {
                    dead = true;
                }
            }
            assert(dead == (dead_so_far || elim_body_collision(b, mv, i as int)));
            let ghost dead_so_far2 = dead_so_far || elim_body_collision(b, mv, i as int);
            if !dead {
                let mut j: usize = 0;
                let mut found = false;
                while j < n
                    invariant
                        board_wf_core(b),
                        n == b.agents.len(),
                        b == s@,
                        mid@.len() == n,
                        forall|p: int| 0 <= p < n ==> #[trigger] mid@[p]@ == moved_agent(b, mv, p),
                        0 <= j <= n,
                        0 <= i < n,
                        nh == new_head(b, mv, i as int),
                        found == exists|q: int|
                            0 <= q < j && q != i as int && (#[trigger] b.agents[q]).alive
                                && new_head(b, mv, q) == new_head(b, mv, i as int)
                                && b.agents[q].body.len() >= b.agents[i as int].body.len(),
                    decreases n - j,
                {
                    if !found && j != i && s.agents[j].alive {
                        let mj = &mid[j];
                        proof {
                            assert(mj@ == moved_agent(b, mv, j as int));
                            assert(mj@.body == moved_body(b, mv, j as int));
                            assert(moved_body(b, mv, j as int)[0] == new_head(b, mv, j as int));
                        }
                        if mj.body[0] == nh && s.agents[j].body.len() >= s.agents[i].body.len() {
                            found = true;
                        }
                    }
                    j += 1;
                }
                assert(found == elim_head_to_head(b, mv, i as int));
                if found {
                    dead = true;
                }
            }
            assert(dead == eliminated(b, mv, i as int));
            elim.push(dead);
        }
        i += 1;
    }
    // Assemble the survivors and the surviving food.
    let mut out: Vec<Agent> = Vec::new();
    let mut i: usize = 0;
    while i < n
        invariant
            n == b.agents.len(),
            b == s@,
            mid@.len() == n,
            elim@.len() == n,
            forall|p: int| 0 <= p < n ==> #[trigger] mid@[p]@ == moved_agent(b, mv, p),
            forall|p: int|
                0 <= p < n ==> #[trigger] elim@[p] == (b.agents[p].alive && eliminated(b, mv, p)),
            0 <= i <= n,
            out@.len() == i,
            forall|p: int| 0 <= p < i ==> #[trigger] out@[p]@ == stepped_agent(b, mv, p),
        decreases n - i,
    {
        let m = &mid[i];
        let alive2 = s.agents[i].alive && !elim[i];
        let fin = Agent { id: m.id, body: copy_cells(&m.body), health: m.health, alive: alive2 };
        proof {
            assert(m@ == moved_agent(b, mv, i as int));
            assert(fin@ =~= stepped_agent(b, mv, i as int));
        }
        out.push(fin);
        i += 1;
    }
    let mut food2: Vec<Cell> = Vec::new();
    let nf = s.food.len();
    let mut t: usize = 0;
    while t < nf
        invariant
            board_wf_core(b),
            n == b.agents.len(),
            b == s@,
            nf == b.food.len(),
            mid@.len() == n,
            forall|p: int| 0 <= p < n ==> #[trigger] mid@[p]@ == moved_agent(b, mv, p),
            0 <= t <= nf,
            food2@ == remaining_food_prefix(b, mv, t as nat),
        decreases nf - t,
    {
        let c = s.food[t];
        let mut eaten = false;
        let mut j: usize = 0;
        while j < n
            invariant
                n == b.agents.len(),
                b == s@,
                mid@.len() == n,
                forall|p: int| 0 <= p < n ==> #[trigger] mid@[p]@ == moved_agent(b, mv, p),
                0 <= j <= n,
                nf == b.food.len(),
                0 <= t < nf,
                c == b.food[t as int],
                eaten == exists|q: int|
                    0 <= q < j && (#[trigger] b.agents[q]).alive && new_head(b, mv, q) == c,
            decreases n - j,
        {
            if !eaten && s.agents[j].alive {
                let mj = &mid[j];
                proof {
                    assert(mj@ == moved_agent(b, mv, j as int));
                    assert(moved_body(b, mv, j as int)[0] == new_head(b, mv, j as int));
                }
                if mj.body[0] == c {
                    eaten = true;
                }
            }
            j += 1;
        }
        assert(eaten == cell_eaten(b, mv, c));
        if !eaten {
            food2.push(c);
        }
        proof {
            let kk: nat = t as nat + 1;
            assert(remaining_food_prefix(b, mv, kk) == (if cell_eaten(b, mv, b.food[kk - 1]) {
                remaining_food_prefix(b, mv, (kk - 1) as nat)
            } else {
                remaining_food_prefix(b, mv, (kk - 1) as nat).push(b.food[kk - 1])
            }));
            assert((kk - 1) as nat == t as nat);
        }
        t += 1;
    }
    let s2 = BoardState {
        turn: s.turn + 1,
        food: food2,
        hazards: copy_cells(&s.hazards),
        agents: out,
    };
    proof {
        assert(s2@.agents =~= spec_step(b, mv).agents);
        assert(s2@ =~= spec_step(b, mv));
        lemma_step_preserves_wf(b, mv);
    }
    Ok(s2)
}

} // verus!
