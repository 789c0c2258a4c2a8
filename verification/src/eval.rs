//! The evaluation heuristic: scores a board from one agent's perspective.
//!
//! A `Score` is totally ordered.  A board where the scored agent has been
//! eliminated maps to the minimum score; one where it survives and every
//! opponent has been eliminated maps to the maximum (on a board that never
//! had an opponent this holds vacuously, so a lone agent always scores the
//! maximum).  Every other board scores by the agent's body length first and
//! by closeness to the nearest food second, a board with no food left taking
//! the worst possible closeness.

use vstd::prelude::*;
use crate::board::{
    BoardModel, BoardState, Cell, board_wf_core, cell_in_bounds, has_agent, idx_of, model_alive,
    agent_wf, ids_unique,
};

verus! {

/// Ranks of the three score classes, in increasing order of desirability.
pub const RANK_LOST: u8 = 0;

pub const RANK_ONGOING: u8 = 1;

pub const RANK_WON: u8 = 2;

/// Secondary value used when no food is left: the largest possible distance.
pub const NO_FOOD_DIST: u32 = u32::MAX;

/// A totally ordered evaluation result.  Ordering is lexicographic: first by
/// `rank`, then by `length` (larger is better), then by `dist` (smaller is
/// better).  A pure function of the board it scores, never of search depth.
#[derive(Clone, Copy, PartialEq, Eq, Structural, Debug)]
pub struct Score {
    pub rank: u8,
    pub length: usize,
    pub dist: u32,
}

/// The ordering of scores: `a` is no better than `b`.
pub open spec fn spec_score_le(a: Score, b: Score) -> bool {
    if a.rank != b.rank {
        a.rank < b.rank
    } else if a.length != b.length {
        a.length < b.length
    } else {
        a.dist >= b.dist
    }
}

/// Strict ordering of scores.
pub open spec fn spec_score_lt(a: Score, b: Score) -> bool {
    spec_score_le(a, b) && a != b
}

/// The minimum score: the scored agent is eliminated.
pub open spec fn spec_lost_score() -> Score {
    Score { rank: RANK_LOST, length: 0, dist: 0 }
}

/// The maximum score: the scored agent survives and no opponent does.
pub open spec fn spec_won_score() -> Score {
    Score { rank: RANK_WON, length: 0, dist: 0 }
}

/// `spec_score_le` is a total order on scores.
pub proof fn lemma_score_total_order(a: Score, b: Score, c: Score)
    ensures
        spec_score_le(a, a),
        spec_score_le(a, b) && spec_score_le(b, a) ==> a == b,
        spec_score_le(a, b) && spec_score_le(b, c) ==> spec_score_le(a, c),
        spec_score_le(a, b) || spec_score_le(b, a),
{
}

/// Executable comparison, mirroring `spec_score_le`.
pub fn score_le(a: Score, b: Score) -> (r: bool)
    ensures
        r == spec_score_le(a, b),
{
    if a.rank != b.rank {
        a.rank < b.rank
    } else if a.length != b.length {
        a.length < b.length
    } else {
        a.dist >= b.dist
    }
}

/// Executable strict comparison, mirroring `spec_score_lt`.
pub fn score_lt(a: Score, b: Score) -> (r: bool)
    ensures
        r == spec_score_lt(a, b),
{
    score_le(a, b) && !(a == b)
}

/// Manhattan distance between two cells.
pub open spec fn spec_manhattan(a: Cell, b: Cell) -> int {
    (if a.x >= b.x {
        a.x - b.x
    } else {
        b.x - a.x
    }) + (if a.y >= b.y {
        a.y - b.y
    } else {
        b.y - a.y
    })
}

/// Executable Manhattan distance for on-board cells.
pub fn manhattan(a: Cell, b: Cell) -> (r: u32)
    requires
        cell_in_bounds(a),
        cell_in_bounds(b),
    ensures
        r as int == spec_manhattan(a, b),
{
    let dx = if a.x >= b.x {
        a.x - b.x
    } else {
        b.x - a.x
    };
    let dy = if a.y >= b.y {
        a.y - b.y
    } else {
        b.y - a.y
    };
    (dx + dy) as u32
}

/// Minimum Manhattan distance from `h` to one of the first `k` food cells,
/// or `NO_FOOD_DIST` when there is none.
pub open spec fn min_food_dist_prefix(food: Seq<Cell>, h: Cell, k: nat) -> int
    decreases k,
{
    if k == 0 {
        NO_FOOD_DIST as int
    } else {
        let m = min_food_dist_prefix(food, h, (k - 1) as nat);
        let d = spec_manhattan(food[k - 1], h);
        if d < m {
            d
        } else {
            m
        }
    }
}

/// Minimum Manhattan distance from `h` to any food cell of the board.
pub open spec fn spec_food_dist(b: BoardModel, h: Cell) -> int {
    min_food_dist_prefix(b.food, h, b.food.len())
}

/// Whether every agent other than `self_id` has been eliminated.
pub open spec fn all_opponents_dead(b: BoardModel, self_id: u8) -> bool {
    forall|j: int|
        0 <= j < b.agents.len() && (#[trigger] b.agents[j]).id != self_id ==> !b.agents[j].alive
}

/// The reference heuristic of the engine, as a function of the board model.
pub open spec fn spec_evaluate(b: BoardModel, self_id: u8) -> Score {
    if !model_alive(b, self_id) {
        spec_lost_score()
    } else if all_opponents_dead(b, self_id) {
        spec_won_score()
    } else {
        let a = b.agents[idx_of(b, self_id)];
        Score {
            rank: RANK_ONGOING,
            length: a.body.len() as usize,
            dist: spec_food_dist(b, a.body[0]) as u32,
        }
    }
}

/// Executable evaluation, mirroring `spec_evaluate`.
pub fn evaluate(s: &BoardState, self_id: u8) -> (r: Score)
    requires
        board_wf_core(s@),
    ensures
        r == spec_evaluate(s@, self_id),
{
    let ghost b = s@;
    let idx = match s.find_agent(self_id) {
        None => {
            proof {
                if model_alive(b, self_id) {
                    let w = choose|w: int|
                        0 <= w < b.agents.len() && #[trigger] b.agents[w].id == self_id
                            && b.agents[w].alive;
                    assert(has_agent(b, self_id));
                }
            }
            return Score { rank: RANK_LOST, length: 0, dist: 0 };
        },
        Some(i) => i,
    };
    let me = &s.agents[idx];
    proof {
        assert(me@ == b.agents[idx as int]);
        assert(idx as int == idx_of(b, self_id));
    }
    if !me.alive {
        proof {
            if model_alive(b, self_id) {
                let w = choose|w: int|
                    0 <= w < b.agents.len() && #[trigger] b.agents[w].id == self_id
                        && b.agents[w].alive;
                if w != idx as int {
                    assert(ids_unique(b.agents));
                }
            }
        }
        return Score { rank: RANK_LOST, length: 0, dist: 0 };
    }
    assert(model_alive(b, self_id));
    let n = s.agents.len();
    let mut opponent_alive = false;
    let mut j: usize = 0;
    while j < n
        invariant
            board_wf_core(b),
            b == s@,
            n == b.agents.len(),
            0 <= j <= n,
            opponent_alive ==> exists|q: int|
                0 <= q < j && (#[trigger] b.agents[q]).id != self_id && b.agents[q].alive,
            !opponent_alive ==> forall|q: int|
                0 <= q < j ==> !((#[trigger] b.agents[q]).id != self_id && b.agents[q].alive),
        decreases n - j,
    {
        if !opponent_alive && s.agents[j].id != self_id && s.agents[j].alive {
            opponent_alive = true;
            proof {
                assert(b.agents[j as int].id != self_id && b.agents[j as int].alive);
            }
        }
        j += 1;
    }
    if !opponent_alive {
        proof {
            assert forall|q: int|
                0 <= q < b.agents.len() && (#[trigger] b.agents[q]).id != self_id
                implies !b.agents[q].alive by {}
        }
        return Score { rank: RANK_WON, length: 0, dist: 0 };
    }
    assert(!all_opponents_dead(b, self_id)) by {
        let w = choose|q: int|
            0 <= q < b.agents.len() && (#[trigger] b.agents[q]).id != self_id && b.agents[q].alive;
    }
    let length = me.body.len();
    let h = me.body[0];
    proof {
        assert(agent_wf(b.agents[idx as int]));
        assert(cell_in_bounds(b.agents[idx as int].body[0]));
    }
    let nf = s.food.len();
    let mut dmin: u32 = NO_FOOD_DIST;
    let mut k: usize = 0;
    while k < nf
        invariant
            board_wf_core(b),
            b == s@,
            nf == b.food.len(),
            cell_in_bounds(h),
            0 <= k <= nf,
            dmin as int == min_food_dist_prefix(b.food, h, k as nat),
        decreases nf - k,
    {
        proof {
            assert(cell_in_bounds(b.food[k as int]));
        }
        let d = manhattan(s.food[k], h);
        proof {
            let kk: nat = k as nat + 1;
            assert(min_food_dist_prefix(b.food, h, kk) == {
                let m = min_food_dist_prefix(b.food, h, (kk - 1) as nat);
                let dd = spec_manhattan(b.food[kk - 1], h);
                if dd < m {
                    dd
                } else {
                    m
                }
            });
            assert((kk - 1) as nat == k as nat);
        }
        if d < dmin {
            dmin = d;
        }
        k += 1;
    }
    Score { rank: RANK_ONGOING, length, dist: dmin }
}

} // verus!
