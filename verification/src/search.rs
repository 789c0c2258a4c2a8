//! Time-bounded, iteratively deepened paranoid minimax search.
//!
//! One ply pairs a move of the searched agent with a simultaneous joint move
//! of all living opponents, followed by one application of the transition
//! function.  At a maximizing layer the agent's four candidate directions are
//! tried in canonical order; the paranoid assumption then collapses all
//! living opponents into a single adversary that picks, over the full cross
//! product of their candidate directions, the joint move minimizing the
//! agent's eventual score.  Recursion stops at the depth limit or as soon as
//! the agent is eliminated, and ties always fall to the earliest-enumerated
//! direction, which keeps the search deterministic.

use vstd::prelude::*;
use vstd::arithmetic::div_mod::lemma_div_denominator;
use crate::board::{
    BoardModel, BoardState, Direction, TURN_LIMIT, board_wf, board_wf_core, cell_in_bounds,
    idx_of, ids_unique, model_alive, spec_apply_dir, apply_dir, agent_wf, cell_in, in_bounds,
};
use crate::moves::{canonical_dir, canonical_dirs, spec_candidates};
use crate::transition::{moves_ok, spec_step, step};
use crate::eval::{
    Score, evaluate, score_le, score_lt, spec_evaluate, spec_score_le, spec_score_lt,
    lemma_score_total_order,
};

verus! {

/// Depth cap of the iterative deepening driver, in plies.
pub const MAX_DEPTH: u32 = 3;

/// Powers of four: the size of the cross product of `n` opponents' choices.
pub open spec fn pow4(n: nat) -> nat
    decreases n,
{
    if n == 0 {
        1
    } else {
        4 * pow4((n - 1) as nat)
    }
}

/// Living opponents of `self_id` among the first `k` agents.
pub open spec fn opp_count_prefix(b: BoardModel, self_id: u8, k: nat) -> nat
    decreases k,
{
    if k == 0 {
        0
    } else {
        opp_count_prefix(b, self_id, (k - 1) as nat) + (if b.agents[k - 1].alive && b.agents[k
            - 1].id != self_id {
            1 as nat
        } else {
            0 as nat
        })
    }
}

/// Living opponents of `self_id` on the whole board.
pub open spec fn opp_count(b: BoardModel, self_id: u8) -> nat {
    opp_count_prefix(b, self_id, b.agents.len())
}

/// Number of joint opponent moves the paranoid adversary chooses from.
pub open spec fn joint_count(b: BoardModel, self_id: u8) -> nat {
    pow4(opp_count(b, self_id))
}

/// The direction encoded by one base-four digit.
pub open spec fn dir_of_num(n: nat) -> Direction {
    if n == 0 {
        Direction::Up
    } else if n == 1 {
        Direction::Down
    } else if n == 2 {
        Direction::Left
    } else {
        Direction::Right
    }
}

/// The joint assignment in which the searched agent moves `d` and the r-th
/// living opponent (in board order) moves by the r-th base-four digit of `j`.
pub open spec fn joint_assignment(b: BoardModel, self_id: u8, d: Direction, j: nat) -> Seq<
    Option<Direction>,
> {
    Seq::new(
        b.agents.len(),
        |i: int|
            if !b.agents[i].alive {
                None
            } else if b.agents[i].id == self_id {
                Some(d)
            } else {
                Some(dir_of_num((j / pow4(opp_count_prefix(b, self_id, i as nat))) % 4))
            },
    )
}

/// Every joint assignment is acceptable to the transition function.
pub proof fn lemma_joint_ok(b: BoardModel, self_id: u8, d: Direction, j: nat)
    ensures
        moves_ok(b, joint_assignment(b, self_id, d, j)),
{
    let mv = joint_assignment(b, self_id, d, j);
    assert forall|i: int| 0 <= i < mv.len() implies ((#[trigger] mv[i]) is Some
        <==> b.agents[i].alive) by {}
}

/// Paranoid value of a board for `self_id`, searched `depth` plies deep.
pub open spec fn spec_value(b: BoardModel, self_id: u8, depth: nat) -> Score
    decreases depth, 2int, 0nat,
{
    if !model_alive(b, self_id) || depth == 0 {
        spec_evaluate(b, self_id)
    } else {
        spec_best_value(b, self_id, depth, 4)
    }
}

/// Maximum, over the first `k` canonical directions, of the direction value.
pub open spec fn spec_best_value(b: BoardModel, self_id: u8, depth: nat, k: nat) -> Score
    recommends
        1 <= k <= 4,
        depth >= 1,
    decreases depth, 1int, k,
{
    if k <= 1 {
        spec_dir_value(b, self_id, canonical_dirs()[0], depth)
    } else {
        let prev = spec_best_value(b, self_id, depth, (k - 1) as nat);
        let cur = spec_dir_value(b, self_id, canonical_dirs()[k - 1], depth);
        if spec_score_le(prev, cur) {
            cur
        } else {
            prev
        }
    }
}

/// Value of moving `d`: the worst successor value over every joint move the
/// collapsed adversary can answer with.
pub open spec fn spec_dir_value(b: BoardModel, self_id: u8, d: Direction, depth: nat) -> Score
    recommends
        depth >= 1,
    decreases depth, 0int, joint_count(b, self_id) + 1,
{
    spec_worst_value(b, self_id, d, depth, joint_count(b, self_id))
}

/// Minimum, over the first `k` joint opponent moves, of the value of the
/// successor reached by playing `d` against that joint move.
pub open spec fn spec_worst_value(b: BoardModel, self_id: u8, d: Direction, depth: nat, k: nat) -> Score
    recommends
        1 <= k,
        depth >= 1,
    decreases depth, 0int, k,
{
    if depth == 0 {
        spec_evaluate(b, self_id)
    } else if k <= 1 {
        spec_value(spec_step(b, joint_assignment(b, self_id, d, 0)), self_id, (depth - 1) as nat)
    } else {
        let prev = spec_worst_value(b, self_id, d, depth, (k - 1) as nat);
        let cur = spec_value(
            spec_step(b, joint_assignment(b, self_id, d, (k - 1) as nat)),
            self_id,
            (depth - 1) as nat,
        );
        if spec_score_le(cur, prev) {
            cur
        } else {
            prev
        }
    }
}

/// The root record of a search: one score per canonical direction.
pub open spec fn spec_root_scores(b: BoardModel, self_id: u8, depth: nat) -> Seq<Score> {
    Seq::new(4, |i: int| spec_dir_value(b, self_id, canonical_dirs()[i], depth))
}

/// Index of the first maximal score among the first `k` (ties fall to the
/// earliest-enumerated index).
pub open spec fn spec_argmax_prefix(ss: Seq<Score>, k: nat) -> int
    decreases k,
{
    if k <= 1 {
        0
    } else {
        let prev = spec_argmax_prefix(ss, (k - 1) as nat);
        if spec_score_lt(ss[prev], ss[k - 1]) {
            k - 1
        } else {
            prev
        }
    }
}

/// The direction a completed depth-`depth` search chooses.
pub open spec fn spec_best_dir(b: BoardModel, self_id: u8, depth: nat) -> Direction {
    canonical_dirs()[spec_argmax_prefix(spec_root_scores(b, self_id, depth), 4)]
}

/// First canonical direction from `k` on whose destination stays on the
/// board and avoids the agent's own body; `Up` when none qualifies.
pub open spec fn spec_safe_dir_from(b: BoardModel, i: int, k: nat) -> Direction
    decreases 4 - k,
{
    if k >= 4 {
        Direction::Up
    } else {
        let d = canonical_dirs()[k as int];
        let dest = spec_apply_dir(b.agents[i].body[0], d);
        if cell_in_bounds(dest) && !b.agents[i].body.contains(dest) {
            d
        } else {
            spec_safe_dir_from(b, i, k + 1)
        }
    }
}

/// The default policy: for a living agent, the first canonical direction
/// that is no immediate self-collision; otherwise the first canonical
/// direction outright.
pub open spec fn spec_default_dir(b: BoardModel, self_id: u8) -> Direction {
    if model_alive(b, self_id) {
        spec_safe_dir_from(b, idx_of(b, self_id), 0)
    } else {
        Direction::Up
    }
}

/// The direction the driver answers with once its deepest completed search
/// reached `depth` plies; a search that completed no depth answers by the
/// default policy.
pub open spec fn spec_decide_at(b: BoardModel, self_id: u8, depth: nat) -> Direction {
    if !model_alive(b, self_id) || depth == 0 {
        spec_default_dir(b, self_id)
    } else {
        spec_best_dir(b, self_id, depth)
    }
}

/// The argmax lies within the prefix and its score dominates the prefix.
pub proof fn lemma_argmax_prefix_props(ss: Seq<Score>, k: nat)
    requires
        1 <= k <= ss.len(),
    ensures
        0 <= spec_argmax_prefix(ss, k) < k,
        forall|i: int| 0 <= i < k ==> spec_score_le(ss[i], ss[spec_argmax_prefix(ss, k)]),
    decreases k,
{
    if k == 1 {
        lemma_score_total_order(ss[0], ss[0], ss[0]);
    } else {
        lemma_argmax_prefix_props(ss, (k - 1) as nat);
        let prev = spec_argmax_prefix(ss, (k - 1) as nat);
        let cur = spec_argmax_prefix(ss, k);
        if spec_score_lt(ss[prev], ss[k - 1]) {
            assert(cur == k - 1);
            assert forall|i: int| 0 <= i < k implies spec_score_le(ss[i], ss[cur]) by {
                lemma_score_total_order(ss[i], ss[prev], ss[cur]);
            }
        } else {
            assert(cur == prev);
            assert forall|i: int| 0 <= i < k implies spec_score_le(ss[i], ss[cur]) by {
                if i == k - 1 {
                    lemma_score_total_order(ss[i], ss[cur], ss[cur]);
                }
            }
        }
    }
}

} // verus!

verus! {

/// The direction encoded by one base-four digit, executably.
fn dir_from_digit(n: usize) -> (r: Direction)
    requires
        n < 4,
    ensures
        r == dir_of_num(n as nat),
{
    if n == 0 {
        Direction::Up
    } else if n == 1 {
        Direction::Down
    } else if n == 2 {
        Direction::Left
    } else {
        Direction::Right
    }
}

/// Counts the living opponents and sizes the adversary's joint cross product.
fn joint_count_exec(s: &BoardState, self_id: u8) -> (r: usize)
    requires
        board_wf_core(s@),
    ensures
        r as nat == joint_count(s@, self_id),
        1 <= r <= 256,
{
    let ghost b = s@;
    let n = s.agents.len();
    let mut cnt: usize = 0;
    let mut i: usize = 0;
    while i < n
        invariant
            b == s@,
            n == b.agents.len(),
            0 <= i <= n,
            cnt <= i,
            cnt as nat == opp_count_prefix(b, self_id, i as nat),
        decreases n - i,
    {
        proof {
            let kk: nat = i as nat + 1;
            assert(opp_count_prefix(b, self_id, kk) == opp_count_prefix(b, self_id, (kk - 1) as nat)
                + (if b.agents[kk - 1].alive && b.agents[kk - 1].id != self_id {
                1 as nat
            } else {
                0 as nat
            }));
            assert((kk - 1) as nat == i as nat);
        }
        if s.agents[i].alive && s.agents[i].id != self_id {
            cnt += 1;
        }
        i += 1;
    }
    proof {
        reveal_with_fuel(pow4, 6);
    }
    if cnt == 0 {
        1
    } else if cnt == 1 {
        4
    } else if cnt == 2 {
        16
    } else if cnt == 3 {
        64
    } else {
        256
    }
}

/// Builds the `j`-th joint assignment for self move `d`, executably.
fn joint_assignment_exec(s: &BoardState, self_id: u8, d: Direction, j: usize) -> (r: Vec<
    Option<Direction>,
>)
    requires
        board_wf_core(s@),
    ensures
        r@ == joint_assignment(s@, self_id, d, j as nat),
{
    let ghost b = s@;
    let ghost mv = joint_assignment(b, self_id, d, j as nat);
    let n = s.agents.len();
    let mut r: Vec<Option<Direction>> = Vec::new();
    let mut jj: usize = j;
    proof {
        assert(opp_count_prefix(b, self_id, 0) == 0);
        assert(pow4(0) == 1);
        vstd::arithmetic::div_mod::lemma_div_basics(j as int);
    }
    let mut i: usize = 0;
    while i < n
        invariant
            b == s@,
            mv == joint_assignment(b, self_id, d, j as nat),
            n == b.agents.len(),
            0 <= i <= n,
            r@.len() == i,
            forall|p: int| 0 <= p < i ==> #[trigger] r@[p] == mv[p],
            jj as nat == j as nat / pow4(opp_count_prefix(b, self_id, i as nat)),
        decreases n - i,
    {
        proof {
            let kk: nat = i as nat + 1;
            assert(opp_count_prefix(b, self_id, kk) == opp_count_prefix(b, self_id, (kk - 1) as nat)
                + (if b.agents[kk - 1].alive && b.agents[kk - 1].id != self_id {
                1 as nat
            } else {
                0 as nat
            }));
            assert((kk - 1) as nat == i as nat);
        }
        let a = &s.agents[i];
        if !a.alive {
            r.push(None);
        } else if a.id == self_id {
            r.push(Some(d));
        } else {
            let dig = jj % 4;
            r.push(Some(dir_from_digit(dig)));
            proof {
                let c = pow4(opp_count_prefix(b, self_id, i as nat));
                assert(pow4(opp_count_prefix(b, self_id, i as nat + 1)) == 4 * c);
                assert(c >= 1) by {
                    lemma_pow4_pos(opp_count_prefix(b, self_id, i as nat));
                }
                lemma_div_denominator(j as int, c as int, 4);
                assert(jj as nat / 4 == j as nat / (4 * c));
            }
            jj = jj / 4;
        }
        i += 1;
    }
    proof {
        assert(r@ =~= mv);
    }
    r
}

/// Powers of four are positive.
proof fn lemma_pow4_pos(n: nat)
    ensures
        pow4(n) >= 1,
    decreases n,
{
    if n > 0 {
        lemma_pow4_pos((n - 1) as nat);
    }
}

} // verus!

verus! {

/// Paranoid minimax value of a board, executably; mirrors `spec_value`.
pub fn search_value(s: &BoardState, self_id: u8, depth: u32) -> (r: Score)
    requires
        board_wf_core(s@),
        depth <= MAX_DEPTH,
        s@.turn <= TURN_LIMIT as int + MAX_DEPTH - depth,
    ensures
        r == spec_value(s@, self_id, depth as nat),
    decreases depth, 1int,
{
    let ghost b = s@;
    let ghost dep: nat = depth as nat;
    if depth == 0 || !s.is_alive(self_id) {
        return evaluate(s, self_id);
    }
    let mut best = search_dir_value(s, self_id, canonical_dir(0), depth);
    assert(best == spec_best_value(b, self_id, dep, 1));
    let mut k: usize = 1;
    while k < 4
        invariant
            board_wf_core(b),
            b == s@,
            dep == depth as nat,
            1 <= depth <= MAX_DEPTH,
            s@.turn <= TURN_LIMIT as int + MAX_DEPTH - depth,
            model_alive(b, self_id),
            1 <= k <= 4,
            best == spec_best_value(b, self_id, dep, k as nat),
        decreases 4 - k,
    {
        let cur = search_dir_value(s, self_id, canonical_dir(k), depth);
        proof {
            let kk: nat = k as nat + 1;
            assert(spec_best_value(b, self_id, dep, kk) == {
                let prev = spec_best_value(b, self_id, dep, (kk - 1) as nat);
                let c = spec_dir_value(b, self_id, canonical_dirs()[kk - 1], dep);
                if spec_score_le(prev, c) {
                    c
                } else {
                    prev
                }
            });
            assert((kk - 1) as nat == k as nat);
        }
        if score_le(best, cur) {
            best = cur;
        }
        k += 1;
    }
    best
}

/// Worst-case value of playing `d`, executably; mirrors `spec_dir_value`.
fn search_dir_value(s: &BoardState, self_id: u8, d: Direction, depth: u32) -> (r: Score)
    requires
        board_wf_core(s@),
        1 <= depth <= MAX_DEPTH,
        s@.turn <= TURN_LIMIT as int + MAX_DEPTH - depth,
        model_alive(s@, self_id),
    ensures
        r == spec_dir_value(s@, self_id, d, depth as nat),
    decreases depth, 0int,
{
    let ghost b = s@;
    let ghost dep: nat = depth as nat;
    let jc = joint_count_exec(s, self_id);
    let mv0 = joint_assignment_exec(s, self_id, d, 0);
    proof {
        lemma_joint_ok(b, self_id, d, 0);
    }
    let c0 = match step(s, &mv0) {
        Ok(c) => c,
        Err(_) => vstd::pervasive::unreached(),
    };
    let mut worst = search_value(&c0, self_id, depth - 1);
    assert(worst == spec_worst_value(b, self_id, d, dep, 1));
    let mut j: usize = 1;
    while j < jc
        invariant
            board_wf_core(b),
            b == s@,
            dep == depth as nat,
            1 <= depth <= MAX_DEPTH,
            s@.turn <= TURN_LIMIT as int + MAX_DEPTH - depth,
            model_alive(b, self_id),
            jc as nat == joint_count(b, self_id),
            1 <= j <= jc,
            worst == spec_worst_value(b, self_id, d, dep, j as nat),
        decreases jc - j,
    {
        let mvj = joint_assignment_exec(s, self_id, d, j);
        proof {
            lemma_joint_ok(b, self_id, d, j as nat);
        }
        let cj = match step(s, &mvj) {
            Ok(c) => c,
            Err(_) => vstd::pervasive::unreached(),
        };
        let cur = search_value(&cj, self_id, depth - 1);
        proof {
            let kk: nat = j as nat + 1;
            assert(spec_worst_value(b, self_id, d, dep, kk) == {
                let prev = spec_worst_value(b, self_id, d, dep, (kk - 1) as nat);
                let c = spec_value(
                    spec_step(b, joint_assignment(b, self_id, d, (kk - 1) as nat)),
                    self_id,
                    (dep - 1) as nat,
                );
                if spec_score_le(c, prev) {
                    c
                } else {
                    prev
                }
            });
            assert((kk - 1) as nat == j as nat);
        }
        if score_le(cur, worst) {
            worst = cur;
        }
        j += 1;
    }
    worst
}

/// The full root record of a completed search: the paranoid value of every
/// canonical direction, in canonical order; mirrors `spec_root_scores`.
pub fn search_root_scores(s: &BoardState, self_id: u8, depth: u32) -> (r: Vec<Score>)
    requires
        board_wf_core(s@),
        1 <= depth <= MAX_DEPTH,
        s@.turn <= TURN_LIMIT as int + MAX_DEPTH - depth,
        model_alive(s@, self_id),
    ensures
        r@ == spec_root_scores(s@, self_id, depth as nat),
{
    let ghost b = s@;
    let ghost dep: nat = depth as nat;
    let mut r: Vec<Score> = Vec::new();
    let mut k: usize = 0;
    while k < 4
        invariant
            board_wf_core(b),
            b == s@,
            dep == depth as nat,
            1 <= depth <= MAX_DEPTH,
            s@.turn <= TURN_LIMIT as int + MAX_DEPTH - depth,
            model_alive(b, self_id),
            0 <= k <= 4,
            r@.len() == k,
            forall|p: int|
                0 <= p < k ==> #[trigger] r@[p] == spec_dir_value(b, self_id, canonical_dirs()[p], dep),
        decreases 4 - k,
    {
        let sc = search_dir_value(s, self_id, canonical_dir(k), depth);
        r.push(sc);
        k += 1;
    }
    proof {
        assert(r@ =~= spec_root_scores(b, self_id, dep));
    }
    r
}

/// The default policy, executably; mirrors `spec_default_dir`.
pub fn default_dir(s: &BoardState, self_id: u8) -> (r: Direction)
    requires
        board_wf_core(s@),
    ensures
        r == spec_default_dir(s@, self_id),
{
    let ghost b = s@;
    let idx = match s.find_agent(self_id) {
        None => {
            proof {
                if model_alive(b, self_id) {
                    let w = choose|w: int|
                        0 <= w < b.agents.len() && #[trigger] b.agents[w].id == self_id
                            && b.agents[w].alive;
                    assert(crate::board::has_agent(b, self_id));
                }
            }
            return Direction::Up;
        },
        Some(i) => i,
    };
    let me = &s.agents[idx];
    proof {
        assert(me@ == b.agents[idx as int]);
        assert(idx as int == idx_of(b, self_id));
    }
    if !me.alive {
        proof {
            if model_alive(b, self_id) {
                let w = choose|w: int|
                    0 <= w < b.agents.len() && #[trigger] b.agents[w].id == self_id
                        && b.agents[w].alive;
                if w != idx as int {
                    assert(ids_unique(b.agents));
                }
            }
        }
        return Direction::Up;
    }
    assert(model_alive(b, self_id));
    proof {
        assert(agent_wf(b.agents[idx as int]));
    }
    let head = me.body[0];
    let mut k: usize = 0;
    while k < 4
        invariant
            board_wf_core(b),
            b == s@,
            0 <= idx < b.agents.len(),
            idx as int == idx_of(b, self_id),
            model_alive(b, self_id),
            me == &s.agents[idx as int],
            b.agents[idx as int].alive,
            head == b.agents[idx as int].body[0],
            cell_in_bounds(head),
            0 <= k <= 4,
            spec_safe_dir_from(b, idx as int, 0) == spec_safe_dir_from(b, idx as int, k as nat),
        decreases 4 - k,
    {
        let d = canonical_dir(k);
        let dest = apply_dir(head, d);
        if in_bounds(dest) && !cell_in(&s.agents[idx].body, dest) {
            assert(spec_safe_dir_from(b, idx as int, k as nat) == d);
            return d;
        }
        k += 1;
    }
    assert(spec_safe_dir_from(b, idx as int, 4) == Direction::Up);
    Direction::Up
}

/// The direction the driver would answer with after completing exactly
/// `depth` plies of search; mirrors `spec_decide_at`.
pub fn decide_at_depth(s: &BoardState, self_id: u8, depth: u32) -> (r: Direction)
    requires
        board_wf(s@),
        depth <= MAX_DEPTH,
    ensures
        r == spec_decide_at(s@, self_id, depth as nat),
{
    let ghost b = s@;
    let ghost dep: nat = depth as nat;
    if depth == 0 || !s.is_alive(self_id) {
        return default_dir(s, self_id);
    }
    let scores = search_root_scores(s, self_id, depth);
    let ghost ss = spec_root_scores(b, self_id, dep);
    let mut bi: usize = 0;
    let mut k: usize = 1;
    while k < 4
        invariant
            scores@ == ss,
            scores@.len() == 4,
            1 <= k <= 4,
            0 <= bi < k,
            bi as int == spec_argmax_prefix(ss, k as nat),
        decreases 4 - k,
    {
        proof {
            let kk: nat = k as nat + 1;
            assert(spec_argmax_prefix(ss, kk) == {
                let prev = spec_argmax_prefix(ss, (kk - 1) as nat);
                if spec_score_lt(ss[prev], ss[kk - 1]) {
                    kk - 1
                } else {
                    prev
                }
            });
            assert((kk - 1) as nat == k as nat);
        }
        if score_lt(scores[bi], scores[k]) {
            bi = k;
        }
        k += 1;
    }
    canonical_dir(bi)
}

} // verus!

verus! {

#[verifier::external_type_specification]
#[verifier::external_body]
pub struct ExInstant(std::time::Instant);

/// Relies on `std::time::Instant::now`: the current instant of the monotonic
/// wall clock.  Nothing is assumed of the value; it depends on the clock.
#[verifier::external_body]
fn instant_now() -> std::time::Instant {
    std::time::Instant::now()
}

/// Relies on `Instant`'s `PartialOrd::ge`: whether `a` is at or past `b`.
/// Nothing is assumed of the result, as instants are opaque to the model.
#[verifier::external_body]
fn instant_ge(a: &std::time::Instant, b: &std::time::Instant) -> bool {
    *a >= *b
}

/// Whether the wall clock has reached `deadline`.  The result depends on the
/// clock, so callers state what holds of either outcome.
fn deadline_passed(deadline: &std::time::Instant) -> bool {
    let now = instant_now();
    instant_ge(&now, deadline)
}

/// The anytime decision driver: searches depth 1, then 2, and so on up to
/// `MAX_DEPTH` plies, keeping the last completed depth's answer and checking
/// the deadline before starting each depth.  Always answers: whatever the
/// clock did, the result is the answer of some completed depth (possibly
/// none, which falls back to the default policy), and an agent that is
/// absent or already eliminated gets the default policy outright.
pub fn decide(s: &BoardState, self_id: u8, deadline: std::time::Instant) -> (r: Direction)
    requires
        s.wf(),
    ensures
        exists|dd: nat| dd <= MAX_DEPTH as nat && r == spec_decide_at(s@, self_id, dd),
        !model_alive(s@, self_id) ==> r == spec_default_dir(s@, self_id),
{
    let ghost b = s@;
    if !s.is_alive(self_id) {
        let r = default_dir(s, self_id);
        proof {
            assert(spec_decide_at(b, self_id, 0) == spec_default_dir(b, self_id));
            assert(0 as nat <= MAX_DEPTH as nat && r == spec_decide_at(b, self_id, 0 as nat));
        }
        return r;
    }
    let mut best = default_dir(s, self_id);
    let ghost mut chosen: nat = 0;
    proof {
        assert(spec_decide_at(b, self_id, 0) == spec_default_dir(b, self_id));
    }
    let mut depth: u32 = 1;
    while depth <= MAX_DEPTH
        invariant
            s.wf(),
            b == s@,
            model_alive(b, self_id),
            1 <= depth <= MAX_DEPTH + 1,
            chosen <= MAX_DEPTH as nat,
            best == spec_decide_at(b, self_id, chosen),
        decreases MAX_DEPTH + 1 - depth,
    {
        if deadline_passed(&deadline) {
            break;
        }
        best = decide_at_depth(s, self_id, depth);
        proof {
            chosen = depth as nat;
        }
        depth += 1;
    }
    proof {
        assert(chosen <= MAX_DEPTH as nat && best == spec_decide_at(b, self_id, chosen));
    }
    best
}

/// A chosen direction is always one of the move generator's candidates for a
/// living agent: whatever the completed depth, the decision lies in the
/// candidate set the generator offers at the root.
pub proof fn lemma_decide_direction_legal(b: BoardModel, self_id: u8, depth: nat)
    requires
        model_alive(b, self_id),
    ensures
        spec_candidates(b, self_id).contains(spec_decide_at(b, self_id, depth)),
{
    let d = spec_decide_at(b, self_id, depth);
    let cs = canonical_dirs();
    match d {
        Direction::Up => {
            assert(cs[0] == d);
            assert(cs.contains(d));
        },
        Direction::Down => {
            assert(cs[1] == d);
            assert(cs.contains(d));
        },
        Direction::Left => {
            assert(cs[2] == d);
            assert(cs.contains(d));
        },
        Direction::Right => {
            assert(cs[3] == d);
            assert(cs.contains(d));
        },
    }
}

/// Determinism of the search: the answer of a completed search is a function
/// of the board, the searched agent and the depth alone, so two searches of
/// identical inputs answer with the same direction.
pub proof fn lemma_decide_deterministic(
    b: BoardModel,
    self_id: u8,
    depth: nat,
    r1: Direction,
    r2: Direction,
)
    requires
        r1 == spec_decide_at(b, self_id, depth),
        r2 == spec_decide_at(b, self_id, depth),
    ensures
        r1 == r2,
{
}

/// Within one completed depth, the chosen direction's root score dominates
/// the root score of every direction under the evaluation ordering.
pub proof fn lemma_chosen_score_maximal(b: BoardModel, self_id: u8, depth: nat, k: int)
    requires
        0 <= k < 4,
    ensures
        spec_score_le(
            spec_root_scores(b, self_id, depth)[k],
            spec_root_scores(b, self_id, depth)[spec_argmax_prefix(
                spec_root_scores(b, self_id, depth),
                4,
            )],
        ),
{
    let ss = spec_root_scores(b, self_id, depth);
    lemma_argmax_prefix_props(ss, 4);
}

} // verus!
