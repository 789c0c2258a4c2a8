//! Legal-move generation: every living agent may always choose any of the
//! four directions (the game never prunes "suicidal" moves at generation
//! time); an eliminated agent provides no choice at all.

use vstd::prelude::*;
use crate::board::{BoardModel, BoardState, Direction, model_alive};

verus! {

/// The canonical enumeration order of the four directions.
pub open spec fn canonical_dirs() -> Seq<Direction> {
    seq![Direction::Up, Direction::Down, Direction::Left, Direction::Right]
}

/// Candidate directions for one agent: all four while it lives, none once it
/// has been eliminated.
pub open spec fn spec_candidates(b: BoardModel, id: u8) -> Seq<Direction> {
    if model_alive(b, id) {
        canonical_dirs()
    } else {
        Seq::empty()
    }
}

/// Executable move generator, returning the candidates in canonical order.
pub fn candidate_moves(s: &BoardState, id: u8) -> (r: Vec<Direction>)
    requires
        s.wf(),
    ensures
        r@ == spec_candidates(s@, id),
{
    let mut r: Vec<Direction> = Vec::new();
    if s.is_alive(id) {
        r.push(Direction::Up);
        r.push(Direction::Down);
        r.push(Direction::Left);
        r.push(Direction::Right);
        assert(r@ =~= canonical_dirs());
    } else {
        assert(r@ =~= Seq::<Direction>::empty());
    }
    r
}

/// The direction at a given place of the canonical order.
pub fn canonical_dir(k: usize) -> (r: Direction)
    requires
        k < 4,
    ensures
        r == canonical_dirs()[k as int],
{
    if k == 0 {
        Direction::Up
    } else if k == 1 {
        Direction::Down
    } else if k == 2 {
        Direction::Left
    } else {
        Direction::Right
    }
}

} // verus!
