use std::time::{Duration, Instant};
use snake_engine::board::{AgentSnapshot, BoardState, Cell, Direction};
use snake_engine::eval::{score_le, Score, NO_FOOD_DIST};
use snake_engine::moves::candidate_moves;
use snake_engine::search::{decide, decide_at_depth, default_dir, search_root_scores};

fn cell(x: i32, y: i32) -> Cell {
    Cell { x, y }
}

fn snap(id: u8, body: &[(i32, i32)], health: u8) -> AgentSnapshot {
    AgentSnapshot { id, body: body.iter().map(|&(x, y)| cell(x, y)).collect(), health }
}

fn board(food: &[(i32, i32)], agents: Vec<AgentSnapshot>) -> BoardState {
    let food = food.iter().map(|&(x, y)| cell(x, y)).collect();
    BoardState::from_snapshot(0, food, Vec::new(), agents).unwrap()
}

fn far_future() -> Instant {
    Instant::now() + Duration::from_secs(600)
}

#[test]
fn candidates_are_all_four_for_a_living_agent() {
    let s = board(&[], vec![snap(0, &[(5, 5), (5, 6)], 90), snap(1, &[(1, 1)], 0)]);
    assert_eq!(
        candidate_moves(&s, 0),
        vec![Direction::Up, Direction::Down, Direction::Left, Direction::Right],
    );
    assert_eq!(candidate_moves(&s, 1), Vec::new());
    assert_eq!(candidate_moves(&s, 9), Vec::new());
}

#[test]
fn search_walks_toward_the_food() {
    let s = board(
        &[(6, 4)],
        vec![snap(0, &[(4, 4), (3, 4)], 90), snap(1, &[(0, 10), (0, 9)], 90)],
    );
    assert_eq!(decide_at_depth(&s, 0, 1), Direction::Right);
}

#[test]
fn root_scores_record_every_direction() {
    let s = board(
        &[(6, 4)],
        vec![snap(0, &[(4, 4), (3, 4)], 90), snap(1, &[(0, 10), (0, 9)], 90)],
    );
    let scores = search_root_scores(&s, 0, 1);
    assert_eq!(scores.len(), 4);
    // Up, Down, Left move to distance 3 from the food; Right moves to 1.
    assert_eq!(scores[0], Score { rank: 1, length: 2, dist: 3 });
    assert_eq!(scores[1], Score { rank: 1, length: 2, dist: 3 });
    assert_eq!(scores[2], Score { rank: 1, length: 2, dist: 3 });
    assert_eq!(scores[3], Score { rank: 1, length: 2, dist: 1 });
}

#[test]
fn decision_is_deterministic() {
    let s1 = board(
        &[(6, 4), (2, 8)],
        vec![snap(0, &[(4, 4), (3, 4), (3, 5)], 60), snap(1, &[(8, 8), (8, 9)], 60)],
    );
    let s2 = board(
        &[(6, 4), (2, 8)],
        vec![snap(0, &[(4, 4), (3, 4), (3, 5)], 60), snap(1, &[(8, 8), (8, 9)], 60)],
    );
    let first = decide(&s1, 0, far_future());
    let second = decide(&s2, 0, far_future());
    assert_eq!(first, second);
}

#[test]
fn decision_lies_in_the_candidate_set() {
    let s = board(
        &[(6, 4)],
        vec![snap(0, &[(4, 4), (3, 4)], 90), snap(1, &[(8, 8), (8, 9)], 90)],
    );
    let chosen = decide(&s, 0, far_future());
    assert!(candidate_moves(&s, 0).contains(&chosen));
}

#[test]
fn a_past_deadline_still_answers_at_once() {
    let s = board(&[], vec![snap(0, &[(5, 5), (5, 6)], 90)]);
    let started = Instant::now();
    let chosen = decide(&s, 0, started);
    assert!(started.elapsed() < Duration::from_secs(5));
    // Up runs into the agent's own body, so the default policy answers Down.
    assert_eq!(chosen, Direction::Down);
}

#[test]
fn an_absent_agent_gets_the_default_direction() {
    let s = board(&[], vec![snap(0, &[(5, 5), (5, 6)], 90)]);
    assert_eq!(decide(&s, 3, far_future()), Direction::Up);
}

#[test]
fn an_eliminated_agent_gets_the_default_direction() {
    let s = board(&[], vec![snap(0, &[(5, 5), (5, 6)], 90), snap(1, &[(2, 2)], 0)]);
    assert_eq!(decide(&s, 1, far_future()), Direction::Up);
}

#[test]
fn the_default_policy_avoids_walls_and_its_own_body() {
    // In the corner with the body blocking Up: Up leaves the body cell, Down
    // and Left leave the board, so Right is the first safe direction.
    let s = board(&[], vec![snap(0, &[(0, 0), (0, 1)], 90)]);
    assert_eq!(default_dir(&s, 0), Direction::Right);
}

#[test]
fn the_chosen_direction_scores_no_worse_than_any_other() {
    let s = board(
        &[(6, 4)],
        vec![snap(0, &[(4, 4), (3, 4)], 90), snap(1, &[(0, 10), (0, 9)], 90)],
    );
    let scores = search_root_scores(&s, 0, 1);
    let chosen = decide_at_depth(&s, 0, 1);
    let dirs = [Direction::Up, Direction::Down, Direction::Left, Direction::Right];
    let chosen_score = scores[dirs.iter().position(|&d| d == chosen).unwrap()];
    for k in 0..4 {
        assert!(score_le(scores[k], chosen_score));
    }
}

#[test]
fn a_deeper_search_sees_starvation_coming() {
    // With two health left and no food, one more move is survivable but two
    // are not: a depth-one search still scores an ongoing board, a depth-two
    // search already scores the minimum for the same direction.
    let s = board(
        &[],
        vec![snap(0, &[(5, 5), (5, 6)], 2), snap(1, &[(0, 10), (0, 9)], 90)],
    );
    let shallow = search_root_scores(&s, 0, 1);
    let deep = search_root_scores(&s, 0, 2);
    assert_eq!(shallow[3], Score { rank: 1, length: 2, dist: NO_FOOD_DIST });
    assert_eq!(deep[3], Score { rank: 0, length: 0, dist: 0 });
}
