use snake_engine::board::{AgentSnapshot, BoardState, Cell, Direction, EngineError};
use snake_engine::transition::step;

fn cell(x: i32, y: i32) -> Cell {
    Cell { x, y }
}

fn snap(id: u8, body: &[(i32, i32)], health: u8) -> AgentSnapshot {
    AgentSnapshot { id, body: body.iter().map(|&(x, y)| cell(x, y)).collect(), health }
}

fn board(turn: u32, food: &[(i32, i32)], agents: Vec<AgentSnapshot>) -> BoardState {
    let food = food.iter().map(|&(x, y)| cell(x, y)).collect();
    BoardState::from_snapshot(turn, food, Vec::new(), agents).unwrap()
}

#[test]
fn plain_move_drops_tail_and_ages() {
    let s = board(0, &[], vec![snap(0, &[(5, 5), (5, 6)], 50)]);
    let next = step(&s, &vec![Some(Direction::Right)]).unwrap();
    assert_eq!(next.agents[0].body, vec![cell(6, 5), cell(5, 5)]);
    assert_eq!(next.agents[0].body.len(), 2);
    assert_eq!(next.agents[0].health, 49);
    assert!(next.agents[0].alive);
    assert_eq!(next.turn, 1);
}

#[test]
fn eating_grows_heals_and_removes_food() {
    let s = board(3, &[(5, 4)], vec![snap(0, &[(4, 4), (3, 4)], 37)]);
    let next = step(&s, &vec![Some(Direction::Right)]).unwrap();
    assert_eq!(next.agents[0].health, 100);
    assert_eq!(next.agents[0].body.len(), 3);
    assert_eq!(next.agents[0].body, vec![cell(5, 4), cell(4, 4), cell(3, 4)]);
    assert!(!next.food_cells().contains(&cell(5, 4)));
    assert!(next.agents[0].alive);
}

#[test]
fn head_to_head_tie_eliminates_both() {
    let a = snap(0, &[(3, 5), (2, 5)], 90);
    let b = snap(1, &[(5, 5), (6, 5)], 90);
    let s = board(0, &[], vec![a, b]);
    let next = step(&s, &vec![Some(Direction::Right), Some(Direction::Left)]).unwrap();
    assert!(!next.agents[0].alive);
    assert!(!next.agents[1].alive);
}

#[test]
fn head_to_head_longer_survives() {
    let a = snap(0, &[(3, 5), (2, 5), (1, 5)], 90);
    let b = snap(1, &[(5, 5), (6, 5)], 90);
    let s = board(0, &[], vec![a, b]);
    let next = step(&s, &vec![Some(Direction::Right), Some(Direction::Left)]).unwrap();
    assert!(next.agents[0].alive);
    assert!(!next.agents[1].alive);
}

#[test]
fn leaving_the_board_left_eliminates() {
    let s = board(0, &[], vec![snap(0, &[(0, 0), (1, 0)], 90)]);
    let next = step(&s, &vec![Some(Direction::Left)]).unwrap();
    assert!(!next.agents[0].alive);
}

#[test]
fn leaving_the_board_down_eliminates() {
    let s = board(0, &[], vec![snap(0, &[(0, 0), (0, 1)], 90)]);
    let next = step(&s, &vec![Some(Direction::Down)]).unwrap();
    assert!(!next.agents[0].alive);
}

#[test]
fn starving_eliminates() {
    let s = board(0, &[], vec![snap(0, &[(5, 5), (5, 6)], 1)]);
    let next = step(&s, &vec![Some(Direction::Right)]).unwrap();
    assert_eq!(next.agents[0].health, 0);
    assert!(!next.agents[0].alive);
}

#[test]
fn eating_at_the_last_moment_survives() {
    let s = board(0, &[(6, 5)], vec![snap(0, &[(5, 5), (5, 6)], 1)]);
    let next = step(&s, &vec![Some(Direction::Right)]).unwrap();
    assert_eq!(next.agents[0].health, 100);
    assert!(next.agents[0].alive);
}

#[test]
fn running_into_a_body_eliminates() {
    let a = snap(0, &[(4, 5), (3, 5)], 90);
    let b = snap(1, &[(5, 6), (5, 5), (5, 4)], 90);
    let s = board(0, &[], vec![a, b]);
    // Agent 0 moves onto (5, 5), a non-head segment of agent 1's moved body
    // (agent 1 moves up, so (5, 5) stays occupied by its middle segment).
    let next = step(&s, &vec![Some(Direction::Right), Some(Direction::Up)]).unwrap();
    assert!(!next.agents[0].alive);
    assert!(next.agents[1].alive);
}

#[test]
fn following_the_vacated_tail_is_safe() {
    let s = board(0, &[], vec![snap(0, &[(5, 5), (5, 6)], 90)]);
    let next = step(&s, &vec![Some(Direction::Up)]).unwrap();
    assert!(next.agents[0].alive);
    assert_eq!(next.agents[0].body, vec![cell(5, 6), cell(5, 5)]);
}

#[test]
fn self_collision_eliminates() {
    let s = board(0, &[], vec![snap(0, &[(5, 5), (5, 6), (4, 6), (4, 5)], 90)]);
    let next = step(&s, &vec![Some(Direction::Up)]).unwrap();
    assert!(!next.agents[0].alive);
}

#[test]
fn move_for_eliminated_agent_is_refused() {
    let alive = snap(0, &[(5, 5), (5, 6)], 90);
    let dead = snap(1, &[(2, 2)], 0);
    let s = board(0, &[], vec![alive, dead]);
    let r = step(&s, &vec![Some(Direction::Up), Some(Direction::Up)]);
    assert_eq!(r.unwrap_err(), EngineError::InvariantViolation);
}

#[test]
fn missing_move_for_living_agent_is_refused() {
    let s = board(0, &[], vec![snap(0, &[(5, 5), (5, 6)], 90)]);
    let r = step(&s, &vec![None]);
    assert_eq!(r.unwrap_err(), EngineError::InvariantViolation);
    let r2 = step(&s, &Vec::new());
    assert_eq!(r2.unwrap_err(), EngineError::InvariantViolation);
}

#[test]
fn hazards_are_carried_over() {
    let hazards = vec![cell(1, 1), cell(2, 2)];
    let s = BoardState::from_snapshot(
        0,
        Vec::new(),
        hazards.clone(),
        vec![snap(0, &[(5, 5), (5, 6)], 90)],
    )
    .unwrap();
    let next = step(&s, &vec![Some(Direction::Right)]).unwrap();
    assert_eq!(next.hazards, hazards);
}

#[test]
fn dead_agents_are_left_untouched() {
    let alive = snap(0, &[(5, 5), (5, 6)], 90);
    let dead = snap(1, &[(2, 2), (2, 3)], 0);
    let s = board(0, &[], vec![alive, dead]);
    let next = step(&s, &vec![Some(Direction::Right), None]).unwrap();
    assert!(!next.agents[1].alive);
    assert_eq!(next.agents[1].body, vec![cell(2, 2), cell(2, 3)]);
}
