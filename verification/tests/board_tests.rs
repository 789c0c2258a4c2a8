use snake_engine::board::{AgentSnapshot, BoardState, Cell, EngineError};
use snake_engine::eval::{evaluate, score_le, score_lt, Score, NO_FOOD_DIST};
use snake_engine::info::SnakeInfo;

fn cell(x: i32, y: i32) -> Cell {
    Cell { x, y }
}

fn snap(id: u8, body: &[(i32, i32)], health: u8) -> AgentSnapshot {
    AgentSnapshot { id, body: body.iter().map(|&(x, y)| cell(x, y)).collect(), health }
}

#[test]
fn snapshot_with_empty_body_is_invalid() {
    let r = BoardState::from_snapshot(0, Vec::new(), Vec::new(), vec![snap(0, &[], 90)]);
    assert_eq!(r.unwrap_err(), EngineError::InvalidSnapshot);
}

#[test]
fn snapshot_with_out_of_bounds_cell_is_invalid() {
    let r = BoardState::from_snapshot(
        0,
        Vec::new(),
        Vec::new(),
        vec![snap(0, &[(11, 5), (10, 5)], 90)],
    );
    assert_eq!(r.unwrap_err(), EngineError::InvalidSnapshot);
    let r2 = BoardState::from_snapshot(0, vec![cell(0, -1)], Vec::new(), vec![snap(0, &[(5, 5)], 90)]);
    assert_eq!(r2.unwrap_err(), EngineError::InvalidSnapshot);
}

#[test]
fn snapshot_with_duplicate_ids_is_invalid() {
    let r = BoardState::from_snapshot(
        0,
        Vec::new(),
        Vec::new(),
        vec![snap(7, &[(1, 1)], 90), snap(7, &[(3, 3)], 90)],
    );
    assert_eq!(r.unwrap_err(), EngineError::InvalidSnapshot);
}

#[test]
fn snapshot_with_five_agents_is_invalid() {
    let agents = (0..5).map(|i| snap(i, &[(i as i32, 0)], 90)).collect();
    let r = BoardState::from_snapshot(0, Vec::new(), Vec::new(), agents);
    assert_eq!(r.unwrap_err(), EngineError::InvalidSnapshot);
}

#[test]
fn snapshot_deduplicates_food() {
    let food = vec![cell(1, 1), cell(2, 2), cell(1, 1)];
    let s = BoardState::from_snapshot(0, food, Vec::new(), vec![snap(0, &[(5, 5)], 90)]).unwrap();
    assert_eq!(s.food_cells(), vec![cell(1, 1), cell(2, 2)]);
}

#[test]
fn queries_read_the_board() {
    let s = BoardState::from_snapshot(
        9,
        vec![cell(3, 3)],
        Vec::new(),
        vec![snap(4, &[(5, 5), (5, 6), (5, 7)], 80), snap(2, &[(0, 0)], 0)],
    )
    .unwrap();
    assert_eq!(s.turn, 9);
    assert_eq!(s.head_of(4), Some(cell(5, 5)));
    assert_eq!(s.length_of(4), Some(3));
    assert!(s.is_alive(4));
    assert!(!s.is_alive(2));
    assert_eq!(s.head_of(9), None);
    assert_eq!(s.length_of(9), None);
    assert!(!s.is_alive(9));
    assert_eq!(s.food_cells(), vec![cell(3, 3)]);
}

#[test]
fn evaluation_scores_length_then_food_distance() {
    let s = BoardState::from_snapshot(
        0,
        vec![cell(8, 4), cell(6, 7)],
        Vec::new(),
        vec![snap(0, &[(4, 4), (3, 4)], 90), snap(1, &[(0, 10)], 90)],
    )
    .unwrap();
    // Nearest food from (4, 4): (6, 7) at distance 5; (8, 4) lies at 4.
    assert_eq!(evaluate(&s, 0), Score { rank: 1, length: 2, dist: 4 });
}

#[test]
fn evaluation_without_food_takes_the_worst_distance() {
    let s = BoardState::from_snapshot(
        0,
        Vec::new(),
        Vec::new(),
        vec![snap(0, &[(4, 4), (3, 4)], 90), snap(1, &[(0, 10)], 90)],
    )
    .unwrap();
    assert_eq!(evaluate(&s, 0), Score { rank: 1, length: 2, dist: NO_FOOD_DIST });
}

#[test]
fn evaluation_of_an_eliminated_agent_is_minimal() {
    let s = BoardState::from_snapshot(
        0,
        vec![cell(1, 1)],
        Vec::new(),
        vec![snap(0, &[(4, 4)], 0), snap(1, &[(0, 10)], 90)],
    )
    .unwrap();
    assert_eq!(evaluate(&s, 0), Score { rank: 0, length: 0, dist: 0 });
    assert_eq!(evaluate(&s, 3), Score { rank: 0, length: 0, dist: 0 });
}

#[test]
fn evaluation_with_all_opponents_dead_is_maximal() {
    let s = BoardState::from_snapshot(
        0,
        vec![cell(1, 1)],
        Vec::new(),
        vec![snap(0, &[(4, 4), (3, 4)], 90), snap(1, &[(0, 10)], 0)],
    )
    .unwrap();
    assert_eq!(evaluate(&s, 0), Score { rank: 2, length: 0, dist: 0 });
}

#[test]
fn score_ordering_is_lexicographic() {
    let lost = Score { rank: 0, length: 0, dist: 0 };
    let short_near = Score { rank: 1, length: 2, dist: 1 };
    let short_far = Score { rank: 1, length: 2, dist: 9 };
    let long_far = Score { rank: 1, length: 5, dist: 9 };
    let won = Score { rank: 2, length: 0, dist: 0 };
    assert!(score_le(lost, short_far));
    assert!(score_lt(short_far, short_near));
    assert!(!score_le(short_near, short_far));
    assert!(score_lt(short_near, long_far));
    assert!(score_le(long_far, won));
    assert!(score_le(won, won));
    assert!(!score_lt(won, won));
}

#[test]
fn snake_info_reports_protocol_version_one() {
    let info = SnakeInfo::standard();
    assert_eq!(info.apiversion, "1");
    assert!(info.author.is_none());
    assert!(info.color.is_none());
    assert!(info.head.is_none());
    assert!(info.tail.is_none());
    assert!(info.version.is_none());
}
