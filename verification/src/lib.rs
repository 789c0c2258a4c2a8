//! Decision engine for a multi-agent, turn-based grid survival game.
//!
//! Up to four agents ("snakes") move on an 11 x 11 board, competing for food
//! while avoiding collisions.  The engine turns a board snapshot into a single
//! chosen direction through a time-bounded, iteratively deepened paranoid
//! minimax search built on a pure board model, a legal-move generator, a joint
//! transition function and a totally ordered evaluation heuristic.

pub mod board;
pub mod moves;
pub mod transition;
pub mod eval;
pub mod search;
pub mod info;
