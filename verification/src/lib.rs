//! Deterministic move generation for two small turn-based puzzle games:
//! an optimal Tower of Hanoi solver and a tic-tac-toe engine with
//! difficulty levels, built on exhaustive minimax search.

pub mod hanoi;
pub mod tic_tac_toe;
