//! A deterministic solver for a fixed-size sliding-grid puzzle.
//!
//! A board holds blocking tokens (`Oni`), protected tokens (`Fuku`) and
//! empty cells (`Vacant`).  A move slides one whole row or column a single
//! step toward an edge; the cell at that edge falls off the board.  The
//! solver removes every blocking token while never sliding a protected
//! token off the board, and emits the move sequence it used.

pub mod board;
pub mod planner;
pub mod driver;
pub mod parse;
