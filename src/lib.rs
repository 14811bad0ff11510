//! Rules engine and computer opponent for three-dimensional tic-tac-toe,
//! played on a 3x3x3 cube of cells.
//!
//! `board` reads positions (win detection over the shared table of `lines`,
//! empty cells, outcome); `game` holds a game in progress; `ai` chooses the
//! computer's move; `tree` holds nodes for a tree search; `chance` draws the
//! random numbers that rollouts use.
pub mod ai;
pub mod board;
pub mod chance;
pub mod game;
pub mod lines;
pub mod tree;
