//! A solver for square grid puzzles over a small alphabet: on every row and
//! column each symbol may occur at most a fixed number of times, and no three
//! equal symbols may stand next to each other. `board` reads and checks a
//! grid, `search` completes it by backtracking, and `grid` holds the model
//! that their contracts are stated over.

pub mod grid;
pub mod board;
pub mod search;
