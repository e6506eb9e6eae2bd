//! Transition engine of a sliding-tile merge puzzle on a 4x4 grid.
//!
//! A board holds sixteen cell ranks in row-major order: rank 0 is an empty
//! cell, a positive rank `r` is a tile of face value `2^r`. A move compacts
//! and merges each row of the board towards one of four directions, a spawner
//! then places one new tile in a random empty cell, and the game is over when
//! no direction's move changes the board.

pub mod game;
pub mod laws;
pub mod model;
mod rng;
