//! Board logic for a sliding-tile puzzle: tiles on a square grid, the
//! directional shift with merges, spawning of new tiles and the win / loss
//! checks.

pub mod board;
pub mod lane;
pub mod shift;
pub mod terminal;
pub mod spawn;
pub mod game;
