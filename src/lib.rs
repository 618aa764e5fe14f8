//! Rules engine for a two-player naval combat game on a 10 x 10 board:
//! ship placement, shot resolution, win detection, and working out the
//! opponent's sunk ships from the hits recorded against them.

pub mod grid;
pub mod ships;
pub mod gameboard;
pub mod placement;
pub mod inference;
pub mod laws;
