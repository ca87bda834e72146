//! Fixed dimensions of the playing field.

use vstd::prelude::*;

verus! {

/// Number of columns of the grid.
pub const GRID_WIDTH: u32 = 20;

/// Number of rows of the grid.
pub const GRID_HEIGHT: u32 = 12;

/// Number of cells of the grid.
pub const GRID_CELLS: u32 = GRID_WIDTH * GRID_HEIGHT;

/// Number of cells the snake occupies at the start of a round.
pub const START_SIZE: u32 = 5;

} // verus!
