use vstd::prelude::*;

verus! {

/// Number of columns of the board.
pub const ARENA_WIDTH: u32 = 20;

/// Number of rows of the board.
pub const ARENA_HEIGHT: u32 = 20;

/// Number of cells of the board: ARENA_WIDTH * ARENA_HEIGHT.
pub const BOARD_SIZE: usize = 400;

} // verus!
