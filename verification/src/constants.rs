use vstd::prelude::*;

verus! {

/// Number of columns of the board.
pub const WIDTH: usize = 9;

/// Number of rows of the board.
pub const HEIGHT: usize = 9;

/// Number of distinct ordinary tile colours; their codes are `1..=TILE_TYPES`.
pub const TILE_TYPES: usize = 5;

/// Code of the bonus tile.
pub const BONUS_TILE: u8 = 100;

/// How often a tile is drawn again for one cell of a fresh board before the
/// cell is filled with the lowest colour that completes no run.
pub const MAX_REDRAWS: usize = 64;

} // verus!
