//! The rules of a tile-matching puzzle: board layout, match detection,
//! gravity and refill, cascades, scoring, moves and the bonus tile.
//!
//! The engine keeps no state between calls. Every operation takes the board
//! and the score, and hands back a [`GameState`]: the new board, the new
//! score, and the relocations for the caller to animate.
//!
//! New tiles come from a [`TileSource`]. Each operation that needs new tiles
//! exists twice: under its plain name it draws random tiles, and under the
//! name that ends in `_with_source` it draws from the source it is given,
//! which may follow a script.
//!
//! The contracts speak of a board through its `grid`, a sequence of rows, and
//! of an operation through the tiles that it has drawn: given those, they
//! fix the board, the score and the relocations that come back.

pub mod board;
pub mod cascade;
pub mod constants;
pub mod gravity;
pub mod grid;
pub mod logic;
pub mod matches;
pub mod tiles;
pub mod types;
pub mod utils;

pub use board::{generate_board, generate_board_with_source};
pub use cascade::{resolve_cascade, resolve_cascade_with_source};
pub use constants::{BONUS_TILE, HEIGHT, MAX_REDRAWS, TILE_TYPES, WIDTH};
pub use gravity::{drop_tiles_with_info, drop_tiles_with_source};
pub use logic::{
    activate_bonus_tile, activate_bonus_tile_with_source, move_tile, move_tile_with_source,
};
pub use matches::find_matches;
pub use tiles::TileSource;
pub use types::{Board, DropInfo, GameState};
pub use utils::are_adjacent;
