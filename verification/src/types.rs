use vstd::prelude::*;
use crate::constants::{WIDTH, HEIGHT};

verus! {

/// The playing field: `HEIGHT` rows of `WIDTH` tile codes, indexed `board[y][x]`.
pub type Board = [[u8; WIDTH]; HEIGHT];

/// One tile's relocation while the board settles.
#[derive(Clone, Copy, Debug, PartialEq, Eq)]
pub struct DropInfo {
    pub from_x: usize,
    pub from_y: usize,
    pub to_x: usize,
    pub to_y: usize,
    pub value: u8,
}

/// What an operation hands back: the board, the score and the relocations
/// that led to that board, in the order in which they happened.
#[derive(Clone, Debug)]
pub struct GameState {
    pub board: Board,
    pub score: u32,
    pub drops: Vec<DropInfo>,
}

} // verus!
