//! Core rules engine for a Minesweeper game: a rectangular grid of cells,
//! mine placement, adjacency counts, flood-fill reveal, flag toggling, and
//! win/loss detection. Presentation (rendering, input) lives outside this
//! crate and drives it through a small command API.
use vstd::prelude::*;

pub mod counting;
pub mod game;
pub mod neighbors;

pub use game::Game;

verus! {

/// What a cell holds once the board is generated: a mine, or the count of
/// mines among its up-to-eight neighbors.
#[derive(Clone, Copy, PartialEq, Eq, Structural, Debug)]
pub enum CellValue {
    Mined,
    Number(u8),
}

/// Visibility of a cell during play.
#[derive(Clone, Copy, PartialEq, Eq, Structural, Debug)]
pub enum CellStatus {
    Covered,
    Revealed,
    Flagged,
}

/// One grid position: an immutable value and a mutable status.
#[derive(Clone, Copy, PartialEq, Eq, Structural, Debug)]
pub struct Cell {
    pub status: CellStatus,
    pub value: CellValue,
}

/// Progress of a game; `Lost` and `Won` are terminal.
#[derive(Clone, Copy, PartialEq, Eq, Structural, Debug)]
pub enum GameStatus {
    Playing,
    Lost,
    Won,
}

} // verus!
