//! Board logic for a Minesweeper-style game: mined-grid generation,
//! per-tile neighbor counts, and step-wise flood-fill reveal of safe regions.

pub mod board;
pub mod grid;
pub mod tile;
