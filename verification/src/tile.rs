use vstd::prelude::*;

verus! {

/// The immutable content of one board cell. A cell is a mine, or it carries
/// the number of mines among its up-to-eight surrounding cells (when that
/// number is at least one), or it is empty (no adjacent mines).
#[derive(Clone, Copy, Debug, PartialEq, Eq, Structural)]
pub enum Tile {
    Empty,
    Neighbor(u32),
    Mine,
}

/// A display-ready snapshot of one cell: whether it is currently visible,
/// and its tile content. Returned by queries; never stored.
#[derive(Clone, Copy, Debug, PartialEq, Eq, Structural)]
pub struct TileDisplay(pub bool, pub Tile);

/// The abstract display color of a cell. A front end maps these to its own
/// palette; the library only fixes which cells share a color.
#[derive(Clone, Copy, Debug, PartialEq, Eq, Structural)]
pub enum TileColor {
    Gray,
    White,
    Yellow,
    Red,
}

impl Tile {
    /// The tile-specific color used once a cell is visible.
    pub fn get_color(self) -> (c: TileColor)
        ensures
            c == (match self {
                Tile::Empty => TileColor::White,
                Tile::Neighbor(_) => TileColor::Yellow,
                Tile::Mine => TileColor::Red,
            }),
    {
        match self {
            Tile::Empty => TileColor::White,
            Tile::Neighbor(_) => TileColor::Yellow,
            Tile::Mine => TileColor::Red,
        }
    }
}

impl TileDisplay {
    /// The display rule: a hidden cell gets one uniform color regardless of
    /// its tile; a visible cell gets its tile's color.
    pub fn get_color(&self) -> (c: TileColor)
        ensures
            c == (if !self.0 {
                TileColor::Gray
            } else {
                match self.1 {
                    Tile::Empty => TileColor::White,
                    Tile::Neighbor(_) => TileColor::Yellow,
                    Tile::Mine => TileColor::Red,
                }
            }),
    {
        if !self.0 {
            TileColor::Gray
        } else {
            self.1.get_color()
        }
    }
}

} // verus!
