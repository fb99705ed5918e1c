//! Tiles, cells and adjacency rules: the data the engine works on.

use vstd::prelude::*;

verus! {

/// A value placed in a grid cell. `Empty` marks an undetermined cell (the
/// only mutable placeholder state). The three `Outside*` variants are
/// synthetic border markers: they are never stored in the grid, only
/// synthesized when a neighbor lookup falls outside it. `Numbered(n)` is an
/// arbitrary caller-defined tile identity; the engine treats it as an opaque
/// symbol.
#[derive(PartialEq, Eq, Structural, Clone, Copy, Debug, Hash)]
pub enum Tile {
    Empty,
    OutsideBegin,
    OutsideFill,
    OutsideEnd,
    Numbered(usize),
}

impl Default for Tile {
    /// A fresh cell is undetermined.
    fn default() -> (r: Self)
        ensures
            r == Tile::Empty,
    {
        Tile::Empty
    }
}

/// One tile's legality: `tile` is the value this rule licenses, `weight`
/// biases the random draw toward it (a weight of zero is legal but never
/// preferentially chosen), and the four acceptance lists say which neighbor
/// tiles are compatible in each direction. A rule matches a position iff
/// every direction's resolved neighbor tile is a member of that direction's
/// acceptance list.
#[derive(Debug)]
pub struct CollapseRule {
    pub weight: u32,
    pub tile: Tile,
    pub right: Vec<Tile>,
    pub bottom: Vec<Tile>,
    pub left: Vec<Tile>,
    pub top: Vec<Tile>,
}

/// The grid's storage unit: the current tile plus an optional cached
/// possibility list. `None` means "must recompute"; `Some` of an empty list
/// means "previously computed and found unsolvable" (a contradiction). Each
/// cached entry pairs a squared rule weight with the tile it licenses.
pub struct Cell {
    pub tile: Tile,
    pub cache: Option<Vec<(u32, Tile)>>,
}

impl Cell {
    /// The cached possibility list, as mathematical data.
    pub open spec fn spec_cache(&self) -> Option<Seq<(u32, Tile)>> {
        match self.cache {
            Option::None => Option::None,
            Option::Some(v) => Option::Some(v@),
        }
    }
}

impl Default for Cell {
    /// A fresh cell: undetermined, nothing cached.
    fn default() -> (r: Self)
        ensures
            r.tile == Tile::Empty,
            r.spec_cache() is None,
    {
        Cell { tile: Tile::Empty, cache: Option::None }
    }
}

impl From<Tile> for Cell {
    /// A cell holding `tile`, with nothing cached.
    fn from(tile: Tile) -> (r: Self)
        ensures
            r.tile == tile,
            r.spec_cache() is None,
    {
        Cell { tile, cache: Option::None }
    }
}

impl vstd::std_specs::convert::FromSpecImpl<Tile> for Cell {
    open spec fn obeys_from_spec() -> bool {
        true
    }

    open spec fn from_spec(tile: Tile) -> Cell {
        Cell { tile, cache: Option::None }
    }
}

} // verus!
