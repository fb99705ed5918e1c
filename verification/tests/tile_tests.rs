use wavefront_collapse::Cell;
use wavefront_collapse::Tile;
use wavefront_collapse::WavefrontCollapse;

#[test]
fn default_tile_is_empty() {
    assert_eq!(Tile::default(), Tile::Empty);
}

#[test]
fn cell_from_tile_starts_uncached() {
    let cell = Cell::from(Tile::Numbered(3));
    assert_eq!(cell.tile, Tile::Numbered(3));
    assert!(cell.cache.is_none());
}

#[test]
fn default_cell_is_empty_and_uncached() {
    let cell = Cell::default();
    assert_eq!(cell.tile, Tile::Empty);
    assert!(cell.cache.is_none());
}

#[test]
fn default_engine_owns_a_single_empty_cell() {
    let engine = WavefrontCollapse::default();
    let grid = engine.grid();
    assert_eq!(grid.width, 1);
    assert_eq!(grid.height, 1);
    assert_eq!(grid.get(0, 0).expect("one cell").tile, Tile::Empty);
    assert!(grid.get(0, 1).is_none());
    assert!(grid.get(1, 0).is_none());
}
