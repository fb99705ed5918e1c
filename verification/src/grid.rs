//! A two-dimensional container of cells, addressed by (row, column) and
//! stored row-major. Its size is fixed for the lifetime of one generation
//! run.

use vstd::pervasive::VecAdditionalExecFns;
use vstd::prelude::*;

use crate::tile::Cell;
use crate::tile::Tile;

verus! {

/// The grid: `cells[y * width + x]` is the cell at row `y`, column `x`.
pub struct Grid {
    pub width: usize,
    pub height: usize,
    pub cells: Vec<Cell>,
}

/// A row-major index stays inside the backing sequence.
pub proof fn lemma_row_major(y: int, x: int, width: int, height: int)
    requires
        0 <= y < height,
        0 <= x < width,
    ensures
        0 <= y * width + x < height * width,
{
    assert(0 <= y * width + x < height * width) by (nonlinear_arith)
        requires
            0 <= y < height,
            0 <= x < width,
    ;
}

/// Distinct positions have distinct row-major indices.
pub proof fn lemma_row_major_injective(y0: int, x0: int, y1: int, x1: int, width: int)
    requires
        0 <= x0 < width,
        0 <= x1 < width,
        0 <= y0,
        0 <= y1,
        y0 * width + x0 == y1 * width + x1,
    ensures
        y0 == y1 && x0 == x1,
{
    assert(y0 == y1 && x0 == x1) by (nonlinear_arith)
        requires
            0 <= x0 < width,
            0 <= x1 < width,
            0 <= y0,
            0 <= y1,
            y0 * width + x0 == y1 * width + x1,
    ;
}

impl Grid {
    /// The backing sequence holds exactly one cell per position.
    pub open spec fn wf(&self) -> bool {
        self.cells@.len() == (self.height as int) * (self.width as int)
    }

    /// Whether (y, x) addresses a cell of the grid.
    pub open spec fn in_bounds(&self, y: int, x: int) -> bool {
        0 <= y < self.height && 0 <= x < self.width
    }

    /// The cell at (y, x).
    pub open spec fn cell_at(&self, y: int, x: int) -> Cell {
        self.cells@[y * (self.width as int) + x]
    }

    /// A fresh grid of the given size, every cell undetermined and uncached.
    pub fn new(width: usize, height: usize) -> (r: Grid)
        requires
            width * height <= usize::MAX,
        ensures
            r.wf(),
            r.width == width,
            r.height == height,
            forall|y: int, x: int|
                r.in_bounds(y, x) ==> (#[trigger] r.cell_at(y, x)).tile is Empty && r.cell_at(
                    y,
                    x,
                ).spec_cache() is None,
    {
        proof {
            vstd::arithmetic::mul::lemma_mul_is_commutative(width as int, height as int);
        }
        let n = width * height;
        let mut cells: Vec<Cell> = Vec::new();
        let mut i: usize = 0;
        while i < n
            invariant
                i <= n,
                cells@.len() == i,
                forall|k: int|
                    0 <= k < i ==> (#[trigger] cells@[k]).tile is Empty && cells@[k].spec_cache()
                        is None,
            decreases n - i,
        {
            cells.push(Cell { tile: Tile::Empty, cache: Option::None });
            i = i + 1;
        }
        let r = Grid { width, height, cells };
        proof {
            assert forall|y: int, x: int| r.in_bounds(y, x) implies (#[trigger] r.cell_at(y, x)).tile
                is Empty && r.cell_at(y, x).spec_cache() is None by {
                lemma_row_major(y, x, width as int, height as int);
            }
        }
        r
    }

    /// The cell at (y, x), or nothing when the coordinates fall outside the
    /// grid. Coordinates are taken as they come: no wrap arithmetic here.
    pub fn get(&self, y: usize, x: usize) -> (r: Option<&Cell>)
        requires
            self.wf(),
        ensures
            self.in_bounds(y as int, x as int) ==> r == Option::Some(
                &self.cell_at(y as int, x as int),
            ),
            !self.in_bounds(y as int, x as int) ==> r is None,
    {
        if y < self.height && x < self.width {
            let _grid_len = self.cells.len();
            proof {
                lemma_row_major(y as int, x as int, self.width as int, self.height as int);
            }
            Option::Some(&self.cells[y * self.width + x])
        } else {
            Option::None
        }
    }

    /// The tile at an in-bounds position.
    pub fn tile(&self, y: usize, x: usize) -> (r: Tile)
        requires
            self.wf(),
            self.in_bounds(y as int, x as int),
        ensures
            r == self.cell_at(y as int, x as int).tile,
    {
        let _grid_len = self.cells.len();
        proof {
            lemma_row_major(y as int, x as int, self.width as int, self.height as int);
        }
        self.cells[y * self.width + x].tile
    }

    /// Whether the cell at an in-bounds position has a cached possibility
    /// list.
    pub fn has_cache(&self, y: usize, x: usize) -> (r: bool)
        requires
            self.wf(),
            self.in_bounds(y as int, x as int),
        ensures
            r == (self.cell_at(y as int, x as int).spec_cache() is Some),
    {
        let _grid_len = self.cells.len();
        proof {
            lemma_row_major(y as int, x as int, self.width as int, self.height as int);
        }
        self.cells[y * self.width + x].cache.is_some()
    }

    /// The length of the cached possibility list at an in-bounds position.
    pub fn cache_len(&self, y: usize, x: usize) -> (r: usize)
        requires
            self.wf(),
            self.in_bounds(y as int, x as int),
            self.cell_at(y as int, x as int).spec_cache() is Some,
        ensures
            r == self.cell_at(y as int, x as int).spec_cache()->0.len(),
    {
        let _grid_len = self.cells.len();
        proof {
            lemma_row_major(y as int, x as int, self.width as int, self.height as int);
        }
        match &self.cells[y * self.width + x].cache {
            Option::Some(entries) => entries.len(),
            Option::None => 0,
        }
    }

    /// One entry of the cached possibility list at an in-bounds position.
    pub fn cache_entry(&self, y: usize, x: usize, i: usize) -> (r: (u32, Tile))
        requires
            self.wf(),
            self.in_bounds(y as int, x as int),
            self.cell_at(y as int, x as int).spec_cache() is Some,
            i < self.cell_at(y as int, x as int).spec_cache()->0.len(),
        ensures
            r == self.cell_at(y as int, x as int).spec_cache()->0[i as int],
    {
        let _grid_len = self.cells.len();
        proof {
            lemma_row_major(y as int, x as int, self.width as int, self.height as int);
        }
        match &self.cells[y * self.width + x].cache {
            Option::Some(entries) => entries[i],
            Option::None => (0, Tile::Empty),
        }
    }

    /// Borrow the cached possibility list at an in-bounds position.
    pub fn cache_ref(&self, y: usize, x: usize) -> (r: &Vec<(u32, Tile)>)
        requires
            self.wf(),
            self.in_bounds(y as int, x as int),
            self.cell_at(y as int, x as int).spec_cache() is Some,
        ensures
            r@ == self.cell_at(y as int, x as int).spec_cache()->0,
    {
        let _grid_len = self.cells.len();
        proof {
            lemma_row_major(y as int, x as int, self.width as int, self.height as int);
        }
        match &self.cells[y * self.width + x].cache {
            Option::Some(entries) => entries,
            Option::None => vstd::pervasive::unreached(),
        }
    }

    /// Replace the whole cell at (y, x): the tile becomes `t` and the cache
    /// is dropped.
    pub fn set_cell(&mut self, y: usize, x: usize, t: Tile)
        requires
            old(self).wf(),
            old(self).in_bounds(y as int, x as int),
        ensures
            final(self).wf(),
            final(self).width == old(self).width,
            final(self).height == old(self).height,
            final(self).cells@ == old(self).cells@.update(
                (y as int) * (old(self).width as int) + (x as int),
                Cell { tile: t, cache: Option::None },
            ),
    {
        let _grid_len = self.cells.len();
        proof {
            lemma_row_major(y as int, x as int, self.width as int, self.height as int);
        }
        self.cells.set(y * self.width + x, Cell { tile: t, cache: Option::None });
    }

    /// Drop the cached possibility list at (y, x); the tile stays.
    pub fn clear_cache(&mut self, y: usize, x: usize)
        requires
            old(self).wf(),
            old(self).in_bounds(y as int, x as int),
        ensures
            final(self).wf(),
            final(self).width == old(self).width,
            final(self).height == old(self).height,
            final(self).cells@ == old(self).cells@.update(
                (y as int) * (old(self).width as int) + (x as int),
                Cell {
                    tile: old(self).cell_at(y as int, x as int).tile,
                    cache: Option::None,
                },
            ),
    {
        let _grid_len = self.cells.len();
        proof {
            lemma_row_major(y as int, x as int, self.width as int, self.height as int);
        }
        let t = self.cells[y * self.width + x].tile;
        self.cells.set(y * self.width + x, Cell { tile: t, cache: Option::None });
    }

    /// Install a freshly computed possibility list at (y, x); the tile stays.
    pub fn set_cache(&mut self, y: usize, x: usize, entries: Vec<(u32, Tile)>)
        requires
            old(self).wf(),
            old(self).in_bounds(y as int, x as int),
        ensures
            final(self).wf(),
            final(self).width == old(self).width,
            final(self).height == old(self).height,
            final(self).cells@ == old(self).cells@.update(
                (y as int) * (old(self).width as int) + (x as int),
                Cell {
                    tile: old(self).cell_at(y as int, x as int).tile,
                    cache: Option::Some(entries),
                },
            ),
    {
        let _grid_len = self.cells.len();
        proof {
            lemma_row_major(y as int, x as int, self.width as int, self.height as int);
        }
        let t = self.cells[y * self.width + x].tile;
        self.cells.set(y * self.width + x, Cell { tile: t, cache: Option::Some(entries) });
    }
}

} // verus!
