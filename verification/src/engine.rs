//! The collapse engine: it owns a rule set, a grid of cells and a wrap-mode
//! flag, and fills the grid so that every committed tile was licensed by a
//! rule against the cell's four resolved neighbors at the moment it was
//! committed.

use vstd::prelude::*;

use crate::grid::lemma_row_major_injective;
use crate::grid::Grid;
use crate::model::count_empty;
use crate::model::lemma_count_empty_bounds;
use crate::model::lemma_count_empty_update;
use crate::model::lemma_possibilities_sum;
use crate::model::lemma_possibility_entry;
use crate::model::lemma_seeded_tile_kind;
use crate::model::lemma_seeded_tile_source;
use crate::model::reachable_tile;
use crate::model::rules_total_for;
use crate::model::lemma_sum_entry_weights_take;
use crate::model::possibilities_of;
use crate::model::rule_matches;
use crate::model::rules_wf;
use crate::model::seeded_tile;
use crate::model::sum_entry_weights;
use crate::rng::rand_index;
use crate::rng::rand_weighted;
use crate::tile::Cell;
use crate::tile::CollapseRule;
use crate::tile::Tile;

verus! {

/// Column arithmetic with optional horizontal wrap: one step past either
/// edge comes back in on the other side; every other column is left as it
/// is. Row indices never wrap.
pub open spec fn wrapped_col(width: int, wrap: bool, x: int) -> int {
    if wrap {
        if x == usize::MAX {
            width - 1
        } else if x == width {
            0
        } else {
            x
        }
    } else {
        x
    }
}

/// One step down in a coordinate, in the grid's own wrapping arithmetic: a
/// step below zero lands on `usize::MAX`.
pub open spec fn dec_coord(v: int) -> int {
    if v == 0 {
        usize::MAX as int
    } else {
        v - 1
    }
}

/// The synthetic tile an out-of-range lookup yields. An out-of-range column
/// is classified by the row's position (begin, end, middle); an out-of-range
/// row is classified by the column's position analogously.
pub open spec fn border_tile(width: int, height: int, y: int, x: int) -> Tile {
    if !(0 <= x < width) {
        if y == 0 {
            Tile::OutsideBegin
        } else if y + 1 == height {
            Tile::OutsideEnd
        } else {
            Tile::OutsideFill
        }
    } else {
        if x == 0 {
            Tile::OutsideBegin
        } else if x + 1 == width {
            Tile::OutsideEnd
        } else {
            Tile::OutsideFill
        }
    }
}

/// Whether (py, px) belongs to the reset set of a contradiction at
/// (cy, cx): the contradiction cell itself or one of its four raw grid
/// neighbors (reset selection never wraps; only positions that exist in the
/// grid are ever scheduled).
pub open spec fn is_reset_member(cy: int, cx: int, py: int, px: int) -> bool {
    ||| (py == cy && px == cx)
    ||| (py == cy && px == cx + 1)
    ||| (py == cy + 1 && px == cx)
    ||| (py == cy && px == dec_coord(cx))
    ||| (py == dec_coord(cy) && px == cx)
}

/// The engine. The caller installs the rules and the wrap flag, then calls
/// `generate_map`; afterwards it reads the final grid through `grid`.
pub struct WavefrontCollapse {
    pub rules: Vec<CollapseRule>,
    pub grid: Grid,
    pub wrap: bool,
}

impl WavefrontCollapse {
    /// A well-formed engine: the grid's backing store matches its size, the
    /// grid is non-degenerate (wrap arithmetic and index arithmetic need a
    /// first and a last column that fit in `usize`), and the rules are
    /// well-formed.
    pub open spec fn wf(&self) -> bool {
        &&& self.grid.wf()
        &&& 1 <= self.grid.width < usize::MAX
        &&& 1 <= self.grid.height
        &&& rules_wf(self.rules@)
    }

    /// What a lookup at (y, x) resolves to: the stored tile after wrap
    /// arithmetic when the position lands inside the grid, a synthetic
    /// border tile otherwise.
    pub open spec fn resolved_tile(&self, y: int, x: int) -> Tile {
        let xx = wrapped_col(self.grid.width as int, self.wrap, x);
        if self.grid.in_bounds(y, xx) {
            self.grid.cell_at(y, xx).tile
        } else {
            border_tile(self.grid.width as int, self.grid.height as int, y, xx)
        }
    }

    /// The possibility list the rule set yields at (y, x) against the four
    /// resolved neighbor tiles (right, bottom, left, top).
    pub open spec fn neighbor_entries(&self, y: int, x: int) -> Seq<(u32, Tile)> {
        possibilities_of(
            self.rules@,
            self.resolved_tile(y, x + 1),
            self.resolved_tile(y + 1, x),
            self.resolved_tile(y, dec_coord(x)),
            self.resolved_tile(dec_coord(y), x),
        )
    }

    /// The cache at (y, x), when present, holds exactly the possibility list
    /// of the current neighbors.
    pub open spec fn cache_ok(&self, y: int, x: int) -> bool {
        self.grid.cell_at(y, x).spec_cache() matches Option::Some(entries) ==> entries
            == self.neighbor_entries(y, x)
    }

    /// Every present cache in the grid is consistent with the current tiles
    /// of its four resolved neighbors.
    pub open spec fn caches_consistent(&self) -> bool {
        forall|y: int, x: int| self.grid.in_bounds(y, x) ==> #[trigger] self.cache_ok(y, x)
    }

    /// Tile `t` is licensed at (y, x): some rule carries `t` and accepts all
    /// four resolved neighbor tiles.
    pub open spec fn candidate_ok(&self, y: int, x: int, t: Tile) -> bool {
        exists|i: int|
            0 <= i < self.rules@.len() && rule_matches(
                #[trigger] self.rules@[i],
                self.resolved_tile(y, x + 1),
                self.resolved_tile(y + 1, x),
                self.resolved_tile(y, dec_coord(x)),
                self.resolved_tile(dec_coord(y), x),
            ) && self.rules@[i].tile == t
    }

    /// Whether (py, px) is one of the four positions whose cached list reads
    /// the tile at (y, x): exactly these are invalidated when (y, x) changes.
    pub open spec fn is_commit_neighbor(&self, y: int, x: int, py: int, px: int) -> bool {
        let w = self.grid.width as int;
        ||| (py == y && px == wrapped_col(w, self.wrap, x + 1))
        ||| (py == y + 1 && px == x)
        ||| (py == y && px == wrapped_col(w, self.wrap, dec_coord(x)))
        ||| (py == dec_coord(y) && px == x)
    }

    /// A fresh engine: no rules, a one-cell grid, the given wrap mode.
    pub fn new(wrap: bool) -> (r: Self)
        ensures
            r.wf(),
            r.rules@.len() == 0,
            r.grid.width == 1,
            r.grid.height == 1,
            r.wrap == wrap,
            r.caches_consistent(),
            forall|py: int, px: int|
                r.grid.in_bounds(py, px) ==> (#[trigger] r.grid.cell_at(py, px)).tile is Empty
                    && r.grid.cell_at(py, px).spec_cache() is None,
    {
        let r = WavefrontCollapse { rules: Vec::new(), grid: Grid::new(1, 1), wrap };
        proof {
            assert forall|y: int, x: int| r.grid.in_bounds(y, x) implies #[trigger] r.cache_ok(
                y,
                x,
            ) by {}
        }
        r
    }

    /// Install the full ordered rule sequence; it is immutable for a run.
    pub fn set_rules(&mut self, rules: Vec<CollapseRule>)
        requires
            rules_wf(rules@),
        ensures
            final(self).rules == rules,
            final(self).grid == old(self).grid,
            final(self).wrap == old(self).wrap,
    {
        self.rules = rules;
    }

    /// Read access to the grid after a run.
    pub fn grid(&self) -> (r: &Grid)
        ensures
            r == &self.grid,
    {
        &self.grid
    }

    /// The column a lookup at `x` lands on, after wrap arithmetic.
    fn resolve_col(&self, x: usize) -> (r: usize)
        requires
            self.wf(),
        ensures
            r as int == wrapped_col(self.grid.width as int, self.wrap, x as int),
    {
        if self.wrap {
            if x == usize::MAX {
                self.grid.width - 1
            } else if x == self.grid.width {
                0
            } else {
                x
            }
        } else {
            x
        }
    }

    /// Neighbor resolution: map any (row, column), including out-of-bounds
    /// coordinates, to a concrete tile. Pure: it never mutates the grid.
    pub fn get_cell(&self, y: usize, x: usize) -> (r: Tile)
        requires
            self.wf(),
        ensures
            r == self.resolved_tile(y as int, x as int),
    {
        let x = self.resolve_col(x);
        match self.grid.get(y, x) {
            Option::Some(cell) => cell.tile,
            Option::None => {
                if x >= self.grid.width {
                    if y == 0 {
                        Tile::OutsideBegin
                    } else if y == self.grid.height - 1 {
                        Tile::OutsideEnd
                    } else {
                        Tile::OutsideFill
                    }
                } else {
                    if x == 0 {
                        Tile::OutsideBegin
                    } else if x == self.grid.width - 1 {
                        Tile::OutsideEnd
                    } else {
                        Tile::OutsideFill
                    }
                }
            },
        }
    }
}

/// Whether a tile occurs in an acceptance list.
fn contains_tile(tiles: &Vec<Tile>, t: Tile) -> (r: bool)
    ensures
        r == tiles@.contains(t),
{
    let mut i: usize = 0;
    while i < tiles.len()
        invariant
            i <= tiles@.len(),
            forall|k: int| 0 <= k < i ==> tiles@[k] != t,
        decreases tiles@.len() - i,
    {
        if tiles[i] == t {
            return true;
        }
        i = i + 1;
    }
    false
}

/// A licensed candidate stays licensed in a state that resolves every lookup
/// alike and holds the same rules.
proof fn lemma_candidate_same(a: WavefrontCollapse, b: WavefrontCollapse, y: int, x: int, t: Tile)
    requires
        a.rules == b.rules,
        forall|py: int, px: int| #[trigger] b.resolved_tile(py, px) == a.resolved_tile(py, px),
        a.candidate_ok(y, x, t),
    ensures
        b.candidate_ok(y, x, t),
{
    let i = choose|i: int|
        0 <= i < a.rules@.len() && rule_matches(
            #[trigger] a.rules@[i],
            a.resolved_tile(y, x + 1),
            a.resolved_tile(y + 1, x),
            a.resolved_tile(y, dec_coord(x)),
            a.resolved_tile(dec_coord(y), x),
        ) && a.rules@[i].tile == t;
    assert(rule_matches(
        b.rules@[i],
        b.resolved_tile(y, x + 1),
        b.resolved_tile(y + 1, x),
        b.resolved_tile(y, dec_coord(x)),
        b.resolved_tile(dec_coord(y), x),
    ) && b.rules@[i].tile == t);
}

/// In a grid whose non-empty tiles are all seeded or licensed, every lookup
/// resolves to a reachable tile.
proof fn lemma_resolved_reachable(
    s: WavefrontCollapse,
    seed: Seq<(usize, usize, Tile)>,
    a: int,
    b: int,
)
    requires
        forall|py: int, px: int|
            s.grid.in_bounds(py, px) && !((#[trigger] s.grid.cell_at(py, px)).tile is Empty)
                ==> s.grid.cell_at(py, px).tile == seeded_tile(seed, py, px) || (exists|i: int|
                0 <= i < s.rules@.len() && (#[trigger] s.rules@[i]).tile == s.grid.cell_at(
                    py,
                    px,
                ).tile),
    ensures
        reachable_tile(s.rules@, seed, s.resolved_tile(a, b)),
{
    let xx = wrapped_col(s.grid.width as int, s.wrap, b);
    if s.grid.in_bounds(a, xx) {
        let t = s.grid.cell_at(a, xx).tile;
        if !(t is Empty) && t == seeded_tile(seed, a, xx) {
            lemma_seeded_tile_source(seed, a, xx);
        }
    }
}

/// Two engine states with equal sizes, wrap mode and in-bounds tiles resolve
/// every lookup alike.
pub proof fn lemma_resolved_same(a: WavefrontCollapse, b: WavefrontCollapse)
    requires
        a.grid.width == b.grid.width,
        a.grid.height == b.grid.height,
        a.wrap == b.wrap,
        forall|py: int, px: int|
            a.grid.in_bounds(py, px) ==> (#[trigger] b.grid.cell_at(py, px)).tile
                == a.grid.cell_at(py, px).tile,
    ensures
        forall|py: int, px: int| #[trigger] b.resolved_tile(py, px) == a.resolved_tile(py, px),
{
    assert forall|py: int, px: int| #[trigger] b.resolved_tile(py, px) == a.resolved_tile(
        py,
        px,
    ) by {
        let xx = wrapped_col(a.grid.width as int, a.wrap, px);
        if a.grid.in_bounds(py, xx) {
            assert(b.grid.cell_at(py, xx).tile == a.grid.cell_at(py, xx).tile);
        }
    }
}

/// After a commit at (y, x), a cell that is neither the committed cell nor
/// one of its commit neighbors reads the same four tiles as before.
proof fn lemma_read_unchanged(
    pre: WavefrontCollapse,
    post: WavefrontCollapse,
    y: int,
    x: int,
    py: int,
    px: int,
    ry: int,
    rx: int,
)
    requires
        pre.wf(),
        post.grid.width == pre.grid.width,
        post.grid.height == pre.grid.height,
        post.wrap == pre.wrap,
        forall|qy: int, qx: int|
            pre.grid.in_bounds(qy, qx) && !(qy == y && qx == x) ==> (#[trigger] post.grid.cell_at(
                qy,
                qx,
            )).tile == pre.grid.cell_at(qy, qx).tile,
        pre.grid.in_bounds(y, x),
        pre.grid.in_bounds(py, px),
        !pre.is_commit_neighbor(y, x, py, px),
        (ry == py && rx == px + 1) || (ry == py + 1 && rx == px) || (ry == py && rx == dec_coord(
            px,
        )) || (ry == dec_coord(py) && rx == px),
    ensures
        post.resolved_tile(ry, rx) == pre.resolved_tile(ry, rx),
{
    let w = pre.grid.width as int;
    let xx = wrapped_col(w, pre.wrap, rx);
    if pre.grid.in_bounds(ry, xx) {
        if ry == y && xx == x {
            if ry == py && rx == px + 1 {
                assert(px == wrapped_col(w, pre.wrap, dec_coord(x)));
                assert(pre.is_commit_neighbor(y, x, py, px));
            } else if ry == py + 1 && rx == px {
                assert(py == dec_coord(y));
                assert(pre.is_commit_neighbor(y, x, py, px));
            } else if ry == py && rx == dec_coord(px) {
                assert(px == wrapped_col(w, pre.wrap, x + 1));
                assert(pre.is_commit_neighbor(y, x, py, px));
            } else {
                assert(py == y + 1);
                assert(pre.is_commit_neighbor(y, x, py, px));
            }
            assert(false);
        }
        assert(post.grid.cell_at(ry, xx).tile == pre.grid.cell_at(ry, xx).tile);
    }
}

/// After a commit at (y, x) whose own cache is dropped and whose commit
/// neighbors' caches are dropped, every surviving cache is still consistent.
proof fn lemma_commit_keeps_caches(pre: WavefrontCollapse, post: WavefrontCollapse, y: int, x: int)
    requires
        pre.wf(),
        post.grid.width == pre.grid.width,
        post.grid.height == pre.grid.height,
        post.wrap == pre.wrap,
        post.rules == pre.rules,
        pre.caches_consistent(),
        pre.grid.in_bounds(y, x),
        forall|qy: int, qx: int|
            pre.grid.in_bounds(qy, qx) && !(qy == y && qx == x) ==> (#[trigger] post.grid.cell_at(
                qy,
                qx,
            )).tile == pre.grid.cell_at(qy, qx).tile,
        post.grid.cell_at(y, x).spec_cache() is None,
        forall|qy: int, qx: int|
            pre.grid.in_bounds(qy, qx) && pre.is_commit_neighbor(y, x, qy, qx) ==> (
            #[trigger] post.grid.cell_at(qy, qx)).spec_cache() is None,
        forall|qy: int, qx: int|
            pre.grid.in_bounds(qy, qx) && !pre.is_commit_neighbor(y, x, qy, qx) && !(qy == y && qx
                == x) ==> (#[trigger] post.grid.cell_at(qy, qx)).spec_cache()
                == pre.grid.cell_at(qy, qx).spec_cache(),
    ensures
        post.caches_consistent(),
{
    assert forall|py: int, px: int| post.grid.in_bounds(py, px) implies #[trigger] post.cache_ok(
        py,
        px,
    ) by {
        if post.grid.cell_at(py, px).spec_cache() is Some {
            assert(!(py == y && px == x));
            assert(!pre.is_commit_neighbor(y, x, py, px));
            assert(post.grid.cell_at(py, px).spec_cache() == pre.grid.cell_at(
                py,
                px,
            ).spec_cache());
            assert(pre.cache_ok(py, px));
            lemma_read_unchanged(pre, post, y, x, py, px, py, px + 1);
            lemma_read_unchanged(pre, post, y, x, py, px, py + 1, px);
            lemma_read_unchanged(pre, post, y, x, py, px, py, dec_coord(px));
            lemma_read_unchanged(pre, post, y, x, py, px, dec_coord(py), px);
            assert(post.neighbor_entries(py, px) == pre.neighbor_entries(py, px));
        }
    }
}

impl WavefrontCollapse {
    /// Drop the cache at (y, x) when that position exists; out-of-range
    /// positions are left alone.
    fn clear_cache_if_inside(&mut self, y: usize, x: usize)
        requires
            old(self).wf(),
        ensures
            final(self).wf(),
            final(self).grid.width == old(self).grid.width,
            final(self).grid.height == old(self).grid.height,
            final(self).wrap == old(self).wrap,
            final(self).rules == old(self).rules,
            count_empty(final(self).grid.cells@) == count_empty(old(self).grid.cells@),
            forall|py: int, px: int|
                old(self).grid.in_bounds(py, px) && !(py == y as int && px == x as int) ==> (
                #[trigger] final(self).grid.cell_at(py, px)) == old(self).grid.cell_at(py, px),
            old(self).grid.in_bounds(y as int, x as int) ==> final(self).grid.cell_at(
                y as int,
                x as int,
            ) == (Cell {
                tile: old(self).grid.cell_at(y as int, x as int).tile,
                cache: Option::<Vec<(u32, Tile)>>::None,
            }),
            !old(self).grid.in_bounds(y as int, x as int) ==> *final(self) == *old(self),
    {
        if y < self.grid.height && x < self.grid.width {
            let ghost pre = *self;
            self.grid.clear_cache(y, x);
            proof {
                let w = pre.grid.width as int;
                let h = pre.grid.height as int;
                crate::grid::lemma_row_major(y as int, x as int, w, h);
                lemma_count_empty_update(
                    pre.grid.cells@,
                    (y as int) * w + (x as int),
                    Cell { tile: pre.grid.cell_at(y as int, x as int).tile, cache: Option::None },
                );
                assert forall|py: int, px: int|
                    pre.grid.in_bounds(py, px) && !(py == y as int && px == x as int) implies (
                #[trigger] self.grid.cell_at(py, px)) == pre.grid.cell_at(py, px) by {
                    crate::grid::lemma_row_major(py, px, w, h);
                    if py * w + px == (y as int) * w + (x as int) {
                        lemma_row_major_injective(py, px, y as int, x as int, w);
                    }
                }
            }
        }
    }

    /// After a commit at (x, y), drop the caches of the four positions whose
    /// possibility lists read that cell: their lists are now stale. Wrap mode
    /// carries the invalidation across the seam, exactly as lookups wrap.
    fn invalidate_neighbours_cache(&mut self, x: usize, y: usize)
        requires
            old(self).wf(),
            old(self).grid.in_bounds(y as int, x as int),
        ensures
            final(self).wf(),
            final(self).grid.width == old(self).grid.width,
            final(self).grid.height == old(self).grid.height,
            final(self).wrap == old(self).wrap,
            final(self).rules == old(self).rules,
            count_empty(final(self).grid.cells@) == count_empty(old(self).grid.cells@),
            forall|py: int, px: int|
                old(self).grid.in_bounds(py, px) ==> (#[trigger] final(self).grid.cell_at(
                    py,
                    px,
                )).tile == old(self).grid.cell_at(py, px).tile,
            forall|py: int, px: int|
                old(self).grid.in_bounds(py, px) && old(self).is_commit_neighbor(
                    y as int,
                    x as int,
                    py,
                    px,
                ) ==> (#[trigger] final(self).grid.cell_at(py, px)).spec_cache() is None,
            forall|py: int, px: int|
                old(self).grid.in_bounds(py, px) && !old(self).is_commit_neighbor(
                    y as int,
                    x as int,
                    py,
                    px,
                ) ==> (#[trigger] final(self).grid.cell_at(py, px)) == old(self).grid.cell_at(
                    py,
                    px,
                ),
    {
        let xr = self.resolve_col(x + 1);
        let xl = self.resolve_col(if x == 0 {
            usize::MAX
        } else {
            x - 1
        });
        let yd = y + 1;
        let yu = if y == 0 {
            usize::MAX
        } else {
            y - 1
        };
        self.clear_cache_if_inside(y, xr);
        self.clear_cache_if_inside(yd, x);
        self.clear_cache_if_inside(y, xl);
        self.clear_cache_if_inside(yu, x);
    }

    /// Run one full generation: allocate a fresh grid of the given size,
    /// apply the seed list (all other cells start undetermined; a later seed
    /// entry for the same position wins), then repeatedly scan and commit
    /// until no undetermined cell has options left. Contradictions are
    /// repaired by resetting their region until the backtrack budget is
    /// spent; after that they are frozen, which bounds the retries. A rule
    /// set that licenses a tile against every reachable neighbor combination
    /// never needs a reset. Returns the number of backtracks performed, for
    /// diagnostics.
    pub fn generate_map(
        &mut self,
        width: usize,
        height: usize,
        seed: &Vec<(usize, usize, Tile)>,
        random_numbers: &mut rand::rngs::StdRng,
    ) -> (backtracks: usize)
        requires
            rules_wf(old(self).rules@),
            1 <= width < usize::MAX,
            1 <= height,
            width * height <= usize::MAX,
            forall|k: int|
                0 <= k < seed@.len() ==> (#[trigger] seed@[k]).0 < height && seed@[k].1 < width && (
                seed@[k].2 is Empty || seed@[k].2 is Numbered),
        ensures
            final(self).wf(),
            final(self).rules == old(self).rules,
            final(self).wrap == old(self).wrap,
            final(self).grid.width == width,
            final(self).grid.height == height,
            final(self).caches_consistent(),
            backtracks <= 129,
            forall|py: int, px: int|
                final(self).grid.in_bounds(py, px) ==> ((#[trigger] final(self).grid.cell_at(
                    py,
                    px,
                )).tile is Empty || final(self).grid.cell_at(py, px).tile is Numbered),
            forall|py: int, px: int|
                final(self).grid.in_bounds(py, px) && !((#[trigger] final(self).grid.cell_at(
                    py,
                    px,
                )).tile is Empty) ==> final(self).grid.cell_at(py, px).tile == seeded_tile(
                    seed@,
                    py,
                    px,
                ) || (exists|i: int|
                    0 <= i < final(self).rules@.len() && (#[trigger] final(self).rules@[i]).tile
                        == final(self).grid.cell_at(py, px).tile),
            backtracks == 0 ==> forall|py: int, px: int|
                final(self).grid.in_bounds(py, px) && !(seeded_tile(seed@, py, px) is Empty) ==> (
                #[trigger] final(self).grid.cell_at(py, px)).tile == seeded_tile(seed@, py, px),
            forall|py: int, px: int|
                final(self).grid.in_bounds(py, px) && (#[trigger] final(self).grid.cell_at(
                    py,
                    px,
                )).tile is Empty ==> final(self).neighbor_entries(py, px).len() == 0,
            rules_total_for(old(self).rules@, seed@) ==> backtracks == 0,
    {
        self.grid = Grid::new(width, height);
        let mut s: usize = 0;
        while s < seed.len()
            invariant
                s <= seed@.len(),
                self.wf(),
                self.grid.width == width,
                self.grid.height == height,
                self.wrap == old(self).wrap,
                self.rules == old(self).rules,
                forall|k: int|
                    0 <= k < seed@.len() ==> (#[trigger] seed@[k]).0 < height && seed@[k].1 < width
                        && (seed@[k].2 is Empty || seed@[k].2 is Numbered),
                forall|py: int, px: int|
                    self.grid.in_bounds(py, px) ==> (#[trigger] self.grid.cell_at(py, px)).tile
                        == seeded_tile(seed@.take(s as int), py, px) && self.grid.cell_at(
                        py,
                        px,
                    ).spec_cache() is None,
            decreases seed@.len() - s,
        {
            let (sy, sx, st) = seed[s];
            let ghost pre = *self;
            self.grid.set_cell(sy, sx, st);
            proof {
                let w = width as int;
                let h = height as int;
                crate::grid::lemma_row_major(sy as int, sx as int, w, h);
                assert(seed@.take(s as int + 1).drop_last() =~= seed@.take(s as int));
                assert(seed@.take(s as int + 1).last() == seed@[s as int]);
                assert forall|py: int, px: int| self.grid.in_bounds(py, px) implies (
                #[trigger] self.grid.cell_at(py, px)).tile == seeded_tile(
                    seed@.take(s as int + 1),
                    py,
                    px,
                ) && self.grid.cell_at(py, px).spec_cache() is None by {
                    crate::grid::lemma_row_major(py, px, w, h);
                    assert(pre.grid.cell_at(py, px).tile == seeded_tile(
                        seed@.take(s as int),
                        py,
                        px,
                    ));
                    assert(pre.grid.cell_at(py, px).spec_cache() is None);
                    if py * w + px == (sy as int) * w + (sx as int) {
                        lemma_row_major_injective(py, px, sy as int, sx as int, w);
                        assert(py == sy as int && px == sx as int);
                    } else {
                        assert(self.grid.cell_at(py, px) == pre.grid.cell_at(py, px));
                    }
                }
            }
            s = s + 1;
        }
        proof {
            assert(seed@.take(seed@.len() as int) =~= seed@);
            assert forall|py: int, px: int| self.grid.in_bounds(py, px) implies
                #[trigger] self.cache_ok(py, px) by {}
            assert forall|py: int, px: int| self.grid.in_bounds(py, px) implies ((
            #[trigger] self.grid.cell_at(py, px)).tile is Empty || self.grid.cell_at(py, px).tile
                is Numbered) by {
                lemma_seeded_tile_kind(seed@, py, px);
            }
        }
        let mut backtracks: usize = 0;
        loop
            invariant
                self.wf(),
                self.caches_consistent(),
                self.grid.width == width,
                self.grid.height == height,
                self.wrap == old(self).wrap,
                self.rules == old(self).rules,
                backtracks <= 129,
                forall|py: int, px: int|
                    self.grid.in_bounds(py, px) ==> ((#[trigger] self.grid.cell_at(py, px)).tile
                        is Empty || self.grid.cell_at(py, px).tile is Numbered),
                forall|py: int, px: int|
                    self.grid.in_bounds(py, px) && !((#[trigger] self.grid.cell_at(py, px)).tile
                        is Empty) ==> self.grid.cell_at(py, px).tile == seeded_tile(seed@, py, px)
                        || (exists|i: int|
                        0 <= i < self.rules@.len() && (#[trigger] self.rules@[i]).tile
                            == self.grid.cell_at(py, px).tile),
                backtracks == 0 ==> forall|py: int, px: int|
                    self.grid.in_bounds(py, px) && !(seeded_tile(seed@, py, px) is Empty) ==> (
                    #[trigger] self.grid.cell_at(py, px)).tile == seeded_tile(seed@, py, px),
                rules_total_for(old(self).rules@, seed@) ==> backtracks == 0,
            ensures
                self.wf(),
                self.caches_consistent(),
                self.grid.width == width,
                self.grid.height == height,
                self.wrap == old(self).wrap,
                self.rules == old(self).rules,
                backtracks <= 129,
                forall|py: int, px: int|
                    self.grid.in_bounds(py, px) ==> ((#[trigger] self.grid.cell_at(py, px)).tile
                        is Empty || self.grid.cell_at(py, px).tile is Numbered),
                forall|py: int, px: int|
                    self.grid.in_bounds(py, px) && !((#[trigger] self.grid.cell_at(py, px)).tile
                        is Empty) ==> self.grid.cell_at(py, px).tile == seeded_tile(seed@, py, px)
                        || (exists|i: int|
                        0 <= i < self.rules@.len() && (#[trigger] self.rules@[i]).tile
                            == self.grid.cell_at(py, px).tile),
                backtracks == 0 ==> forall|py: int, px: int|
                    self.grid.in_bounds(py, px) && !(seeded_tile(seed@, py, px) is Empty) ==> (
                    #[trigger] self.grid.cell_at(py, px)).tile == seeded_tile(seed@, py, px),
                forall|py: int, px: int|
                    self.grid.in_bounds(py, px) && (#[trigger] self.grid.cell_at(py, px)).tile
                        is Empty ==> self.neighbor_entries(py, px).len() == 0,
                rules_total_for(old(self).rules@, seed@) ==> backtracks == 0,
            decreases 130 - backtracks, count_empty(self.grid.cells@),
        {
            let ghost before = *self;
            let step = self.collapse_step(backtracks > 128, random_numbers);
            let entropy = step.0;
            let tiles = step.1;
            proof {
                lemma_count_empty_bounds(self.grid.cells@);
                assert forall|py: int, px: int|
                    self.grid.in_bounds(py, px) implies ((#[trigger] self.grid.cell_at(
                    py,
                    px,
                )).tile is Empty || self.grid.cell_at(py, px).tile is Numbered) by {
                    assert(self.grid.cell_at(py, px).tile == before.grid.cell_at(py, px).tile);
                }
                assert forall|py: int, px: int|
                    self.grid.in_bounds(py, px) && !((#[trigger] self.grid.cell_at(py, px)).tile
                        is Empty) implies self.grid.cell_at(py, px).tile == seeded_tile(
                    seed@,
                    py,
                    px,
                ) || (exists|i: int|
                    0 <= i < self.rules@.len() && (#[trigger] self.rules@[i]).tile
                        == self.grid.cell_at(py, px).tile) by {
                    assert(self.grid.cell_at(py, px).tile == before.grid.cell_at(py, px).tile);
                }
            }
            if entropy == 0 {
                proof {
                    if rules_total_for(old(self).rules@, seed@) {
                        assert(tiles@.len() >= 1);
                        assert(tiles@[0].2 is Empty);
                        let (cy, cx) = choose|cy: int, cx: int|
                            self.grid.in_bounds(cy, cx) && (#[trigger] self.grid.cell_at(
                                cy,
                                cx,
                            )).tile is Empty && self.grid.cell_at(cy, cx).spec_cache() is Some
                                && self.grid.cell_at(cy, cx).spec_cache()->0.len() == 0
                                && is_reset_member(
                                cy,
                                cx,
                                tiles@[0].0 as int,
                                tiles@[0].1 as int,
                            );
                        assert(self.cache_ok(cy, cx));
                        assert(self.neighbor_entries(cy, cx).len() == 0);
                        lemma_resolved_reachable(*self, seed@, cy, cx + 1);
                        lemma_resolved_reachable(*self, seed@, cy + 1, cx);
                        lemma_resolved_reachable(*self, seed@, cy, dec_coord(cx));
                        lemma_resolved_reachable(*self, seed@, dec_coord(cy), cx);
                        assert(possibilities_of(
                            self.rules@,
                            self.resolved_tile(cy, cx + 1),
                            self.resolved_tile(cy + 1, cx),
                            self.resolved_tile(cy, dec_coord(cx)),
                            self.resolved_tile(dec_coord(cy), cx),
                        ).len() > 0);
                        assert(false);
                    }
                }
                let ghost mid = *self;
                self.apply_all(tiles);
                proof {
                    assert forall|py: int, px: int|
                        self.grid.in_bounds(py, px) implies ((#[trigger] self.grid.cell_at(
                        py,
                        px,
                    )).tile is Empty || self.grid.cell_at(py, px).tile is Numbered)
                        && (!(self.grid.cell_at(py, px).tile is Empty)
                        ==> self.grid.cell_at(py, px).tile == seeded_tile(seed@, py, px) || (exists|
                        i: int,
                    |
                        0 <= i < self.rules@.len() && (#[trigger] self.rules@[i]).tile
                            == self.grid.cell_at(py, px).tile)) by {
                        if self.grid.cell_at(py, px).tile != mid.grid.cell_at(py, px).tile {
                            let k = choose|k: int|
                                0 <= k < tiles@.len() && (#[trigger] tiles@[k]).0 == py
                                    && tiles@[k].1 == px;
                            assert(self.grid.cell_at(py, px) == (Cell {
                                tile: Tile::Empty,
                                cache: Option::<Vec<(u32, Tile)>>::None,
                            }));
                        }
                    }
                }
                proof {
                    lemma_count_empty_bounds(self.grid.cells@);
                }
                backtracks = backtracks + 1;
            } else {
                if tiles.len() == 0 {
                    proof {
                        assert forall|py: int, px: int|
                            self.grid.in_bounds(py, px) && (#[trigger] self.grid.cell_at(
                                py,
                                px,
                            )).tile is Empty implies self.neighbor_entries(py, px).len() == 0 by {
                            assert(self.cache_ok(py, px));
                        }
                    }
                    break ;
                }
                let ghost mid = *self;
                self.apply_one(tiles, random_numbers);
                proof {
                    let k = choose|k: int|
                        0 <= k < tiles@.len() && self.grid.cell_at(
                            (#[trigger] tiles@[k]).0 as int,
                            tiles@[k].1 as int,
                        ).tile == tiles@[k].2 && mid.candidate_ok(
                            tiles@[k].0 as int,
                            tiles@[k].1 as int,
                            tiles@[k].2,
                        ) && (forall|py: int, px: int|
                            mid.grid.in_bounds(py, px) && !(py == tiles@[k].0 as int && px
                                == tiles@[k].1 as int) ==> (#[trigger] self.grid.cell_at(
                                py,
                                px,
                            )).tile == mid.grid.cell_at(py, px).tile);
                    lemma_count_empty_bounds(self.grid.cells@);
                    let ky = tiles@[k].0 as int;
                    let kx = tiles@[k].1 as int;
                    let kt = tiles@[k].2;
                    assert(exists|i: int|
                        0 <= i < self.rules@.len() && (#[trigger] self.rules@[i]).tile == kt) by {
                        let i = choose|i: int|
                            0 <= i < mid.rules@.len() && rule_matches(
                                #[trigger] mid.rules@[i],
                                mid.resolved_tile(ky, kx + 1),
                                mid.resolved_tile(ky + 1, kx),
                                mid.resolved_tile(ky, dec_coord(kx)),
                                mid.resolved_tile(dec_coord(ky), kx),
                            ) && mid.rules@[i].tile == kt;
                        assert(self.rules@[i].tile == kt);
                    }
                    assert forall|py: int, px: int|
                        self.grid.in_bounds(py, px) implies ((#[trigger] self.grid.cell_at(
                        py,
                        px,
                    )).tile is Empty || self.grid.cell_at(py, px).tile is Numbered)
                        && (!(self.grid.cell_at(py, px).tile is Empty)
                        ==> self.grid.cell_at(py, px).tile == seeded_tile(seed@, py, px) || (exists|
                        i: int,
                    |
                        0 <= i < self.rules@.len() && (#[trigger] self.rules@[i]).tile
                            == self.grid.cell_at(py, px).tile)) && (backtracks == 0
                        && !(seeded_tile(seed@, py, px) is Empty)
                        ==> self.grid.cell_at(py, px).tile == seeded_tile(seed@, py, px)) by {
                        if py == ky && px == kx {
                            assert(self.grid.cell_at(py, px).tile == kt);
                            assert(kt is Numbered);
                            if backtracks == 0 && !(seeded_tile(seed@, py, px) is Empty) {
                                assert(mid.grid.cell_at(py, px).tile == seeded_tile(
                                    seed@,
                                    py,
                                    px,
                                ));
                                assert(mid.grid.cell_at(py, px).tile is Empty);
                                assert(false);
                            }
                        } else {
                            assert(self.grid.cell_at(py, px).tile == mid.grid.cell_at(
                                py,
                                px,
                            ).tile);
                        }
                    }
                }
            }
        }
        backtracks
    }

    /// The possibility list at (y, x) against the four currently resolved
    /// neighbor tiles: one squared-weight entry per matching rule, in rule
    /// order.
    fn compute_possibilities(&self, y: usize, x: usize) -> (r: Vec<(u32, Tile)>)
        requires
            self.wf(),
            self.grid.in_bounds(y as int, x as int),
        ensures
            r@ == self.neighbor_entries(y as int, x as int),
    {
        let right_tile = self.get_cell(y, x + 1);
        let bottom_tile = self.get_cell(y + 1, x);
        let left_tile = self.get_cell(
            y,
            if x == 0 {
                usize::MAX
            } else {
                x - 1
            },
        );
        let top_tile = self.get_cell(
            if y == 0 {
                usize::MAX
            } else {
                y - 1
            },
            x,
        );
        let mut possibilities: Vec<(u32, Tile)> = Vec::new();
        let mut i: usize = 0;
        while i < self.rules.len()
            invariant
                i <= self.rules@.len(),
                rules_wf(self.rules@),
                possibilities@ == possibilities_of(
                    self.rules@.take(i as int),
                    right_tile,
                    bottom_tile,
                    left_tile,
                    top_tile,
                ),
            decreases self.rules@.len() - i,
        {
            let rule = &self.rules[i];
            let matched = contains_tile(&rule.right, right_tile) && contains_tile(
                &rule.bottom,
                bottom_tile,
            ) && contains_tile(&rule.left, left_tile) && contains_tile(&rule.top, top_tile);
            proof {
                assert(self.rules@.take(i as int + 1).drop_last() =~= self.rules@.take(i as int));
                assert(self.rules@.take(i as int + 1).last() == self.rules@[i as int]);
            }
            if matched {
                let w = rule.weight;
                proof {
                    assert(self.rules@[i as int].weight <= 0xFFFF);
                    assert((w as int) * (w as int) <= 0xFFFFFFFF) by (nonlinear_arith)
                        requires
                            w <= 0xFFFF,
                    ;
                }
                possibilities.push((w * w, rule.tile));
            }
            i = i + 1;
        }
        proof {
            assert(self.rules@.take(self.rules@.len() as int) =~= self.rules@);
        }
        possibilities
    }

    /// Recompute and install the possibility list at (y, x). Tiles are
    /// untouched, so every lookup resolves as before and all caches stay
    /// consistent.
    fn recache_cell(&mut self, y: usize, x: usize)
        requires
            old(self).wf(),
            old(self).caches_consistent(),
            old(self).grid.in_bounds(y as int, x as int),
        ensures
            final(self).wf(),
            final(self).caches_consistent(),
            final(self).grid.width == old(self).grid.width,
            final(self).grid.height == old(self).grid.height,
            final(self).wrap == old(self).wrap,
            final(self).rules == old(self).rules,
            count_empty(final(self).grid.cells@) == count_empty(old(self).grid.cells@),
            forall|py: int, px: int|
                old(self).grid.in_bounds(py, px) ==> (#[trigger] final(self).grid.cell_at(
                    py,
                    px,
                )).tile == old(self).grid.cell_at(py, px).tile,
            forall|py: int, px: int| #[trigger]
                final(self).resolved_tile(py, px) == old(self).resolved_tile(py, px),
            forall|py: int, px: int|
                old(self).grid.in_bounds(py, px) && !(py == y as int && px == x as int) ==> (
                #[trigger] final(self).grid.cell_at(py, px)) == old(self).grid.cell_at(py, px),
            final(self).grid.cell_at(y as int, x as int).spec_cache() is Some,
    {
        let possibilities = self.compute_possibilities(y, x);
        let ghost pre = *self;
        self.grid.set_cache(y, x, possibilities);
        proof {
            let w = pre.grid.width as int;
            let h = pre.grid.height as int;
            crate::grid::lemma_row_major(y as int, x as int, w, h);
            lemma_count_empty_update(
                pre.grid.cells@,
                (y as int) * w + (x as int),
                self.grid.cell_at(y as int, x as int),
            );
            assert forall|py: int, px: int|
                pre.grid.in_bounds(py, px) && !(py == y as int && px == x as int) implies (
            #[trigger] self.grid.cell_at(py, px)) == pre.grid.cell_at(py, px) by {
                crate::grid::lemma_row_major(py, px, w, h);
                if py * w + px == (y as int) * w + (x as int) {
                    lemma_row_major_injective(py, px, y as int, x as int, w);
                }
            }
            lemma_resolved_same(pre, *self);
            assert(self.grid.cell_at(y as int, x as int).spec_cache() == Option::Some(
                possibilities@,
            ));
            assert forall|py: int, px: int|
                self.grid.in_bounds(py, px) implies #[trigger] self.cache_ok(py, px) by {
                if py == y as int && px == x as int {
                    assert(self.neighbor_entries(py, px) == pre.neighbor_entries(py, px));
                } else {
                    assert(pre.cache_ok(py, px));
                    assert(self.neighbor_entries(py, px) == pre.neighbor_entries(py, px));
                }
            }
        }
    }

    /// Draw one tile from the non-empty cached possibility list at (y, x):
    /// uniformly when every weight is zero, by weighted index otherwise. The
    /// drawn tile is licensed by a rule against the current neighbors.
    fn choose_from_cache(
        &self,
        y: usize,
        x: usize,
        random_numbers: &mut rand::rngs::StdRng,
    ) -> (t: Tile)
        requires
            self.wf(),
            self.caches_consistent(),
            self.grid.in_bounds(y as int, x as int),
            self.grid.cell_at(y as int, x as int).spec_cache() is Some,
            self.grid.cell_at(y as int, x as int).spec_cache()->0.len() >= 1,
        ensures
            self.candidate_ok(y as int, x as int, t),
            t is Numbered,
    {
        let elen = self.grid.cache_len(y, x);
        let ghost entries = self.grid.cell_at(y as int, x as int).spec_cache()->0;
        proof {
            assert(self.cache_ok(y as int, x as int));
            lemma_possibilities_sum(
                self.rules@,
                self.resolved_tile(y as int, x as int + 1),
                self.resolved_tile(y as int + 1, x as int),
                self.resolved_tile(y as int, dec_coord(x as int)),
                self.resolved_tile(dec_coord(y as int), x as int),
            );
        }
        let mut total: u32 = 0;
        let mut j: usize = 0;
        while j < elen
            invariant
                j <= elen,
                self.wf(),
                self.grid.in_bounds(y as int, x as int),
                self.grid.cell_at(y as int, x as int).spec_cache() is Some,
                entries == self.grid.cell_at(y as int, x as int).spec_cache()->0,
                elen == entries.len(),
                sum_entry_weights(entries) <= u32::MAX,
                total == sum_entry_weights(entries.take(j as int)),
            decreases elen - j,
        {
            let e = self.grid.cache_entry(y, x, j);
            proof {
                assert(entries.take(j as int + 1).drop_last() =~= entries.take(j as int));
                assert(entries.take(j as int + 1).last() == entries[j as int]);
                lemma_sum_entry_weights_take(entries, j as int + 1);
            }
            total = total + e.0;
            j = j + 1;
        }
        proof {
            assert(entries.take(elen as int) =~= entries);
        }
        let idx = if total == 0 {
            rand_index(random_numbers, elen)
        } else {
            rand_weighted(random_numbers, self.grid.cache_ref(y, x))
        };
        let e = self.grid.cache_entry(y, x, idx);
        let chosen = e.1;
        proof {
            lemma_possibility_entry(
                self.rules@,
                self.resolved_tile(y as int, x as int + 1),
                self.resolved_tile(y as int + 1, x as int),
                self.resolved_tile(y as int, dec_coord(x as int)),
                self.resolved_tile(dec_coord(y as int), x as int),
                idx as int,
            );
            let wit = choose|i: int|
                0 <= i < self.rules@.len() && rule_matches(
                    #[trigger] self.rules@[i],
                    self.resolved_tile(y as int, x as int + 1),
                    self.resolved_tile(y as int + 1, x as int),
                    self.resolved_tile(y as int, dec_coord(x as int)),
                    self.resolved_tile(dec_coord(y as int), x as int),
                ) && self.neighbor_entries(y as int, x as int)[idx as int] == ((((
                self.rules@[i].weight * self.rules@[i].weight) as u32), self.rules@[i].tile));
            assert(self.rules@[wit].tile == chosen);
            assert(self.candidate_ok(y as int, x as int, chosen));
        }
        chosen
    }

    /// One outer step: scan every position once, fill the caches of
    /// undetermined cells that lack one (keeping every cache already
    /// present), and collect the running minimum-entropy bucket. A result
    /// entropy of zero carries reset instructions for the contradiction
    /// cells and their in-grid neighbors (only collected while
    /// contradictions are not ignored, and preempting any positive entropy);
    /// a positive entropy is the least cache length over undetermined cells,
    /// and the bucket then covers exactly the cells achieving it, each with
    /// a candidate tile licensed by a rule against its current neighbors; an
    /// empty bucket at positive entropy means no progress is possible.
    fn collapse_step(
        &mut self,
        ignore_unsolvable_tiles: bool,
        random_numbers: &mut rand::rngs::StdRng,
    ) -> (r: (usize, Vec<(usize, usize, Tile)>))
        requires
            old(self).wf(),
            old(self).caches_consistent(),
        ensures
            final(self).wf(),
            final(self).caches_consistent(),
            final(self).grid.width == old(self).grid.width,
            final(self).grid.height == old(self).grid.height,
            final(self).wrap == old(self).wrap,
            final(self).rules == old(self).rules,
            count_empty(final(self).grid.cells@) == count_empty(old(self).grid.cells@),
            forall|py: int, px: int|
                old(self).grid.in_bounds(py, px) ==> (#[trigger] final(self).grid.cell_at(
                    py,
                    px,
                )).tile == old(self).grid.cell_at(py, px).tile,
            r.0 == 0 ==> !ignore_unsolvable_tiles,
            r.0 == 0 ==> forall|k: int|
                0 <= k < r.1@.len() ==> final(self).grid.in_bounds(
                    (#[trigger] r.1@[k]).0 as int,
                    r.1@[k].1 as int,
                ) && r.1@[k].2 is Empty,
            r.0 != 0 ==> forall|k: int|
                0 <= k < r.1@.len() ==> final(self).grid.in_bounds(
                    (#[trigger] r.1@[k]).0 as int,
                    r.1@[k].1 as int,
                ) && final(self).grid.cell_at(r.1@[k].0 as int, r.1@[k].1 as int).tile is Empty
                    && r.1@[k].2 is Numbered && final(self).candidate_ok(
                    r.1@[k].0 as int,
                    r.1@[k].1 as int,
                    r.1@[k].2,
                ),
            r.0 != 0 && r.1@.len() == 0 ==> forall|py: int, px: int|
                final(self).grid.in_bounds(py, px) && (#[trigger] final(self).grid.cell_at(
                    py,
                    px,
                )).tile is Empty ==> final(self).grid.cell_at(py, px).spec_cache() is Some
                    && final(self).grid.cell_at(py, px).spec_cache()->0.len() == 0,
            forall|py: int, px: int|
                old(self).grid.in_bounds(py, px) && old(self).grid.cell_at(py, px).spec_cache()
                    is Some ==> #[trigger] final(self).grid.cell_at(py, px) == old(
                    self,
                ).grid.cell_at(py, px),
            forall|py: int, px: int|
                old(self).grid.in_bounds(py, px) && !(old(self).grid.cell_at(py, px).tile
                    is Empty) ==> #[trigger] final(self).grid.cell_at(py, px) == old(
                    self,
                ).grid.cell_at(py, px),
            forall|py: int, px: int|
                old(self).grid.in_bounds(py, px) && old(self).grid.cell_at(py, px).tile is Empty
                    ==> (#[trigger] final(self).grid.cell_at(py, px)).spec_cache() is Some,
            r.0 != usize::MAX ==> r.1@.len() >= 1,
            forall|py: int, px: int|
                final(self).grid.in_bounds(py, px) && (#[trigger] final(self).grid.cell_at(
                    py,
                    px,
                )).tile is Empty && (final(self).grid.cell_at(py, px).spec_cache()->0.len() > 0
                    || !ignore_unsolvable_tiles) ==> r.0 <= final(self).grid.cell_at(
                    py,
                    px,
                ).spec_cache()->0.len(),
            r.0 != 0 && r.0 != usize::MAX ==> forall|k: int|
                0 <= k < r.1@.len() ==> final(self).grid.cell_at(
                    (#[trigger] r.1@[k]).0 as int,
                    r.1@[k].1 as int,
                ).spec_cache() is Some && final(self).grid.cell_at(
                    r.1@[k].0 as int,
                    r.1@[k].1 as int,
                ).spec_cache()->0.len() == r.0,
            r.0 != 0 ==> forall|k1: int, k2: int|
                0 <= k1 < k2 < r.1@.len() ==> !((#[trigger] r.1@[k1]).0 == (
                #[trigger] r.1@[k2]).0 && r.1@[k1].1 == r.1@[k2].1),
            r.0 != 0 && r.0 != usize::MAX ==> forall|py: int, px: int|
                final(self).grid.in_bounds(py, px) && (#[trigger] final(self).grid.cell_at(
                    py,
                    px,
                )).tile is Empty && final(self).grid.cell_at(py, px).spec_cache() is Some
                    && final(self).grid.cell_at(py, px).spec_cache()->0.len() == r.0 ==> (exists|
                k: int,
            |
                0 <= k < r.1@.len() && (#[trigger] r.1@[k]).0 == py && r.1@[k].1 == px),
            r.0 == 0 ==> forall|k: int|
                0 <= k < r.1@.len() ==> (#[trigger] r.1@[k]).2 is Empty && (exists|
                cy: int,
                cx: int,
            |
                final(self).grid.in_bounds(cy, cx) && (#[trigger] final(self).grid.cell_at(
                    cy,
                    cx,
                )).tile is Empty && final(self).grid.cell_at(cy, cx).spec_cache() is Some
                    && final(self).grid.cell_at(cy, cx).spec_cache()->0.len() == 0
                    && is_reset_member(cy, cx, r.1@[k].0 as int, r.1@[k].1 as int)),
            r.0 == 0 ==> forall|py: int, px: int|
                final(self).grid.in_bounds(py, px) && (#[trigger] final(self).grid.cell_at(
                    py,
                    px,
                )).tile is Empty && final(self).grid.cell_at(py, px).spec_cache() is Some
                    && final(self).grid.cell_at(py, px).spec_cache()->0.len() == 0 ==> (exists|
                k: int,
            |
                0 <= k < r.1@.len() && (#[trigger] r.1@[k]).0 == py && r.1@[k].1 == px),
    {
        let mut entropy: usize = usize::MAX;
        let mut bucket: Vec<(usize, usize, Tile)> = Vec::new();
        let mut y: usize = 0;
        while y < self.grid.height
            invariant
                y <= self.grid.height,
                self.wf(),
                self.caches_consistent(),
                self.grid.width == old(self).grid.width,
                self.grid.height == old(self).grid.height,
                self.wrap == old(self).wrap,
                self.rules == old(self).rules,
                count_empty(self.grid.cells@) == count_empty(old(self).grid.cells@),
                forall|py: int, px: int|
                    old(self).grid.in_bounds(py, px) ==> (#[trigger] self.grid.cell_at(
                        py,
                        px,
                    )).tile == old(self).grid.cell_at(py, px).tile,
                entropy == 0 ==> !ignore_unsolvable_tiles,
                entropy == 0 ==> forall|k: int|
                    0 <= k < bucket@.len() ==> self.grid.in_bounds(
                        (#[trigger] bucket@[k]).0 as int,
                        bucket@[k].1 as int,
                    ) && bucket@[k].2 is Empty,
                entropy != 0 ==> forall|k: int|
                    0 <= k < bucket@.len() ==> self.grid.in_bounds(
                        (#[trigger] bucket@[k]).0 as int,
                        bucket@[k].1 as int,
                    ) && self.grid.cell_at(bucket@[k].0 as int, bucket@[k].1 as int).tile is Empty
                        && bucket@[k].2 is Numbered && self.candidate_ok(
                        bucket@[k].0 as int,
                        bucket@[k].1 as int,
                        bucket@[k].2,
                    ),
                entropy != usize::MAX ==> bucket@.len() >= 1,
                entropy != 0 && bucket@.len() == 0 ==> forall|py: int, px: int|
                    self.grid.in_bounds(py, px) && py < y && (#[trigger] self.grid.cell_at(
                        py,
                        px,
                    )).tile is Empty ==> self.grid.cell_at(py, px).spec_cache() is Some
                        && self.grid.cell_at(py, px).spec_cache()->0.len() == 0,
                forall|py: int, px: int|
                    old(self).grid.in_bounds(py, px) && old(self).grid.cell_at(py, px).spec_cache()
                        is Some ==> #[trigger] self.grid.cell_at(py, px) == old(self).grid.cell_at(py, px),
                forall|py: int, px: int|
                    old(self).grid.in_bounds(py, px) && !(old(self).grid.cell_at(py, px).tile
                        is Empty) ==> #[trigger] self.grid.cell_at(py, px) == old(self).grid.cell_at(py, px),
                forall|py: int, px: int|
                    self.grid.in_bounds(py, px) && (py < y as int) && (#[trigger] self.grid.cell_at(
                        py,
                        px,
                    )).tile is Empty ==> self.grid.cell_at(py, px).spec_cache() is Some,
                forall|py: int, px: int|
                    self.grid.in_bounds(py, px) && (py < y as int) && (#[trigger] self.grid.cell_at(
                        py,
                        px,
                    )).tile is Empty && (self.grid.cell_at(py, px).spec_cache()->0.len() > 0
                        || !ignore_unsolvable_tiles) ==> entropy <= self.grid.cell_at(
                        py,
                        px,
                    ).spec_cache()->0.len(),
                entropy != 0 && entropy != usize::MAX ==> forall|k: int|
                    0 <= k < bucket@.len() ==> self.grid.cell_at(
                        (#[trigger] bucket@[k]).0 as int,
                        bucket@[k].1 as int,
                    ).spec_cache() is Some && self.grid.cell_at(
                        bucket@[k].0 as int,
                        bucket@[k].1 as int,
                    ).spec_cache()->0.len() == entropy,
                entropy != 0 && entropy != usize::MAX ==> forall|py: int, px: int|
                    self.grid.in_bounds(py, px) && (py < y as int) && (#[trigger] self.grid.cell_at(
                        py,
                        px,
                    )).tile is Empty && self.grid.cell_at(py, px).spec_cache() is Some
                        && self.grid.cell_at(py, px).spec_cache()->0.len() == entropy ==> (exists|
                    k: int,
                |
                    0 <= k < bucket@.len() && (#[trigger] bucket@[k]).0 == py && bucket@[k].1 == px),
                entropy == 0 ==> forall|k: int|
                    0 <= k < bucket@.len() ==> (#[trigger] bucket@[k]).2 is Empty && (exists|
                    cy: int,
                    cx: int,
                |
                    self.grid.in_bounds(cy, cx) && (#[trigger] self.grid.cell_at(cy, cx)).tile
                        is Empty && self.grid.cell_at(cy, cx).spec_cache() is Some
                        && self.grid.cell_at(cy, cx).spec_cache()->0.len() == 0 && is_reset_member(
                        cy,
                        cx,
                        bucket@[k].0 as int,
                        bucket@[k].1 as int,
                    )),
                entropy == 0 ==> forall|py: int, px: int|
                    self.grid.in_bounds(py, px) && (py < y as int) && (#[trigger] self.grid.cell_at(
                        py,
                        px,
                    )).tile is Empty && self.grid.cell_at(py, px).spec_cache() is Some
                        && self.grid.cell_at(py, px).spec_cache()->0.len() == 0 ==> (exists|
                    k: int,
                |
                    0 <= k < bucket@.len() && (#[trigger] bucket@[k]).0 == py && bucket@[k].1 == px),
                entropy != 0 ==> forall|k: int|
                    0 <= k < bucket@.len() ==> ((#[trigger] bucket@[k]).0 as int) < y as int,
                entropy != 0 ==> forall|k1: int, k2: int|
                    0 <= k1 < k2 < bucket@.len() ==> !((#[trigger] bucket@[k1]).0 == (
                    #[trigger] bucket@[k2]).0 && bucket@[k1].1 == bucket@[k2].1),
            decreases self.grid.height - y,
        {
            let mut x: usize = 0;
            while x < self.grid.width
                invariant
                    x <= self.grid.width,
                    y < self.grid.height,
                    self.wf(),
                    self.caches_consistent(),
                    self.grid.width == old(self).grid.width,
                    self.grid.height == old(self).grid.height,
                    self.wrap == old(self).wrap,
                    self.rules == old(self).rules,
                    count_empty(self.grid.cells@) == count_empty(old(self).grid.cells@),
                    forall|py: int, px: int|
                        old(self).grid.in_bounds(py, px) ==> (#[trigger] self.grid.cell_at(
                            py,
                            px,
                        )).tile == old(self).grid.cell_at(py, px).tile,
                    entropy == 0 ==> !ignore_unsolvable_tiles,
                    entropy == 0 ==> forall|k: int|
                        0 <= k < bucket@.len() ==> self.grid.in_bounds(
                            (#[trigger] bucket@[k]).0 as int,
                            bucket@[k].1 as int,
                        ) && bucket@[k].2 is Empty,
                    entropy != 0 ==> forall|k: int|
                        0 <= k < bucket@.len() ==> self.grid.in_bounds(
                            (#[trigger] bucket@[k]).0 as int,
                            bucket@[k].1 as int,
                        ) && self.grid.cell_at(bucket@[k].0 as int, bucket@[k].1 as int).tile
                            is Empty && bucket@[k].2 is Numbered && self.candidate_ok(
                            bucket@[k].0 as int,
                            bucket@[k].1 as int,
                            bucket@[k].2,
                        ),
                    entropy != usize::MAX ==> bucket@.len() >= 1,
                    entropy != 0 && bucket@.len() == 0 ==> forall|py: int, px: int|
                        self.grid.in_bounds(py, px) && (py < y || (py == y && px < x)) && (
                        #[trigger] self.grid.cell_at(py, px)).tile is Empty ==> self.grid.cell_at(
                            py,
                            px,
                        ).spec_cache() is Some && self.grid.cell_at(py, px).spec_cache()->0.len()
                            == 0,
                        forall|py: int, px: int|
                        old(self).grid.in_bounds(py, px) && old(self).grid.cell_at(py, px).spec_cache()
                            is Some ==> #[trigger] self.grid.cell_at(py, px) == old(self).grid.cell_at(py, px),
                    forall|py: int, px: int|
                        old(self).grid.in_bounds(py, px) && !(old(self).grid.cell_at(py, px).tile
                            is Empty) ==> #[trigger] self.grid.cell_at(py, px) == old(self).grid.cell_at(py, px),
                    forall|py: int, px: int|
                        self.grid.in_bounds(py, px) && (py < y as int || (py == y as int && px < x as int)) && (#[trigger] self.grid.cell_at(
                            py,
                            px,
                        )).tile is Empty ==> self.grid.cell_at(py, px).spec_cache() is Some,
                    forall|py: int, px: int|
                        self.grid.in_bounds(py, px) && (py < y as int || (py == y as int && px < x as int)) && (#[trigger] self.grid.cell_at(
                            py,
                            px,
                        )).tile is Empty && (self.grid.cell_at(py, px).spec_cache()->0.len() > 0
                            || !ignore_unsolvable_tiles) ==> entropy <= self.grid.cell_at(
                            py,
                            px,
                        ).spec_cache()->0.len(),
                    entropy != 0 && entropy != usize::MAX ==> forall|k: int|
                        0 <= k < bucket@.len() ==> self.grid.cell_at(
                            (#[trigger] bucket@[k]).0 as int,
                            bucket@[k].1 as int,
                        ).spec_cache() is Some && self.grid.cell_at(
                            bucket@[k].0 as int,
                            bucket@[k].1 as int,
                        ).spec_cache()->0.len() == entropy,
                    entropy != 0 && entropy != usize::MAX ==> forall|py: int, px: int|
                        self.grid.in_bounds(py, px) && (py < y as int || (py == y as int && px < x as int)) && (#[trigger] self.grid.cell_at(
                            py,
                            px,
                        )).tile is Empty && self.grid.cell_at(py, px).spec_cache() is Some
                            && self.grid.cell_at(py, px).spec_cache()->0.len() == entropy ==> (exists|
                        k: int,
                    |
                        0 <= k < bucket@.len() && (#[trigger] bucket@[k]).0 == py && bucket@[k].1 == px),
                    entropy == 0 ==> forall|k: int|
                        0 <= k < bucket@.len() ==> (#[trigger] bucket@[k]).2 is Empty && (exists|
                        cy: int,
                        cx: int,
                    |
                        self.grid.in_bounds(cy, cx) && (#[trigger] self.grid.cell_at(cy, cx)).tile
                            is Empty && self.grid.cell_at(cy, cx).spec_cache() is Some
                            && self.grid.cell_at(cy, cx).spec_cache()->0.len() == 0 && is_reset_member(
                            cy,
                            cx,
                            bucket@[k].0 as int,
                            bucket@[k].1 as int,
                        )),
                    entropy == 0 ==> forall|py: int, px: int|
                        self.grid.in_bounds(py, px) && (py < y as int || (py == y as int && px < x as int)) && (#[trigger] self.grid.cell_at(
                            py,
                            px,
                        )).tile is Empty && self.grid.cell_at(py, px).spec_cache() is Some
                            && self.grid.cell_at(py, px).spec_cache()->0.len() == 0 ==> (exists|
                        k: int,
                    |
                        0 <= k < bucket@.len() && (#[trigger] bucket@[k]).0 == py && bucket@[k].1 == px),
                    entropy != 0 ==> forall|k: int|
                        0 <= k < bucket@.len() ==> (((#[trigger] bucket@[k]).0 as int) < y as int
                            || ((bucket@[k]).0 as int == y as int && ((bucket@[k]).1 as int)
                            < x as int)),
                    entropy != 0 ==> forall|k1: int, k2: int|
                        0 <= k1 < k2 < bucket@.len() ==> !((#[trigger] bucket@[k1]).0 == (
                        #[trigger] bucket@[k2]).0 && bucket@[k1].1 == bucket@[k2].1),
                decreases self.grid.width - x,
            {
                let ghost pre = *self;
                let ghost bucket_pre = bucket@;
                let ghost entropy_pre = entropy;
                let t_here = self.grid.tile(y, x);
                if t_here == Tile::Empty {
                    if !self.grid.has_cache(y, x) {
                        self.recache_cell(y, x);
                        proof {
                            assert forall|k: int|
                                entropy != 0 && 0 <= k < bucket@.len() implies self.candidate_ok(
                                (#[trigger] bucket@[k]).0 as int,
                                bucket@[k].1 as int,
                                bucket@[k].2,
                            ) by {
                                lemma_candidate_same(
                                    pre,
                                    *self,
                                    bucket@[k].0 as int,
                                    bucket@[k].1 as int,
                                    bucket@[k].2,
                                );
                            }
                            assert forall|py: int, px: int|
                                self.grid.in_bounds(py, px) && !(py == y as int && px
                                    == x as int) implies #[trigger] self.grid.cell_at(py, px)
                                == pre.grid.cell_at(py, px) by {}
                            assert forall|k: int|
                                entropy == 0 && 0 <= k < bucket@.len() implies (exists|
                                cy: int,
                                cx: int,
                            |
                                self.grid.in_bounds(cy, cx) && (#[trigger] self.grid.cell_at(
                                    cy,
                                    cx,
                                )).tile is Empty && self.grid.cell_at(cy, cx).spec_cache() is Some
                                    && self.grid.cell_at(cy, cx).spec_cache()->0.len() == 0
                                    && is_reset_member(
                                    cy,
                                    cx,
                                    (#[trigger] bucket@[k]).0 as int,
                                    bucket@[k].1 as int,
                                )) by {
                                let (cy, cx) = choose|cy: int, cx: int|
                                    pre.grid.in_bounds(cy, cx) && (#[trigger] pre.grid.cell_at(
                                        cy,
                                        cx,
                                    )).tile is Empty && pre.grid.cell_at(cy, cx).spec_cache()
                                        is Some && pre.grid.cell_at(cy, cx).spec_cache()->0.len()
                                        == 0 && is_reset_member(
                                        cy,
                                        cx,
                                        bucket@[k].0 as int,
                                        bucket@[k].1 as int,
                                    );
                                assert(!(cy == y as int && cx == x as int));
                                assert(self.grid.cell_at(cy, cx) == pre.grid.cell_at(cy, cx));
                            }
                            assert forall|py: int, px: int|
                                entropy == 0 && self.grid.in_bounds(py, px) && (py < y as int || (
                                py == y as int && px < x as int)) && (
                                #[trigger] self.grid.cell_at(py, px)).tile is Empty
                                    && self.grid.cell_at(py, px).spec_cache() is Some
                                    && self.grid.cell_at(py, px).spec_cache()->0.len()
                                == 0 implies (exists|k: int|
                                0 <= k < bucket@.len() && (#[trigger] bucket@[k]).0 == py
                                    && bucket@[k].1 == px) by {
                                assert(self.grid.cell_at(py, px) == pre.grid.cell_at(py, px));
                            }
                            assert forall|py: int, px: int|
                                entropy != 0 && entropy != usize::MAX && self.grid.in_bounds(
                                    py,
                                    px,
                                ) && (py < y as int || (py == y as int && px < x as int)) && (
                                #[trigger] self.grid.cell_at(py, px)).tile is Empty
                                    && self.grid.cell_at(py, px).spec_cache() is Some
                                    && self.grid.cell_at(py, px).spec_cache()->0.len()
                                == entropy implies (exists|k: int|
                                0 <= k < bucket@.len() && (#[trigger] bucket@[k]).0 == py
                                    && bucket@[k].1 == px) by {
                                assert(self.grid.cell_at(py, px) == pre.grid.cell_at(py, px));
                            }
                        }
                    }
                    let elen = self.grid.cache_len(y, x);
                    if elen > 0 {
                        if elen <= entropy {
                            let chosen = self.choose_from_cache(y, x, random_numbers);
                            let entry = (y, x, chosen);
                            if elen < entropy {
                                entropy = elen;
                                bucket = vec![entry];
                                proof {
                                    assert(bucket@[0] == entry);
                                    assert forall|py: int, px: int|
                                        self.grid.in_bounds(py, px) && (py < y as int || (py
                                            == y as int && px < x as int)) && (
                                        #[trigger] self.grid.cell_at(py, px)).tile is Empty
                                            && self.grid.cell_at(py, px).spec_cache() is Some
                                            && self.grid.cell_at(py, px).spec_cache()->0.len()
                                            == elen implies false by {
                                        assert(self.grid.cell_at(py, px) == pre.grid.cell_at(
                                            py,
                                            px,
                                        ));
                                    }
                                }
                            } else {
                                bucket.push(entry);
                                proof {
                                    if entropy != usize::MAX {
                                        assert(bucket@[bucket@.len() - 1] == entry);
                                    assert forall|py: int, px: int|
                                        self.grid.in_bounds(py, px) && (py < y as int || (py
                                            == y as int && px < x as int)) && (
                                        #[trigger] self.grid.cell_at(py, px)).tile is Empty
                                            && self.grid.cell_at(py, px).spec_cache() is Some
                                            && self.grid.cell_at(py, px).spec_cache()->0.len()
                                            == entropy implies (exists|k: int|
                                        0 <= k < bucket@.len() && (#[trigger] bucket@[k]).0 == py
                                            && bucket@[k].1 == px) by {
                                        assert(self.grid.cell_at(py, px) == pre.grid.cell_at(
                                            py,
                                            px,
                                        ));
                            let k0 = choose|k: int|
                                                0 <= k < bucket_pre.len() && (
                                                #[trigger] bucket_pre[k]).0 == py
                                                    && bucket_pre[k].1 == px;
                                            assert(bucket@[k0] == bucket_pre[k0]);
                                        }
                                    }
                                }
                            }
                        }
                    } else if !ignore_unsolvable_tiles {
                        if 0 < entropy {
                            entropy = 0;
                            bucket = Vec::new();
                        }
                        let ghost base = bucket@.len() as int;
                        bucket.push((y, x, Tile::Empty));
                        if self.grid.get(y, x + 1).is_some() {
                            bucket.push((y, x + 1, Tile::Empty));
                        }
                        if self.grid.get(y + 1, x).is_some() {
                            bucket.push((y + 1, x, Tile::Empty));
                        }
                        let xm = if x == 0 {
                            usize::MAX
                        } else {
                            x - 1
                        };
                        if self.grid.get(y, xm).is_some() {
                            bucket.push((y, xm, Tile::Empty));
                        }
                        let ym = if y == 0 {
                            usize::MAX
                        } else {
                            y - 1
                        };
                        if self.grid.get(ym, x).is_some() {
                            bucket.push((ym, x, Tile::Empty));
                        }
                        proof {
                            assert(bucket@[base] == (y, x, Tile::Empty));
                            assert(bucket@[base].0 == y && bucket@[base].1 == x);
                            assert forall|k: int| 0 <= k < bucket@.len() implies (
                            #[trigger] bucket@[k]).2 is Empty && (exists|cy: int, cx: int|
                                self.grid.in_bounds(cy, cx) && (#[trigger] self.grid.cell_at(
                                    cy,
                                    cx,
                                )).tile is Empty && self.grid.cell_at(cy, cx).spec_cache() is Some
                                    && self.grid.cell_at(cy, cx).spec_cache()->0.len() == 0
                                    && is_reset_member(
                                    cy,
                                    cx,
                                    bucket@[k].0 as int,
                                    bucket@[k].1 as int,
                                )) by {
                                if entropy_pre == 0 && k < bucket_pre.len() {
                                    assert(bucket@[k] == bucket_pre[k]);
                                    let (cy, cx) = choose|cy: int, cx: int|
                                        pre.grid.in_bounds(cy, cx) && (
                                        #[trigger] pre.grid.cell_at(cy, cx)).tile is Empty
                                            && pre.grid.cell_at(cy, cx).spec_cache() is Some
                                            && pre.grid.cell_at(cy, cx).spec_cache()->0.len() == 0
                                            && is_reset_member(
                                            cy,
                                            cx,
                                            bucket_pre[k].0 as int,
                                            bucket_pre[k].1 as int,
                                        );
                                    assert(self.grid.cell_at(cy, cx) == pre.grid.cell_at(cy, cx));
                                } else {
                                    assert(self.grid.in_bounds(y as int, x as int) && self.grid.cell_at(
                                        y as int,
                                        x as int,
                                    ).tile is Empty && self.grid.cell_at(
                                        y as int,
                                        x as int,
                                    ).spec_cache() is Some && self.grid.cell_at(
                                        y as int,
                                        x as int,
                                    ).spec_cache()->0.len() == 0 && is_reset_member(
                                        y as int,
                                        x as int,
                                        bucket@[k].0 as int,
                                        bucket@[k].1 as int,
                                    ));
                                }
                            }
                            assert forall|py: int, px: int|
                                self.grid.in_bounds(py, px) && (py < y as int || (py == y as int
                                    && px < x as int)) && (#[trigger] self.grid.cell_at(
                                    py,
                                    px,
                                )).tile is Empty && self.grid.cell_at(py, px).spec_cache() is Some
                                    && self.grid.cell_at(py, px).spec_cache()->0.len()
                                == 0 implies (exists|k: int|
                                0 <= k < bucket@.len() && (#[trigger] bucket@[k]).0 == py
                                    && bucket@[k].1 == px) by {
                                assert(self.grid.cell_at(py, px) == pre.grid.cell_at(py, px));
                                if entropy_pre == 0 {
                                    let k0 = choose|k: int|
                                        0 <= k < bucket_pre.len() && (#[trigger] bucket_pre[k]).0
                                            == py && bucket_pre[k].1 == px;
                                    assert(bucket@[k0] == bucket_pre[k0]);
                                }
                            }
                        }
                    }
                }
                x = x + 1;
            }
            y = y + 1;
        }
        (entropy, bucket)
    }

    /// Apply a whole contradiction bucket: every listed position is reset to
    /// an undetermined, uncached cell, the caches reading a listed position
    /// are dropped, and every other cell is untouched.
    fn apply_all(&mut self, tiles: Vec<(usize, usize, Tile)>)
        requires
            old(self).wf(),
            old(self).caches_consistent(),
            forall|k: int|
                0 <= k < tiles@.len() ==> old(self).grid.in_bounds(
                    (#[trigger] tiles@[k]).0 as int,
                    tiles@[k].1 as int,
                ) && tiles@[k].2 is Empty,
        ensures
            final(self).wf(),
            final(self).caches_consistent(),
            final(self).grid.width == old(self).grid.width,
            final(self).grid.height == old(self).grid.height,
            final(self).wrap == old(self).wrap,
            final(self).rules == old(self).rules,
            forall|k: int|
                0 <= k < tiles@.len() ==> final(self).grid.cell_at(
                    (#[trigger] tiles@[k]).0 as int,
                    tiles@[k].1 as int,
                ) == (Cell { tile: Tile::Empty, cache: Option::<Vec<(u32, Tile)>>::None }),
            forall|py: int, px: int|
                old(self).grid.in_bounds(py, px) && !(exists|k: int|
                    0 <= k < tiles@.len() && (#[trigger] tiles@[k]).0 == py && tiles@[k].1
                        == px) ==> (#[trigger] final(self).grid.cell_at(py, px)).tile == old(
                    self,
                ).grid.cell_at(py, px).tile,
            forall|py: int, px: int|
                old(self).grid.in_bounds(py, px) && (exists|k: int|
                    0 <= k < tiles@.len() && old(self).is_commit_neighbor(
                        (#[trigger] tiles@[k]).0 as int,
                        tiles@[k].1 as int,
                        py,
                        px,
                    )) ==> (#[trigger] final(self).grid.cell_at(py, px)).spec_cache() is None,
            forall|py: int, px: int|
                old(self).grid.in_bounds(py, px) && !(exists|k: int|
                    0 <= k < tiles@.len() && (#[trigger] tiles@[k]).0 == py && tiles@[k].1 == px)
                    && !(exists|k: int|
                    0 <= k < tiles@.len() && old(self).is_commit_neighbor(
                        (#[trigger] tiles@[k]).0 as int,
                        tiles@[k].1 as int,
                        py,
                        px,
                    )) ==> #[trigger] final(self).grid.cell_at(py, px) == old(self).grid.cell_at(
                    py,
                    px,
                ),
    {
        let ghost start = *self;
        let mut k: usize = 0;
        while k < tiles.len()
            invariant
                k <= tiles@.len(),
                self.wf(),
                self.caches_consistent(),
                self.grid.width == start.grid.width,
                self.grid.height == start.grid.height,
                self.wrap == start.wrap,
                self.rules == start.rules,
                start.wf(),
                forall|k2: int|
                    0 <= k2 < tiles@.len() ==> start.grid.in_bounds(
                        (#[trigger] tiles@[k2]).0 as int,
                        tiles@[k2].1 as int,
                    ) && tiles@[k2].2 is Empty,
                forall|j: int|
                    0 <= j < k ==> self.grid.cell_at(
                        (#[trigger] tiles@[j]).0 as int,
                        tiles@[j].1 as int,
                    ) == (Cell { tile: Tile::Empty, cache: Option::<Vec<(u32, Tile)>>::None }),
                forall|py: int, px: int|
                    start.grid.in_bounds(py, px) && !(exists|j: int|
                        0 <= j < k && (#[trigger] tiles@[j]).0 == py && tiles@[j].1 == px) ==> (
                    #[trigger] self.grid.cell_at(py, px)).tile == start.grid.cell_at(py, px).tile,
                forall|py: int, px: int|
                    start.grid.in_bounds(py, px) && (exists|j: int|
                        0 <= j < k && start.is_commit_neighbor(
                            (#[trigger] tiles@[j]).0 as int,
                            tiles@[j].1 as int,
                            py,
                            px,
                        )) ==> (#[trigger] self.grid.cell_at(py, px)).spec_cache() is None,
                forall|py: int, px: int|
                    start.grid.in_bounds(py, px) && !(exists|j: int|
                        0 <= j < k && (#[trigger] tiles@[j]).0 == py && tiles@[j].1 == px) && !(
                    exists|j: int|
                        0 <= j < k && start.is_commit_neighbor(
                            (#[trigger] tiles@[j]).0 as int,
                            tiles@[j].1 as int,
                            py,
                            px,
                        )) ==> #[trigger] self.grid.cell_at(py, px) == start.grid.cell_at(py, px),
            decreases tiles@.len() - k,
        {
            let (y, x, tile) = tiles[k];
            let ghost pre = *self;
            self.invalidate_neighbours_cache(x, y);
            let ghost mid = *self;
            self.grid.set_cell(y, x, tile);
            proof {
                let w = pre.grid.width as int;
                let h = pre.grid.height as int;
                crate::grid::lemma_row_major(y as int, x as int, w, h);
                assert forall|py: int, px: int|
                    pre.grid.in_bounds(py, px) && !(py == y as int && px == x as int) implies (
                #[trigger] self.grid.cell_at(py, px)) == mid.grid.cell_at(py, px) by {
                    crate::grid::lemma_row_major(py, px, w, h);
                    if py * w + px == (y as int) * w + (x as int) {
                        lemma_row_major_injective(py, px, y as int, x as int, w);
                    }
                }
                assert(self.grid.cell_at(y as int, x as int) == (Cell {
                    tile,
                    cache: Option::<Vec<(u32, Tile)>>::None,
                }));
                lemma_commit_keeps_caches(pre, *self, y as int, x as int);
                assert(tiles@[k as int].2 is Empty);
                assert forall|j: int| 0 <= j < k + 1 implies self.grid.cell_at(
                    (#[trigger] tiles@[j]).0 as int,
                    tiles@[j].1 as int,
                ) == (Cell { tile: Tile::Empty, cache: Option::<Vec<(u32, Tile)>>::None }) by {
                    let py = tiles@[j].0 as int;
                    let px = tiles@[j].1 as int;
                    if !(j == k || (py == y as int && px == x as int)) {
                        assert(self.grid.cell_at(py, px) == mid.grid.cell_at(py, px));
                        if pre.is_commit_neighbor(y as int, x as int, py, px) {
                            assert(mid.grid.cell_at(py, px).tile == pre.grid.cell_at(
                                py,
                                px,
                            ).tile);
                            assert(mid.grid.cell_at(py, px).spec_cache() is None);
                        } else {
                            assert(mid.grid.cell_at(py, px) == pre.grid.cell_at(py, px));
                        }
                    }
                }
                assert forall|py: int, px: int|
                    start.grid.in_bounds(py, px) && !(exists|j: int|
                        0 <= j < k + 1 && (#[trigger] tiles@[j]).0 == py && tiles@[j].1
                            == px) implies (#[trigger] self.grid.cell_at(py, px)).tile
                    == start.grid.cell_at(py, px).tile by {
                    assert(tiles@[k as int].0 == y && tiles@[k as int].1 == x);
                    assert(!(py == y as int && px == x as int));
                    assert(self.grid.cell_at(py, px) == mid.grid.cell_at(py, px));
                    assert(mid.grid.cell_at(py, px).tile == pre.grid.cell_at(py, px).tile);
                }
                assert forall|py: int, px: int|
                    start.grid.in_bounds(py, px) && (exists|j: int|
                        0 <= j < k + 1 && start.is_commit_neighbor(
                            (#[trigger] tiles@[j]).0 as int,
                            tiles@[j].1 as int,
                            py,
                            px,
                        )) implies (#[trigger] self.grid.cell_at(py, px)).spec_cache()
                    is None by {
                    let j = choose|j: int|
                        0 <= j < k + 1 && start.is_commit_neighbor(
                            (#[trigger] tiles@[j]).0 as int,
                            tiles@[j].1 as int,
                            py,
                            px,
                        );
                    if !(py == y as int && px == x as int) {
                        assert(self.grid.cell_at(py, px) == mid.grid.cell_at(py, px));
                        if j == k || pre.is_commit_neighbor(y as int, x as int, py, px) {
                            assert(mid.grid.cell_at(py, px).spec_cache() is None);
                        } else {
                            assert(mid.grid.cell_at(py, px) == pre.grid.cell_at(py, px));
                        }
                    }
                }
                assert forall|py: int, px: int|
                    start.grid.in_bounds(py, px) && !(exists|j: int|
                        0 <= j < k + 1 && (#[trigger] tiles@[j]).0 == py && tiles@[j].1 == px)
                        && !(exists|j: int|
                        0 <= j < k + 1 && start.is_commit_neighbor(
                            (#[trigger] tiles@[j]).0 as int,
                            tiles@[j].1 as int,
                            py,
                            px,
                        )) implies #[trigger] self.grid.cell_at(py, px) == start.grid.cell_at(
                    py,
                    px,
                ) by {
                    assert(tiles@[k as int].0 == y && tiles@[k as int].1 == x);
                    assert(!(py == y as int && px == x as int));
                    assert(!pre.is_commit_neighbor(y as int, x as int, py, px));
                    assert(self.grid.cell_at(py, px) == mid.grid.cell_at(py, px));
                    assert(mid.grid.cell_at(py, px) == pre.grid.cell_at(py, px));
                }
            }
            k = k + 1;
        }
        proof {
            assert(start == *old(self));
        }
    }

    /// Commit one collapse: choose one listed triple uniformly at random,
    /// write its tile, and drop the caches reading that cell. Each listed
    /// position must be an undetermined cell whose listed tile some rule
    /// licenses against its current neighbors.
    fn apply_one(
        &mut self,
        tiles: Vec<(usize, usize, Tile)>,
        random_numbers: &mut rand::rngs::StdRng,
    )
        requires
            old(self).wf(),
            old(self).caches_consistent(),
            forall|k: int|
                0 <= k < tiles@.len() ==> old(self).grid.in_bounds(
                    (#[trigger] tiles@[k]).0 as int,
                    tiles@[k].1 as int,
                ) && old(self).grid.cell_at(tiles@[k].0 as int, tiles@[k].1 as int).tile is Empty
                    && tiles@[k].2 is Numbered && old(self).candidate_ok(
                    tiles@[k].0 as int,
                    tiles@[k].1 as int,
                    tiles@[k].2,
                ),
        ensures
            final(self).wf(),
            final(self).caches_consistent(),
            final(self).grid.width == old(self).grid.width,
            final(self).grid.height == old(self).grid.height,
            final(self).wrap == old(self).wrap,
            final(self).rules == old(self).rules,
            tiles@.len() == 0 ==> *final(self) == *old(self),
            tiles@.len() > 0 ==> count_empty(final(self).grid.cells@) == count_empty(
                old(self).grid.cells@,
            ) - 1,
            tiles@.len() > 0 ==> exists|k: int|
                0 <= k < tiles@.len() && final(self).grid.cell_at(
                    (#[trigger] tiles@[k]).0 as int,
                    tiles@[k].1 as int,
                ).tile == tiles@[k].2 && old(self).candidate_ok(
                    tiles@[k].0 as int,
                    tiles@[k].1 as int,
                    tiles@[k].2,
                ) && (forall|py: int, px: int|
                    old(self).grid.in_bounds(py, px) && !(py == tiles@[k].0 as int && px
                        == tiles@[k].1 as int) ==> (#[trigger] final(self).grid.cell_at(
                        py,
                        px,
                    )).tile == old(self).grid.cell_at(py, px).tile),
    {
        if tiles.len() == 0 {
            return ;
        }
        let k = rand_index(random_numbers, tiles.len());
        let (y, x, tile) = tiles[k];
        let ghost pre = *self;
        self.invalidate_neighbours_cache(x, y);
        let ghost mid = *self;
        self.grid.set_cell(y, x, tile);
        proof {
            let w = pre.grid.width as int;
            let h = pre.grid.height as int;
            crate::grid::lemma_row_major(y as int, x as int, w, h);
            assert forall|py: int, px: int|
                pre.grid.in_bounds(py, px) && !(py == y as int && px == x as int) implies (
            #[trigger] self.grid.cell_at(py, px)) == mid.grid.cell_at(py, px) by {
                crate::grid::lemma_row_major(py, px, w, h);
                if py * w + px == (y as int) * w + (x as int) {
                    lemma_row_major_injective(py, px, y as int, x as int, w);
                }
            }
            assert(self.grid.cell_at(y as int, x as int) == (Cell {
                tile,
                cache: Option::<Vec<(u32, Tile)>>::None,
            }));
            lemma_commit_keeps_caches(pre, *self, y as int, x as int);
            lemma_count_empty_update(
                mid.grid.cells@,
                (y as int) * w + (x as int),
                Cell { tile, cache: Option::None },
            );
            assert(mid.grid.cell_at(y as int, x as int).tile is Empty);
        }
    }
}

impl Default for WavefrontCollapse {
    /// A fresh engine without horizontal wrap.
    fn default() -> (r: Self)
        ensures
            r.wf(),
            r.rules@.len() == 0,
            r.grid.width == 1,
            r.grid.height == 1,
            !r.wrap,
            r.caches_consistent(),
            forall|py: int, px: int|
                r.grid.in_bounds(py, px) ==> (#[trigger] r.grid.cell_at(py, px)).tile is Empty
                    && r.grid.cell_at(py, px).spec_cache() is None,
    {
        WavefrontCollapse::new(false)
    }
}

} // verus!
