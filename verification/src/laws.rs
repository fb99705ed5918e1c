//! Laws of neighbor resolution, stated over the engine's model and proved
//! for every well-formed engine state.

use vstd::prelude::*;

use crate::engine::dec_coord;
use crate::engine::WavefrontCollapse;
use crate::tile::Tile;

verus! {

/// Rule satisfaction. A tile licensed at (y, x) — as every tile a collapse
/// commits is, at the moment of its commit — has a rule whose `tile` equals
/// it and whose four acceptance lists contain the four resolved neighbor
/// tiles (right, bottom, left, top) of that moment.
pub proof fn lemma_licensed_tile_satisfies_acceptance(
    s: WavefrontCollapse,
    y: int,
    x: int,
    t: Tile,
)
    requires
        s.candidate_ok(y, x, t),
    ensures
        exists|i: int|
            0 <= i < s.rules@.len() && (#[trigger] s.rules@[i]).tile == t
                && s.rules@[i].right@.contains(s.resolved_tile(y, x + 1))
                && s.rules@[i].bottom@.contains(s.resolved_tile(y + 1, x))
                && s.rules@[i].left@.contains(s.resolved_tile(y, dec_coord(x)))
                && s.rules@[i].top@.contains(s.resolved_tile(dec_coord(y), x)),
{
    let i = choose|i: int|
        0 <= i < s.rules@.len() && crate::model::rule_matches(
            #[trigger] s.rules@[i],
            s.resolved_tile(y, x + 1),
            s.resolved_tile(y + 1, x),
            s.resolved_tile(y, dec_coord(x)),
            s.resolved_tile(dec_coord(y), x),
        ) && s.rules@[i].tile == t;
    assert(s.rules@[i].tile == t && s.rules@[i].right@.contains(s.resolved_tile(y, x + 1))
        && s.rules@[i].bottom@.contains(s.resolved_tile(y + 1, x)) && s.rules@[i].left@.contains(
        s.resolved_tile(y, dec_coord(x)),
    ) && s.rules@[i].top@.contains(s.resolved_tile(dec_coord(y), x)));
}

/// Border synthesis. On a grid without wrap, a lookup at any out-of-range
/// column (one step left of column zero lands on `usize::MAX`, far beyond
/// the width) yields `OutsideBegin` at the first row, `OutsideEnd` at the
/// last row, and `OutsideFill` at every row in between; a lookup at an
/// out-of-range row is classified by the column's position in the same way.
pub proof fn lemma_border_synthesis(s: WavefrontCollapse, y: int, x: int)
    requires
        s.wf(),
        !s.wrap,
    ensures
        0 <= y < s.grid.height && !(0 <= x < s.grid.width) ==> s.resolved_tile(y, x) == (if y == 0 {
            Tile::OutsideBegin
        } else if y + 1 == s.grid.height {
            Tile::OutsideEnd
        } else {
            Tile::OutsideFill
        }),
        0 <= x < s.grid.width && !(0 <= y < s.grid.height) ==> s.resolved_tile(y, x) == (if x == 0 {
            Tile::OutsideBegin
        } else if x + 1 == s.grid.width {
            Tile::OutsideEnd
        } else {
            Tile::OutsideFill
        }),
{
}

/// Wrap correctness. With wrap on, a lookup one column left of the grid
/// (column `usize::MAX`, the wrapping step down from zero) resolves exactly
/// as a lookup at the last column, and a lookup at the column equal to the
/// width resolves exactly as a lookup at column zero — at every row, whether
/// or not the row is in range.
pub proof fn lemma_wrap_correctness(s: WavefrontCollapse, y: int)
    requires
        s.wf(),
        s.wrap,
    ensures
        s.resolved_tile(y, usize::MAX as int) == s.resolved_tile(y, s.grid.width - 1),
        s.resolved_tile(y, s.grid.width as int) == s.resolved_tile(y, 0),
{
}

} // verus!
