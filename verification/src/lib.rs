//! A constraint-propagation tile-fill engine: it fills a two-dimensional grid
//! with tiles so that, at the moment each tile is committed, every adjacency
//! rule of the committed tile is satisfied by the cell's four resolved
//! neighbors. Contradictions (cells with no legal tile) are repaired by
//! resetting the affected region, up to a bounded backtrack budget.

use vstd::prelude::*;

mod engine;
mod grid;
mod laws;
mod model;
mod rng;
mod tile;

pub use engine::border_tile;
pub use engine::dec_coord;
pub use engine::wrapped_col;
pub use engine::WavefrontCollapse;
pub use grid::Grid;
pub use laws::lemma_border_synthesis;
pub use laws::lemma_licensed_tile_satisfies_acceptance;
pub use laws::lemma_wrap_correctness;
pub use model::count_empty;
pub use model::lemma_possibility_entry;
pub use model::possibilities_of;
pub use model::reachable_tile;
pub use model::rule_matches;
pub use model::rules_total_for;
pub use model::rules_wf;
pub use model::seeded_tile;
pub use model::sum_entry_weights;
pub use model::sum_sq_weights;
pub use tile::Cell;
pub use tile::CollapseRule;
pub use tile::Tile;
