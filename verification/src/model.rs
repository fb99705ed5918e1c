//! The mathematical model of the engine: what a rule accepts, which
//! possibility list a rule set yields against four neighbor tiles, and the
//! counting functions the termination and progress arguments rest on.

use vstd::prelude::*;

use crate::tile::Cell;
use crate::tile::CollapseRule;
use crate::tile::Tile;

verus! {

/// A rule matches a position iff, for every direction, the position's
/// resolved neighbor tile is a member of that direction's acceptance list.
pub open spec fn rule_matches(
    rule: CollapseRule,
    right: Tile,
    bottom: Tile,
    left: Tile,
    top: Tile,
) -> bool {
    &&& rule.right@.contains(right)
    &&& rule.bottom@.contains(bottom)
    &&& rule.left@.contains(left)
    &&& rule.top@.contains(top)
}

/// The weighted candidate list a rule set yields against four resolved
/// neighbor tiles: one `(weight * weight, tile)` entry per matching rule, in
/// rule order. The squaring is a deliberate non-linear bias toward
/// higher-weight rules.
pub open spec fn possibilities_of(
    rules: Seq<CollapseRule>,
    right: Tile,
    bottom: Tile,
    left: Tile,
    top: Tile,
) -> Seq<(u32, Tile)>
    decreases rules.len(),
{
    if rules.len() == 0 {
        Seq::empty()
    } else {
        let rest = possibilities_of(rules.drop_last(), right, bottom, left, top);
        let rule = rules.last();
        if rule_matches(rule, right, bottom, left, top) {
            rest.push((((rule.weight * rule.weight) as u32), rule.tile))
        } else {
            rest
        }
    }
}

/// The sum of the squared weights of a rule set.
pub open spec fn sum_sq_weights(rules: Seq<CollapseRule>) -> int
    decreases rules.len(),
{
    if rules.len() == 0 {
        0
    } else {
        sum_sq_weights(rules.drop_last()) + rules.last().weight * rules.last().weight
    }
}

/// The sum of the weights of a possibility list.
pub open spec fn sum_entry_weights(entries: Seq<(u32, Tile)>) -> int
    decreases entries.len(),
{
    if entries.len() == 0 {
        0
    } else {
        sum_entry_weights(entries.drop_last()) + entries.last().0
    }
}

/// A prefix of a possibility list sums to no more than the whole list, and
/// never to less than zero.
pub proof fn lemma_sum_entry_weights_take(entries: Seq<(u32, Tile)>, n: int)
    requires
        0 <= n <= entries.len(),
    ensures
        0 <= sum_entry_weights(entries.take(n)),
        sum_entry_weights(entries.take(n)) <= sum_entry_weights(entries),
    decreases entries.len() - n,
{
    if n == 0 {
        assert(entries.take(0) =~= Seq::empty());
        lemma_sum_entry_weights_nonneg(entries);
    } else if n == entries.len() {
        assert(entries.take(n) =~= entries);
        lemma_sum_entry_weights_nonneg(entries.take(n));
    } else {
        lemma_sum_entry_weights_take(entries, n + 1);
        assert(entries.take(n + 1).drop_last() =~= entries.take(n));
        assert(entries.take(n + 1).last() == entries[n]);
        lemma_sum_entry_weights_nonneg(entries.take(n));
    }
}

/// The sum of a possibility list's weights is non-negative.
pub proof fn lemma_sum_entry_weights_nonneg(entries: Seq<(u32, Tile)>)
    ensures
        sum_entry_weights(entries) >= 0,
    decreases entries.len(),
{
    if entries.len() > 0 {
        lemma_sum_entry_weights_nonneg(entries.drop_last());
    }
}

/// A well-formed rule set: every licensed tile is a caller-defined identity
/// (never the undetermined placeholder nor a border marker), and the squared
/// weights fit and sum within `u32`, so that weighting arithmetic cannot
/// overflow.
pub open spec fn rules_wf(rules: Seq<CollapseRule>) -> bool {
    &&& forall|i: int| 0 <= i < rules.len() ==> (#[trigger] rules[i]).tile is Numbered
    &&& forall|i: int| 0 <= i < rules.len() ==> (#[trigger] rules[i]).weight <= 0xFFFF
    &&& sum_sq_weights(rules) <= u32::MAX
}

/// The weights of the possibility list sum to no more than the squared
/// weights of the whole rule set, and never to less than zero.
pub proof fn lemma_possibilities_sum(
    rules: Seq<CollapseRule>,
    right: Tile,
    bottom: Tile,
    left: Tile,
    top: Tile,
)
    requires
        forall|i: int| 0 <= i < rules.len() ==> (#[trigger] rules[i]).weight <= 0xFFFF,
    ensures
        0 <= sum_entry_weights(possibilities_of(rules, right, bottom, left, top)),
        sum_entry_weights(possibilities_of(rules, right, bottom, left, top)) <= sum_sq_weights(
            rules,
        ),
    decreases rules.len(),
{
    if rules.len() > 0 {
        lemma_possibilities_sum(rules.drop_last(), right, bottom, left, top);
        let rest = possibilities_of(rules.drop_last(), right, bottom, left, top);
        let rule = rules.last();
        if rule_matches(rule, right, bottom, left, top) {
            let whole = rest.push((((rule.weight * rule.weight) as u32), rule.tile));
            assert(whole.drop_last() =~= rest);
        }
    }
}

/// Each entry of the possibility list is owed to a matching rule: its weight
/// is that rule's squared weight and its tile is that rule's licensed tile.
pub proof fn lemma_possibility_entry(
    rules: Seq<CollapseRule>,
    right: Tile,
    bottom: Tile,
    left: Tile,
    top: Tile,
    j: int,
)
    requires
        0 <= j < possibilities_of(rules, right, bottom, left, top).len(),
    ensures
        exists|i: int|
            0 <= i < rules.len() && rule_matches(#[trigger] rules[i], right, bottom, left, top)
                && possibilities_of(rules, right, bottom, left, top)[j] == ((((rules[i].weight
                * rules[i].weight) as u32), rules[i].tile)),
    decreases rules.len(),
{
    let rest = possibilities_of(rules.drop_last(), right, bottom, left, top);
    let whole = possibilities_of(rules, right, bottom, left, top);
    let rule = rules.last();
    if j < rest.len() {
        lemma_possibility_entry(rules.drop_last(), right, bottom, left, top, j);
        let i = choose|i: int|
            0 <= i < rules.drop_last().len() && rule_matches(
                #[trigger] rules.drop_last()[i],
                right,
                bottom,
                left,
                top,
            ) && rest[j] == ((((rules.drop_last()[i].weight * rules.drop_last()[i].weight) as u32),
            rules.drop_last()[i].tile));
        assert(rules[i] == rules.drop_last()[i]);
        assert(whole[j] == rest[j]);
    } else {
        let i = rules.len() - 1;
        assert(rule_matches(rules[i], right, bottom, left, top));
        assert(whole[j] == ((((rules[i].weight * rules[i].weight) as u32), rules[i].tile)));
    }
}

/// How many cells of a grid's backing sequence are still undetermined.
pub open spec fn count_empty(cells: Seq<Cell>) -> int
    decreases cells.len(),
{
    if cells.len() == 0 {
        0
    } else {
        count_empty(cells.drop_last()) + if cells.last().tile is Empty {
            1int
        } else {
            0int
        }
    }
}

/// Replacing one cell moves the undetermined count by exactly the difference
/// the replacement makes at that position.
pub proof fn lemma_count_empty_update(cells: Seq<Cell>, i: int, c: Cell)
    requires
        0 <= i < cells.len(),
    ensures
        count_empty(cells.update(i, c)) == count_empty(cells) - (if cells[i].tile is Empty {
            1int
        } else {
            0int
        }) + (if c.tile is Empty {
            1int
        } else {
            0int
        }),
    decreases cells.len(),
{
    let updated = cells.update(i, c);
    if i == cells.len() - 1 {
        assert(updated.drop_last() =~= cells.drop_last());
        assert(updated.last() == c);
    } else {
        assert(updated.drop_last() =~= cells.drop_last().update(i, c));
        assert(updated.last() == cells.last());
        lemma_count_empty_update(cells.drop_last(), i, c);
    }
}

/// The undetermined count is bounded by the number of cells.
pub proof fn lemma_count_empty_bounds(cells: Seq<Cell>)
    ensures
        0 <= count_empty(cells) <= cells.len(),
    decreases cells.len(),
{
    if cells.len() > 0 {
        lemma_count_empty_bounds(cells.drop_last());
    }
}

/// The tile a seed list leaves at a position: the last entry naming that
/// position wins; a position no entry names stays undetermined.
pub open spec fn seeded_tile(seed: Seq<(usize, usize, Tile)>, y: int, x: int) -> Tile
    decreases seed.len(),
{
    if seed.len() == 0 {
        Tile::Empty
    } else if seed.last().0 == y && seed.last().1 == x {
        seed.last().2
    } else {
        seeded_tile(seed.drop_last(), y, x)
    }
}

/// A non-empty seeded tile is the tile of some seed entry.
pub proof fn lemma_seeded_tile_source(seed: Seq<(usize, usize, Tile)>, y: int, x: int)
    ensures
        !(seeded_tile(seed, y, x) is Empty) ==> exists|k: int|
            0 <= k < seed.len() && (#[trigger] seed[k]).2 == seeded_tile(seed, y, x),
    decreases seed.len(),
{
    if seed.len() > 0 {
        if seed.last().0 == y && seed.last().1 == x {
            assert(seed[seed.len() - 1].2 == seeded_tile(seed, y, x));
        } else {
            lemma_seeded_tile_source(seed.drop_last(), y, x);
            if !(seeded_tile(seed, y, x) is Empty) {
                let k = choose|k: int|
                    0 <= k < seed.drop_last().len() && (#[trigger] seed.drop_last()[k]).2
                        == seeded_tile(seed.drop_last(), y, x);
                assert(seed[k].2 == seeded_tile(seed, y, x));
            }
        }
    }
}

/// Whether `t` can ever appear as a resolved neighbor during a run seeded
/// with `seed` under `rules`: the undetermined placeholder, a border marker,
/// a seeded tile, or a tile some rule licenses.
pub open spec fn reachable_tile(
    rules: Seq<CollapseRule>,
    seed: Seq<(usize, usize, Tile)>,
    t: Tile,
) -> bool {
    ||| t is Empty
    ||| t is OutsideBegin
    ||| t is OutsideFill
    ||| t is OutsideEnd
    ||| exists|k: int| 0 <= k < seed.len() && (#[trigger] seed[k]).2 == t
    ||| exists|i: int| 0 <= i < rules.len() && (#[trigger] rules[i]).tile == t
}

/// A rule set that licenses at least one tile against every combination of
/// reachable neighbor tiles: a run under it never meets a contradiction.
pub open spec fn rules_total_for(
    rules: Seq<CollapseRule>,
    seed: Seq<(usize, usize, Tile)>,
) -> bool {
    forall|a: Tile, b: Tile, c: Tile, d: Tile|
        reachable_tile(rules, seed, a) && reachable_tile(rules, seed, b) && reachable_tile(
            rules,
            seed,
            c,
        ) && reachable_tile(rules, seed, d) ==> #[trigger] possibilities_of(
            rules,
            a,
            b,
            c,
            d,
        ).len() > 0
}

/// A seed list of undetermined and caller-defined tiles leaves only such
/// tiles behind.
pub proof fn lemma_seeded_tile_kind(seed: Seq<(usize, usize, Tile)>, y: int, x: int)
    requires
        forall|k: int|
            0 <= k < seed.len() ==> ((#[trigger] seed[k]).2 is Empty || seed[k].2 is Numbered),
    ensures
        seeded_tile(seed, y, x) is Empty || seeded_tile(seed, y, x) is Numbered,
    decreases seed.len(),
{
    if seed.len() > 0 {
        if !(seed.last().0 == y && seed.last().1 == x) {
            assert(forall|k: int|
                0 <= k < seed.drop_last().len() ==> #[trigger] seed.drop_last()[k] == seed[k]);
            lemma_seeded_tile_kind(seed.drop_last(), y, x);
        }
    }
}

} // verus!
