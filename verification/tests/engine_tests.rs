use rand::rngs::StdRng;
use rand::SeedableRng;
use wavefront_collapse::CollapseRule;
use wavefront_collapse::Tile;
use wavefront_collapse::WavefrontCollapse;

fn accepting(tiles: &[Tile]) -> Vec<Tile> {
    let mut v = vec![
        Tile::Empty,
        Tile::OutsideBegin,
        Tile::OutsideFill,
        Tile::OutsideEnd,
    ];
    v.extend_from_slice(tiles);
    v
}

fn rule(weight: u32, tile: Tile, accepts: &[Tile]) -> CollapseRule {
    CollapseRule {
        weight,
        tile,
        right: accepting(accepts),
        bottom: accepting(accepts),
        left: accepting(accepts),
        top: accepting(accepts),
    }
}

fn tile_at(engine: &WavefrontCollapse, y: usize, x: usize) -> Tile {
    engine.grid().get(y, x).expect("position inside the grid").tile
}

#[test]
fn single_rule_fills_whole_grid() {
    let mut engine = WavefrontCollapse::new(false);
    engine.set_rules(vec![rule(1, Tile::Numbered(0), &[Tile::Numbered(0)])]);
    let mut rng = StdRng::seed_from_u64(1);
    let backtracks = engine.generate_map(3, 3, &Vec::new(), &mut rng);
    assert_eq!(backtracks, 0);
    for y in 0..3 {
        for x in 0..3 {
            assert_eq!(tile_at(&engine, y, x), Tile::Numbered(0));
        }
    }
}

#[test]
fn mutually_exclusive_rules_propagate_or_backtrack() {
    let mut engine = WavefrontCollapse::new(false);
    engine.set_rules(vec![
        rule(1, Tile::Numbered(1), &[Tile::Numbered(2)]),
        rule(1, Tile::Numbered(2), &[Tile::Numbered(1)]),
    ]);
    let mut rng = StdRng::seed_from_u64(7);
    let seed = vec![(0usize, 0usize, Tile::Numbered(1))];
    let backtracks = engine.generate_map(3, 3, &seed, &mut rng);
    assert_eq!(tile_at(&engine, 0, 0), Tile::Numbered(1));
    if backtracks == 0 {
        // a consistent assignment: every filled pair of grid neighbors differs
        for y in 0..3 {
            for x in 0..3 {
                let t = tile_at(&engine, y, x);
                assert!(t == Tile::Numbered(1) || t == Tile::Numbered(2));
                if x + 1 < 3 {
                    assert_ne!(t, tile_at(&engine, y, x + 1));
                }
                if y + 1 < 3 {
                    assert_ne!(t, tile_at(&engine, y + 1, x));
                }
            }
        }
    }
}

#[test]
fn same_seed_gives_identical_grids() {
    let rules = || {
        vec![
            rule(1, Tile::Numbered(0), &[Tile::Numbered(0), Tile::Numbered(1)]),
            rule(2, Tile::Numbered(1), &[Tile::Numbered(0), Tile::Numbered(1)]),
        ]
    };
    let run = || {
        let mut engine = WavefrontCollapse::new(false);
        engine.set_rules(rules());
        let mut rng = StdRng::seed_from_u64(42);
        engine.generate_map(4, 4, &Vec::new(), &mut rng);
        let mut tiles = Vec::new();
        for y in 0..4 {
            for x in 0..4 {
                tiles.push(tile_at(&engine, y, x));
            }
        }
        tiles
    };
    assert_eq!(run(), run());
}

#[test]
fn border_synthesis_without_wrap() {
    let mut engine = WavefrontCollapse::new(false);
    engine.set_rules(vec![rule(1, Tile::Numbered(0), &[Tile::Numbered(0)])]);
    let mut rng = StdRng::seed_from_u64(3);
    engine.generate_map(4, 5, &Vec::new(), &mut rng);
    // out-of-range column, classified by the row's position
    assert_eq!(engine.get_cell(0, usize::MAX), Tile::OutsideBegin);
    assert_eq!(engine.get_cell(4, usize::MAX), Tile::OutsideEnd);
    assert_eq!(engine.get_cell(1, usize::MAX), Tile::OutsideFill);
    assert_eq!(engine.get_cell(2, 4), Tile::OutsideFill);
    assert_eq!(engine.get_cell(0, 4), Tile::OutsideBegin);
    assert_eq!(engine.get_cell(4, 7), Tile::OutsideEnd);
    // out-of-range row, classified by the column's position
    assert_eq!(engine.get_cell(usize::MAX, 0), Tile::OutsideBegin);
    assert_eq!(engine.get_cell(usize::MAX, 3), Tile::OutsideEnd);
    assert_eq!(engine.get_cell(usize::MAX, 1), Tile::OutsideFill);
    assert_eq!(engine.get_cell(5, 0), Tile::OutsideBegin);
    assert_eq!(engine.get_cell(5, 2), Tile::OutsideFill);
}

#[test]
fn wrapped_column_resolves_across_the_seam() {
    let mut engine = WavefrontCollapse::new(true);
    engine.set_rules(vec![rule(1, Tile::Numbered(0), &[Tile::Numbered(0)])]);
    let mut rng = StdRng::seed_from_u64(5);
    engine.generate_map(4, 3, &Vec::new(), &mut rng);
    for y in 0..3 {
        assert_eq!(engine.get_cell(y, usize::MAX), engine.get_cell(y, 3));
        assert_eq!(engine.get_cell(y, usize::MAX), Tile::Numbered(0));
        assert_eq!(engine.get_cell(y, 4), engine.get_cell(y, 0));
    }
    // rows never wrap
    assert_eq!(engine.get_cell(usize::MAX, 0), Tile::OutsideBegin);
}

#[test]
fn backtrack_budget_is_spent_then_frozen() {
    let mut engine = WavefrontCollapse::new(false);
    // a rule that accepts no neighbor at all: every cell is a contradiction
    engine.set_rules(vec![CollapseRule {
        weight: 1,
        tile: Tile::Numbered(0),
        right: Vec::new(),
        bottom: Vec::new(),
        left: Vec::new(),
        top: Vec::new(),
    }]);
    let mut rng = StdRng::seed_from_u64(11);
    let backtracks = engine.generate_map(2, 2, &Vec::new(), &mut rng);
    assert_eq!(backtracks, 129);
    for y in 0..2 {
        for x in 0..2 {
            assert_eq!(tile_at(&engine, y, x), Tile::Empty);
            // a frozen contradiction keeps an empty possibility list
            let cell = engine.grid().get(y, x).expect("position inside the grid");
            let entries = cell
                .cache
                .as_ref()
                .expect("a frozen contradiction keeps its computed list");
            assert!(entries.is_empty());
        }
    }
}

#[test]
fn seeded_cells_survive_a_clean_run() {
    let mut engine = WavefrontCollapse::new(false);
    engine.set_rules(vec![rule(
        1,
        Tile::Numbered(0),
        &[Tile::Numbered(0), Tile::Numbered(7)],
    )]);
    let mut rng = StdRng::seed_from_u64(2);
    let seed = vec![(1usize, 1usize, Tile::Numbered(7))];
    let backtracks = engine.generate_map(3, 3, &seed, &mut rng);
    assert_eq!(backtracks, 0);
    assert_eq!(tile_at(&engine, 1, 1), Tile::Numbered(7));
    assert_eq!(tile_at(&engine, 0, 0), Tile::Numbered(0));
    assert_eq!(tile_at(&engine, 2, 2), Tile::Numbered(0));
}

#[test]
fn zero_weight_rule_loses_every_weighted_draw() {
    let mut engine = WavefrontCollapse::new(false);
    let both = [Tile::Numbered(0), Tile::Numbered(1)];
    engine.set_rules(vec![
        rule(0, Tile::Numbered(0), &both),
        rule(100, Tile::Numbered(1), &both),
    ]);
    let mut rng = StdRng::seed_from_u64(9);
    engine.generate_map(5, 5, &Vec::new(), &mut rng);
    for y in 0..5 {
        for x in 0..5 {
            assert_eq!(tile_at(&engine, y, x), Tile::Numbered(1));
        }
    }
}

#[test]
fn all_zero_weights_fall_back_to_uniform_choice() {
    let mut engine = WavefrontCollapse::new(false);
    let both = [Tile::Numbered(0), Tile::Numbered(1)];
    engine.set_rules(vec![
        rule(0, Tile::Numbered(0), &both),
        rule(0, Tile::Numbered(1), &both),
    ]);
    let mut rng = StdRng::seed_from_u64(13);
    let backtracks = engine.generate_map(4, 4, &Vec::new(), &mut rng);
    assert_eq!(backtracks, 0);
    for y in 0..4 {
        for x in 0..4 {
            let t = tile_at(&engine, y, x);
            assert!(t == Tile::Numbered(0) || t == Tile::Numbered(1));
        }
    }
}

#[test]
fn later_seed_entries_win() {
    let mut engine = WavefrontCollapse::new(false);
    engine.set_rules(vec![rule(
        1,
        Tile::Numbered(0),
        &[Tile::Numbered(0), Tile::Numbered(3), Tile::Numbered(4)],
    )]);
    let mut rng = StdRng::seed_from_u64(17);
    let seed = vec![
        (0usize, 0usize, Tile::Numbered(3)),
        (0usize, 0usize, Tile::Numbered(4)),
    ];
    engine.generate_map(2, 2, &seed, &mut rng);
    assert_eq!(tile_at(&engine, 0, 0), Tile::Numbered(4));
}
