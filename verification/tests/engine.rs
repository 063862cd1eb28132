use conway::grid::Grid;
use conway::ruleset::{ConfigError, Ruleset};

fn classic() -> Ruleset {
    Ruleset::new(2, 2, 3, 4, 3, 30).unwrap()
}

/// Builds a 5x5 grid under classic rules with the given cells alive.
fn grid_with(alive: &[(usize, usize)]) -> Grid {
    let mut g = Grid::new(5, 5, classic());
    for &(x, y) in alive {
        g.set_alive(x, y);
    }
    g.update();
    g
}

fn alive_cells(g: &Grid) -> Vec<(usize, usize)> {
    let mut out = Vec::new();
    for y in 0..5 {
        for x in 0..5 {
            if g.is_alive(x, y) {
                out.push((x, y));
            }
        }
    }
    out
}

#[test]
fn ruleset_rejects_distribution_above_hundred() {
    assert_eq!(
        Ruleset::new(2, 2, 3, 4, 3, 101),
        Err(ConfigError::DistributionOutOfRange)
    );
    assert_eq!(Ruleset::new(2, 2, 3, 4, 3, 255), Err(ConfigError::DistributionOutOfRange));
}

#[test]
fn ruleset_accepts_full_range_distribution() {
    let r = Ruleset::new(1, 2, 3, 5, 6, 100).unwrap();
    assert_eq!(r.starvation, 1);
    assert_eq!(r.living_min, 2);
    assert_eq!(r.living_max, 3);
    assert_eq!(r.smothered, 5);
    assert_eq!(r.born, 6);
    assert_eq!(r.distribution, 100);
}

#[test]
fn default_ruleset_is_classic_life() {
    let r = Ruleset::default();
    assert_eq!(r.starvation, 2);
    assert_eq!(r.living_min, 2);
    assert_eq!(r.living_max, 3);
    assert_eq!(r.smothered, 4);
    assert_eq!(r.born, 3);
    assert_eq!(r.distribution, 30);
}

#[test]
fn new_grid_is_all_dead() {
    let g = Grid::new(5, 5, classic());
    assert!(alive_cells(&g).is_empty());
}

#[test]
fn playable_size_excludes_border() {
    let g = Grid::new(12, 7, classic());
    assert_eq!(g.playable_size(), (11, 6));
}

#[test]
fn neighbors_of_empty_grid_is_zero() {
    let g = Grid::new(5, 5, classic());
    for y in 0..5 {
        for x in 0..5 {
            assert_eq!(g.neighbors(x, y), 0);
        }
    }
}

#[test]
fn neighbors_counts_full_ring() {
    let g = grid_with(&[(1, 1), (2, 1), (3, 1), (1, 2), (3, 2), (1, 3), (2, 3), (3, 3)]);
    assert_eq!(g.neighbors(2, 2), 8);
}

#[test]
fn neighbors_skips_out_of_range_candidates() {
    // The corner cell (0, 0) has only three in-range candidates.
    let g = grid_with(&[(1, 1), (1, 2), (2, 1), (2, 2)]);
    assert_eq!(g.neighbors(0, 0), 1);
    assert_eq!(g.neighbors(0, 1), 2);
    assert_eq!(g.neighbors(2, 2), 3);
}

#[test]
fn toggling_takes_effect_on_update() {
    let mut g = Grid::new(5, 5, classic());
    g.set_alive(2, 2);
    assert!(!g.is_alive(2, 2), "actions are buffered, not applied at once");
    g.update();
    assert!(g.is_alive(2, 2));
    g.set_dead(2, 2);
    g.update();
    assert!(!g.is_alive(2, 2));
}

#[test]
fn update_with_empty_queue_changes_nothing() {
    let mut g = grid_with(&[(1, 1), (3, 2), (2, 3)]);
    let before = alive_cells(&g);
    g.update();
    assert_eq!(alive_cells(&g), before);
    g.update();
    assert_eq!(alive_cells(&g), before);
}

#[test]
fn block_still_life_is_stable() {
    let block = [(1, 1), (2, 1), (1, 2), (2, 2)];
    let mut g = grid_with(&block);
    g.step();
    assert_eq!(alive_cells(&g), block.to_vec());
}

#[test]
fn blinker_oscillates() {
    let mut g = grid_with(&[(1, 2), (2, 2), (3, 2)]);
    g.step();
    assert_eq!(alive_cells(&g), vec![(2, 1), (2, 2), (2, 3)]);
    g.step();
    assert_eq!(alive_cells(&g), vec![(1, 2), (2, 2), (3, 2)]);
}

#[test]
fn isolated_cell_dies() {
    let mut g = grid_with(&[(2, 2)]);
    g.step();
    assert!(!g.is_alive(2, 2));
    assert!(alive_cells(&g).is_empty());
}

#[test]
fn overcrowded_cell_dies() {
    let mut g = grid_with(&[
        (1, 1), (2, 1), (3, 1),
        (1, 2), (2, 2), (3, 2),
        (1, 3), (2, 3), (3, 3),
    ]);
    g.step();
    assert!(!g.is_alive(2, 2));
}

#[test]
fn dead_cell_with_no_neighbors_stays_dead() {
    let mut g = Grid::new(5, 5, classic());
    g.step();
    assert!(alive_cells(&g).is_empty());
}

#[test]
fn zero_birth_threshold_fills_the_playable_area() {
    let rules = Ruleset::new(2, 2, 3, 4, 0, 30).unwrap();
    let mut g = Grid::new(5, 5, rules);
    g.step();
    let mut expected = Vec::new();
    for y in 1..4 {
        for x in 1..4 {
            expected.push((x, y));
        }
    }
    assert_eq!(alive_cells(&g), expected);
}

#[test]
fn toggle_round_trip_restores_the_empty_grid() {
    let mut g = Grid::new(5, 5, classic());
    g.set_alive(2, 2);
    g.step();
    assert_eq!(alive_cells(&g), vec![(2, 2)]);
    g.set_dead(2, 2);
    g.step();
    assert!(alive_cells(&g).is_empty());
}

#[test]
fn manual_toggle_wins_over_the_rules() {
    // Under the classic rules the center of a blinker survives the step,
    // but a pending kill for it is applied after the rule verdicts.
    let mut g = grid_with(&[(1, 2), (2, 2), (3, 2)]);
    g.set_dead(2, 2);
    g.step();
    assert_eq!(alive_cells(&g), vec![(2, 1), (2, 3)]);
}

#[test]
fn step_is_deterministic() {
    let pattern = [(1, 1), (2, 1), (3, 2), (1, 3), (2, 3)];
    let mut g1 = grid_with(&pattern);
    let mut g2 = grid_with(&pattern);
    for _ in 0..4 {
        g1.step();
        g2.step();
        assert_eq!(alive_cells(&g1), alive_cells(&g2));
    }
}

#[test]
fn set_rules_changes_the_verdicts() {
    // A lone pair survives under a starvation threshold of one but starves
    // under the classic threshold of two.
    let lenient = Ruleset::new(1, 1, 3, 4, 3, 30).unwrap();
    let mut g = Grid::new(5, 5, lenient);
    g.set_alive(1, 1);
    g.set_alive(1, 2);
    g.update();
    g.step();
    assert_eq!(alive_cells(&g), vec![(1, 1), (1, 2)]);
    g.set_rules(classic());
    assert_eq!(g.rules(), classic());
    g.step();
    assert!(alive_cells(&g).is_empty());
}

#[test]
fn seed_zero_percent_leaves_the_grid_dead() {
    let mut g = Grid::new(8, 8, classic());
    g.seed(0);
    for y in 0..8 {
        for x in 0..8 {
            assert!(!g.is_alive(x, y));
        }
    }
}

#[test]
fn seed_hundred_percent_fills_the_playable_area() {
    let mut g = Grid::new(8, 8, classic());
    g.seed(100);
    for y in 0..8 {
        for x in 0..8 {
            let playable = x >= 1 && x < 7 && y >= 1 && y < 7;
            assert_eq!(g.is_alive(x, y), playable);
        }
    }
}

#[test]
fn seed_leaves_the_border_dead() {
    let mut g = Grid::new(6, 6, classic());
    g.seed(75);
    for i in 0..6 {
        assert!(!g.is_alive(i, 0));
        assert!(!g.is_alive(i, 5));
        assert!(!g.is_alive(0, i));
        assert!(!g.is_alive(5, i));
    }
}
