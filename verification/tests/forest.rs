use forest_fire::fire_spread::{FireSpreadStrategy, MooreNeighborhood, VonNeumannNeighborhood};
use forest_fire::forest::{reservoir_keep, CellState, Forest};
use forest_fire::ratio::Ratio;

fn snapshot(forest: &Forest) -> Vec<Vec<CellState>> {
    let size = forest.size();
    (0..size)
        .map(|x| (0..size).map(|y| forest.cell(x, y)).collect())
        .collect()
}

fn count_cells(cells: &[Vec<CellState>], state: CellState) -> usize {
    cells.iter().flatten().filter(|cell| **cell == state).count()
}

fn rank(state: CellState) -> u8 {
    match state {
        CellState::Empty => 0,
        CellState::Tree => 1,
        CellState::Burning => 2,
        CellState::Burned => 3,
    }
}

// What one wave makes of `cells`, worked out cell by cell.
fn expected_wave(
    cells: &[Vec<CellState>],
    strategy: &dyn FireSpreadStrategy,
) -> Vec<Vec<CellState>> {
    let size = cells.len();
    let mut next = cells.to_vec();
    for x in 0..size {
        for y in 0..size {
            match cells[x][y] {
                CellState::Burning => {
                    next[x][y] = CellState::Burned;
                    for (nx, ny) in strategy.spread(x, y, size) {
                        if cells[nx][ny] == CellState::Tree {
                            next[nx][ny] = CellState::Burning;
                        }
                    }
                }
                _ => {}
            }
        }
    }
    next
}

#[test]
fn test_tree_count() {
    let forest: Forest = Forest::new(100, Ratio::new(1, 2));
    let tree_count = forest.total_trees();
    assert!(tree_count > 4000 && tree_count < 6000);
}

#[test]
fn test_tree_count_is_exact() {
    for size in 0usize..9 {
        for den in 1u64..8 {
            for num in 0..=den {
                let forest = Forest::new(size, Ratio::new(num, den));
                let cells = (size * size) as u64;
                let expected = ((2 * num * cells + den) / (2 * den)) as usize;
                assert_eq!(forest.total_trees(), expected);
                assert_eq!(count_cells(&snapshot(&forest), CellState::Tree), expected);
                assert_eq!(count_cells(&snapshot(&forest), CellState::Empty), size * size - expected);
                assert_eq!(forest.burned_count(), 0);
                assert_eq!(forest.size(), size);
            }
        }
    }
}

#[test]
fn test_tree_count_examples() {
    assert_eq!(Forest::new(100, Ratio::new(1, 2)).total_trees(), 5000);
    assert_eq!(Forest::new(20, Ratio::new(6, 10)).total_trees(), 240);
    assert_eq!(Forest::new(3, Ratio::new(1, 2)).total_trees(), 5);
    assert_eq!(Forest::new(1, Ratio::new(1, 2)).total_trees(), 1);
    assert_eq!(Forest::new(1, Ratio::new(49, 100)).total_trees(), 0);
}

#[test]
fn test_density_of_a_fresh_forest() {
    let forest = Forest::new(20, Ratio::new(6, 10));
    assert_eq!(forest.density(), Ratio::new(240, 400));
    let bare = Forest::new(0, Ratio::new(1, 2));
    assert_eq!(bare.density(), Ratio::new(0, 0));
    assert!(!bare.density().has_value());
}

#[test]
fn test_zero_density_leaves_the_grid_bare() {
    let mut forest = Forest::new(12, Ratio::new(0, 1));
    assert_eq!(forest.total_trees(), 0);
    assert_eq!(count_cells(&snapshot(&forest), CellState::Empty), 144);
    assert_eq!(forest.pick_random_tree(), None);
    assert!(!forest.ignite(Some((3, 4))));
    assert!(!forest.ignite(None));
    assert!(forest.fire_spread(&MooreNeighborhood));
    assert_eq!(count_cells(&snapshot(&forest), CellState::Empty), 144);
    assert_eq!(forest.burned_count(), 0);
}

#[test]
fn test_seeding_is_shuffled() {
    let size = 20;
    let forest = Forest::new(size, Ratio::new(1, 2));
    let cells = snapshot(&forest);
    let mut in_order = true;
    for x in 0..size {
        for y in 0..size {
            let first_half = x * size + y < 200;
            if (cells[x][y] == CellState::Tree) != first_half {
                in_order = false;
            }
        }
    }
    assert!(!in_order);
}

#[test]
fn test_full_density_burns_completely() {
    for size in 1usize..7 {
        for x in 0..size {
            for y in 0..size {
                let mut moore = Forest::new(size, Ratio::new(1, 1));
                assert_eq!(moore.total_trees(), size * size);
                assert!(moore.ignite(Some((x, y))));
                moore.burn_out(&MooreNeighborhood);
                assert_eq!(moore.burned_count(), moore.total_trees());
                assert_eq!(count_cells(&snapshot(&moore), CellState::Burned), size * size);

                let mut von_neumann = Forest::new(size, Ratio::new(1, 1));
                assert!(von_neumann.ignite(Some((x, y))));
                von_neumann.burn_out(&VonNeumannNeighborhood);
                assert_eq!(von_neumann.burned_count(), von_neumann.total_trees());
                assert_eq!(count_cells(&snapshot(&von_neumann), CellState::Burned), size * size);
            }
        }
    }
}

#[test]
fn test_waves_move_ring_by_ring() {
    let mut forest = Forest::new(5, Ratio::new(1, 1));
    assert!(forest.ignite(Some((2, 2))));
    assert_eq!(forest.cell(2, 2), CellState::Burning);
    assert_eq!(count_cells(&snapshot(&forest), CellState::Tree), 24);

    assert!(!forest.fire_spread(&MooreNeighborhood));
    assert_eq!(forest.burned_count(), 1);
    assert_eq!(forest.cell(2, 2), CellState::Burned);
    for x in 0..5usize {
        for y in 0..5usize {
            let far = x.abs_diff(2).max(y.abs_diff(2));
            let expected = match far {
                0 => CellState::Burned,
                1 => CellState::Burning,
                _ => CellState::Tree,
            };
            assert_eq!(forest.cell(x, y), expected);
        }
    }

    assert!(!forest.fire_spread(&MooreNeighborhood));
    assert_eq!(forest.burned_count(), 9);
    assert_eq!(count_cells(&snapshot(&forest), CellState::Burning), 16);

    assert!(forest.fire_spread(&MooreNeighborhood));
    assert_eq!(forest.burned_count(), 25);
    assert!(forest.fire_spread(&MooreNeighborhood));
    assert_eq!(forest.burned_count(), 25);
}

#[test]
fn test_von_neumann_wave_from_a_corner() {
    let mut forest = Forest::new(3, Ratio::new(1, 1));
    assert!(forest.ignite(Some((0, 0))));
    assert!(!forest.fire_spread(&VonNeumannNeighborhood));
    assert_eq!(forest.cell(0, 0), CellState::Burned);
    assert_eq!(forest.cell(1, 0), CellState::Burning);
    assert_eq!(forest.cell(0, 1), CellState::Burning);
    assert_eq!(forest.cell(1, 1), CellState::Tree);
    assert_eq!(count_cells(&snapshot(&forest), CellState::Tree), 6);
    assert_eq!(forest.burn_out(&VonNeumannNeighborhood), 4);
    assert_eq!(forest.burned_count(), 9);
}

#[test]
fn test_burn_out_counts_waves() {
    let mut forest = Forest::new(4, Ratio::new(1, 1));
    assert_eq!(forest.burn_out(&MooreNeighborhood), 1);
    assert_eq!(forest.burned_count(), 0);
    assert!(forest.ignite(Some((0, 0))));
    assert_eq!(forest.burn_out(&MooreNeighborhood), 4);
    assert_eq!(forest.burned_count(), 16);
    assert_eq!(forest.burn_out(&MooreNeighborhood), 1);

    let mut cross = Forest::new(4, Ratio::new(1, 1));
    assert!(cross.ignite(Some((0, 0))));
    assert_eq!(cross.burn_out(&VonNeumannNeighborhood), 7);

    let mut single = Forest::new(1, Ratio::new(1, 1));
    assert!(single.ignite(Some((0, 0))));
    assert_eq!(single.burn_out(&VonNeumannNeighborhood), 1);
    assert_eq!(single.burned_count(), 1);
}

#[test]
fn test_ignite_strikes_only_trees() {
    let mut forest = Forest::new(3, Ratio::new(1, 1));
    assert!(forest.ignite(Some((1, 1))));
    let struck = snapshot(&forest);
    // A second strike on the burning cell changes nothing.
    assert!(forest.ignite(Some((1, 1))));
    assert_eq!(snapshot(&forest), struck);
    forest.burn_out(&MooreNeighborhood);
    // Neither does a strike on ash; the fire front stays empty.
    assert!(!forest.ignite(Some((1, 1))));
    assert!(!forest.ignite(None));
    assert_eq!(count_cells(&snapshot(&forest), CellState::Burned), 9);
    assert_eq!(forest.burned_count(), 9);
}

#[test]
fn test_ignite_twice_burns_each_cell_once() {
    let mut forest = Forest::new(6, Ratio::new(1, 1));
    assert!(forest.ignite(Some((0, 0))));
    assert!(forest.ignite(Some((5, 5))));
    assert!(forest.ignite(Some((0, 0))));
    assert!(!forest.fire_spread(&VonNeumannNeighborhood));
    assert_eq!(forest.burned_count(), 2);
    assert_eq!(count_cells(&snapshot(&forest), CellState::Burning), 4);
    forest.burn_out(&VonNeumannNeighborhood);
    assert_eq!(forest.burned_count(), 36);
}

#[test]
fn test_random_strike_stays_on_the_grid() {
    let mut single = Forest::new(1, Ratio::new(1, 1));
    assert!(single.ignite(None));
    assert_eq!(single.cell(0, 0), CellState::Burning);

    for _ in 0..200 {
        let mut forest = Forest::new(3, Ratio::new(1, 1));
        assert!(forest.ignite(None));
        let cells = snapshot(&forest);
        assert_eq!(count_cells(&cells, CellState::Burning), 1);
        assert_eq!(count_cells(&cells, CellState::Tree), 8);
    }
}

#[test]
fn test_random_strike_may_miss() {
    let mut hits = 0;
    for _ in 0..300 {
        let mut forest = Forest::new(4, Ratio::new(1, 4));
        let before = snapshot(&forest);
        let burning = forest.ignite(None);
        let after = snapshot(&forest);
        assert_eq!(burning, count_cells(&after, CellState::Burning) == 1);
        if burning {
            hits += 1;
            assert_eq!(count_cells(&after, CellState::Tree), 3);
        } else {
            assert_eq!(after, before);
        }
    }
    assert!(hits > 0 && hits < 300);
}

#[test]
fn test_pick_random_tree_finds_a_tree() {
    for size in 1usize..8 {
        for _ in 0..20 {
            let forest = Forest::new(size, Ratio::new(1, 3));
            match forest.pick_random_tree() {
                Some((x, y)) => {
                    assert!(forest.total_trees() > 0);
                    assert!(x < size && y < size);
                    assert_eq!(forest.cell(x, y), CellState::Tree);
                }
                None => assert_eq!(forest.total_trees(), 0),
            }
        }
    }
}

#[test]
fn test_pick_random_tree_passes_over_burning_and_burned() {
    let mut forest = Forest::new(2, Ratio::new(1, 1));
    assert!(forest.ignite(Some((0, 0))));
    for _ in 0..50 {
        let (x, y) = forest.pick_random_tree().unwrap();
        assert_ne!((x, y), (0, 0));
        assert_eq!(forest.cell(x, y), CellState::Tree);
    }
    forest.burn_out(&MooreNeighborhood);
    assert_eq!(forest.pick_random_tree(), None);
}

#[test]
fn test_pick_random_tree_reaches_every_tree() {
    let forest = Forest::new(2, Ratio::new(1, 1));
    let mut seen = [[false; 2]; 2];
    for _ in 0..400 {
        let (x, y) = forest.pick_random_tree().unwrap();
        seen[x][y] = true;
    }
    assert_eq!(seen, [[true; 2]; 2]);
}

#[test]
fn test_reservoir_keep() {
    assert_eq!(reservoir_keep(None, (1, 2), 0), Some((1, 2)));
    assert_eq!(reservoir_keep(Some((3, 4)), (1, 2), 0), Some((1, 2)));
    assert_eq!(reservoir_keep(Some((3, 4)), (1, 2), 1), Some((3, 4)));
    assert_eq!(reservoir_keep(Some((3, 4)), (1, 2), usize::MAX), Some((3, 4)));
    assert_eq!(reservoir_keep(None, (1, 2), 5), None);
}

#[test]
fn test_each_wave_is_the_expected_one() {
    for round in 0..60 {
        let size = 3 + round % 6;
        let mut forest = Forest::new(size, Ratio::new(3 + (round % 4) as u64, 8));
        let strategy: &dyn FireSpreadStrategy = if round % 2 == 0 {
            &MooreNeighborhood
        } else {
            &VonNeumannNeighborhood
        };
        forest.ignite(forest.pick_random_tree());
        let mut waves = 0;
        loop {
            let before = snapshot(&forest);
            let burned_before = forest.burned_count();
            let quiescent = forest.fire_spread(strategy);
            let after = snapshot(&forest);
            waves += 1;

            assert_eq!(after, expected_wave(&before, strategy));
            assert_eq!(quiescent, count_cells(&after, CellState::Burning) == 0);
            assert_eq!(
                forest.burned_count(),
                burned_before + count_cells(&before, CellState::Burning)
            );
            assert_eq!(forest.burned_count(), count_cells(&after, CellState::Burned));
            assert!(forest.burned_count() <= forest.total_trees());
            for x in 0..size {
                for y in 0..size {
                    assert!(rank(before[x][y]) <= rank(after[x][y]));
                    assert!(rank(after[x][y]) <= rank(before[x][y]) + 1);
                    assert_eq!(before[x][y] == CellState::Empty, after[x][y] == CellState::Empty);
                }
            }
            if quiescent {
                break;
            }
            assert!(waves < size * size);
        }
        assert!(waves <= size * size);
        assert_eq!(
            forest.total_trees(),
            count_cells(&snapshot(&forest), CellState::Tree) + forest.burned_count()
        );
    }
}

#[test]
fn test_fire_out_means_idle_waves() {
    let mut forest = Forest::new(8, Ratio::new(1, 2));
    forest.ignite(forest.pick_random_tree());
    forest.burn_out(&MooreNeighborhood);
    let settled = snapshot(&forest);
    let burned = forest.burned_count();
    for _ in 0..3 {
        assert!(forest.fire_spread(&MooreNeighborhood));
        assert_eq!(snapshot(&forest), settled);
        assert_eq!(forest.burned_count(), burned);
    }
    assert!(burned >= 1 && burned <= forest.total_trees());
}

#[test]
fn test_burned_equals_total_only_when_no_tree_stands() {
    for _ in 0..40 {
        let mut forest = Forest::new(6, Ratio::new(2, 3));
        forest.ignite(forest.pick_random_tree());
        forest.burn_out(&VonNeumannNeighborhood);
        let standing = count_cells(&snapshot(&forest), CellState::Tree);
        assert_eq!(forest.burned_count() == forest.total_trees(), standing == 0);
        assert_eq!(forest.burned_count() + standing, forest.total_trees());
    }
}

#[test]
fn test_empty_grid() {
    let mut forest = Forest::new(0, Ratio::new(1, 1));
    assert_eq!(forest.size(), 0);
    assert_eq!(forest.total_trees(), 0);
    assert_eq!(forest.pick_random_tree(), None);
    assert!(forest.fire_spread(&MooreNeighborhood));
    assert_eq!(forest.burn_out(&MooreNeighborhood), 1);
}

#[test]
fn test_with_trees_at_plants_the_first_cells() {
    let order = vec![(0, 1), (2, 2), (1, 0), (0, 0)];
    let forest = Forest::with_trees_at(3, &order, 3);
    assert_eq!(forest.size(), 3);
    assert_eq!(forest.total_trees(), 3);
    assert_eq!(forest.burned_count(), 0);
    for x in 0..3 {
        for y in 0..3 {
            let expected = if [(0, 1), (2, 2), (1, 0)].contains(&(x, y)) {
                CellState::Tree
            } else {
                CellState::Empty
            };
            assert_eq!(forest.cell(x, y), expected);
        }
    }
    let bare = Forest::with_trees_at(3, &order, 0);
    assert_eq!(count_cells(&snapshot(&bare), CellState::Empty), 9);
    assert_eq!(bare.density(), Ratio::new(0, 9));
    assert_eq!(forest.density(), Ratio::new(3, 9));
}

#[test]
fn test_empty_ground_stops_the_fire() {
    // Two rows of trees with bare ground between them.
    let order = vec![(0, 0), (0, 1), (0, 2), (0, 3), (2, 0), (2, 1), (2, 2), (2, 3)];
    for strategy in [
        &MooreNeighborhood as &dyn FireSpreadStrategy,
        &VonNeumannNeighborhood as &dyn FireSpreadStrategy,
    ] {
        let mut forest = Forest::with_trees_at(4, &order, 8);
        assert!(forest.ignite(Some((0, 1))));
        assert_eq!(forest.burn_out(strategy), 3);
        assert_eq!(forest.burned_count(), 4);
        assert_eq!(forest.total_trees(), 8);
        for y in 0..4 {
            assert_eq!(forest.cell(0, y), CellState::Burned);
            assert_eq!(forest.cell(1, y), CellState::Empty);
            assert_eq!(forest.cell(2, y), CellState::Tree);
            assert_eq!(forest.cell(3, y), CellState::Empty);
        }
        assert_eq!(forest.pick_random_tree().map(|(x, _)| x), Some(2));
    }
}

#[test]
fn test_diagonal_burns_under_eight_directions_only() {
    let order = vec![(0, 0), (1, 1), (2, 2), (3, 3)];

    let mut moore = Forest::with_trees_at(4, &order, 4);
    assert!(moore.ignite(Some((0, 0))));
    assert_eq!(moore.burn_out(&MooreNeighborhood), 4);
    assert_eq!(moore.burned_count(), 4);

    let mut von_neumann = Forest::with_trees_at(4, &order, 4);
    assert!(von_neumann.ignite(Some((0, 0))));
    assert_eq!(von_neumann.burn_out(&VonNeumannNeighborhood), 1);
    assert_eq!(von_neumann.burned_count(), 1);
    assert_eq!(von_neumann.cell(1, 1), CellState::Tree);
}

#[test]
fn test_a_tree_between_two_fires_burns_once() {
    let order = vec![(0, 0), (0, 1), (0, 2)];
    let mut forest = Forest::with_trees_at(3, &order, 3);
    assert!(forest.ignite(Some((0, 0))));
    assert!(forest.ignite(Some((0, 2))));
    assert!(!forest.fire_spread(&VonNeumannNeighborhood));
    assert_eq!(forest.burned_count(), 2);
    assert_eq!(forest.cell(0, 1), CellState::Burning);
    assert!(forest.fire_spread(&VonNeumannNeighborhood));
    assert_eq!(forest.burned_count(), 3);
    assert_eq!(forest.burned_count(), forest.total_trees());
}

#[test]
fn test_strike_on_bare_ground_starts_no_fire() {
    let order = vec![(1, 1)];
    let mut forest = Forest::with_trees_at(3, &order, 1);
    assert!(!forest.ignite(Some((0, 0))));
    assert_eq!(forest.cell(0, 0), CellState::Empty);
    assert!(forest.fire_spread(&MooreNeighborhood));
    assert_eq!(forest.burned_count(), 0);
    assert_eq!(forest.pick_random_tree(), Some((1, 1)));
    assert!(forest.ignite(forest.pick_random_tree()));
    // With the fire front filled, a strike on bare ground still reports it.
    assert!(forest.ignite(Some((0, 0))));
    assert_eq!(forest.burn_out(&MooreNeighborhood), 1);
    assert_eq!(forest.burned_count(), 1);
}
