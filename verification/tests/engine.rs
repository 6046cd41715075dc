use sandpile::world::World;

/// Summing the whole buffer, wide enough that it cannot overflow.
fn grain_total(world: &World) -> u64 {
    world.get_cells().iter().map(|&c| c as u64).sum()
}

#[test]
fn new_seeds_center_of_five_by_five() {
    let world = World::new(5, 5);
    assert_eq!(world.get_index(2, 2), 12);
    for row in 0..5 {
        for col in 0..5 {
            let expected = if row == 2 && col == 2 { 10_000_000 } else { 0 };
            assert_eq!(world.get_cell(row, col), expected);
        }
    }
    assert_eq!(world.get_iteration(), 0);
    assert_eq!(world.get_cells().len(), 25);
}

#[test]
fn index_math_round_trips() {
    let world = World::new(7, 5);
    assert_eq!(world.get_index(2, 3), 17);
    assert_eq!(world.get_coords(17), (2, 3));
    for row in 0..5u32 {
        for col in 0..7u32 {
            let idx = world.get_index(row, col);
            assert_eq!(world.get_coords(idx), (row, col));
        }
    }
}

#[test]
fn index_is_injective_over_grid() {
    let world = World::new(6, 4);
    let mut seen = vec![false; 24];
    for row in 0..4u32 {
        for col in 0..6u32 {
            let idx = world.get_index(row, col);
            assert!(idx < 24);
            assert!(!seen[idx]);
            seen[idx] = true;
        }
    }
}

#[test]
fn neighbors_wrap_on_three_by_three() {
    let world = World::new(3, 3);
    // Cell 0 sits in the top-left corner: left and up wrap.
    assert_eq!(world.get_von_neumann_indexes(0), [2, 1, 6, 3]);
    // Cell 4 is the center: no wrapping.
    assert_eq!(world.get_von_neumann_indexes(4), [3, 5, 1, 7]);
    // Cell 8 sits in the bottom-right corner: right and down wrap.
    assert_eq!(world.get_von_neumann_indexes(8), [7, 6, 5, 2]);
}

#[test]
fn neighbor_relation_is_symmetric() {
    let world = World::new(4, 3);
    for i in 0..12usize {
        for &n in world.get_von_neumann_indexes(i).iter() {
            assert!(world.get_von_neumann_indexes(n).contains(&i));
        }
    }
}

#[test]
fn one_by_one_grid_neighbors_itself() {
    let world = World::new(1, 1);
    assert_eq!(world.get_von_neumann_indexes(0), [0, 0, 0, 0]);
}

#[test]
fn tick_topples_center_of_three_by_three() {
    let mut world = World::new(3, 3);
    world.set_cell(1, 1, 4);
    assert!(world.tick());
    assert_eq!(world.get_iteration(), 1);
    assert_eq!(world.get_cell(1, 1), 0);
    assert_eq!(world.get_cell(0, 1), 1);
    assert_eq!(world.get_cell(2, 1), 1);
    assert_eq!(world.get_cell(1, 0), 1);
    assert_eq!(world.get_cell(1, 2), 1);
    for (row, col) in [(0, 0), (0, 2), (2, 0), (2, 2)] {
        assert_eq!(world.get_cell(row, col), 0);
    }
    // No cell holds four grains any more: the second step is stable.
    assert!(!world.tick());
    assert_eq!(world.get_iteration(), 1);
}

#[test]
fn cell_with_eight_grains_topples_only_once_per_step() {
    let mut world = World::new(3, 3);
    world.set_cell(1, 1, 9);
    assert!(world.tick());
    assert_eq!(world.get_cell(1, 1), 5);
    assert_eq!(world.get_cell(0, 1), 1);
    // The pile is still over the threshold: it topples again next step.
    assert!(world.tick());
    assert_eq!(world.get_cell(1, 1), 1);
    assert_eq!(world.get_cell(0, 1), 2);
    assert_eq!(world.get_iteration(), 2);
}

#[test]
fn tick_conserves_grains() {
    let mut world = World::new(8, 8);
    assert_eq!(grain_total(&world), 10_000_000);
    for _ in 0..50 {
        world.tick();
        assert_eq!(grain_total(&world), 10_000_000);
    }
}

#[test]
fn tick_conserves_grains_on_one_by_one() {
    let mut world = World::new(1, 1);
    // All four neighbors of the only cell are the cell itself, so a
    // topple hands the four grains straight back.
    assert!(world.tick());
    assert_eq!(world.get_cell(0, 0), 10_000_000);
    assert_eq!(world.get_iteration(), 1);
    assert!(world.tick());
    assert_eq!(world.get_cell(0, 0), 10_000_000);
    assert_eq!(world.get_iteration(), 2);
}

#[test]
fn stable_world_stays_bitwise_identical() {
    let mut world = World::new(3, 3);
    world.set_cell(1, 1, 4);
    assert!(world.tick());
    assert!(!world.tick());
    let snapshot = world.get_cells().clone();
    let iteration = world.get_iteration();
    for _ in 0..10 {
        assert!(!world.tick());
        assert_eq!(world.get_cells(), &snapshot);
        assert_eq!(world.get_iteration(), iteration);
    }
}

#[test]
fn compute_steps_zero_is_vacuously_true() {
    let mut world = World::new(4, 4);
    let before = world.get_cells().clone();
    assert!(world.compute_steps(0));
    assert_eq!(world.get_cells(), &before);
    assert_eq!(world.get_iteration(), 0);
}

#[test]
fn compute_steps_stops_at_first_stable_step() {
    let mut world = World::new(3, 3);
    world.set_cell(1, 1, 4);
    // One step topples the center, the second finds the world stable.
    assert!(!world.compute_steps(10));
    assert_eq!(world.get_iteration(), 1);
    // Once stable, further requests advance nothing.
    assert!(!world.compute_steps(5));
    assert_eq!(world.get_iteration(), 1);
}

#[test]
fn compute_steps_true_while_still_evolving() {
    let mut world = World::new(3, 3);
    assert!(world.compute_steps(5));
    assert_eq!(world.get_iteration(), 5);
    assert_eq!(grain_total(&world), 10_000_000);
}

#[test]
fn set_cell_then_get_cell_round_trips() {
    let mut world = World::new(4, 6);
    world.set_cell(5, 3, 42);
    assert_eq!(world.get_cell(5, 3), 42);
    world.set_cell(5, 3, 0);
    assert_eq!(world.get_cell(5, 3), 0);
}

#[test]
fn get_cells_matches_get_cell() {
    let mut world = World::new(3, 2);
    world.set_cell(0, 2, 7);
    let cells = world.get_cells();
    assert_eq!(cells.len(), 6);
    for row in 0..2u32 {
        for col in 0..3u32 {
            assert_eq!(cells[world.get_index(row, col)], world.get_cell(row, col));
        }
    }
}

#[test]
fn render_prints_rows_of_digit_runs() {
    let world = World::new(2, 2);
    assert_eq!(world.render(), "00\n010000000\n");
}

#[test]
fn render_prints_multi_digit_counts_without_delimiters() {
    let mut world = World::new(3, 1);
    world.set_cell(0, 0, 907);
    world.set_cell(0, 1, 10_000_000);
    world.set_cell(0, 2, 0);
    assert_eq!(world.render(), "907100000000\n");
}

#[test]
fn render_after_topple_shows_new_counts() {
    let mut world = World::new(3, 3);
    world.set_cell(1, 1, 4);
    world.tick();
    assert_eq!(world.render(), "010\n101\n010\n");
}
