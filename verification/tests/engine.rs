use conway_life::conway::{Cell, SimError, Simulation, World};

/// Counts the live cells among the clamped 8-neighborhood of `(x, y)` by
/// scanning the grid directly.
fn brute_neighbors(w: &World, x: usize, y: usize) -> u8 {
    let width = w.width as usize;
    let height = w.height as usize;
    let mut n: u8 = 0;
    for nx in x.saturating_sub(1)..=(x + 1).min(width - 1) {
        for ny in y.saturating_sub(1)..=(y + 1).min(height - 1) {
            if !(nx == x && ny == y) && w.grid[nx][ny].alive {
                n += 1;
            }
        }
    }
    n
}

/// Checks the two consistency invariants: every published neighbor count and
/// every buffered count equal the true count, and the population equals the
/// number of live cells.
fn check_consistency(sim: &Simulation) {
    let w = sim.get_world();
    let mut live: u32 = 0;
    for x in 0..w.width as usize {
        for y in 0..w.height as usize {
            let expect = brute_neighbors(w, x, y);
            assert_eq!(w.grid[x][y].neighbor_count, expect, "cell ({x},{y})");
            assert_eq!(w.grid_buffer[x][y], expect, "buffer ({x},{y})");
            if w.grid[x][y].alive {
                live += 1;
            }
        }
    }
    assert_eq!(sim.get_population(), live);
}

fn cleared(name: &str, width: u32, height: u32) -> Simulation {
    let mut sim = Simulation::new(String::from(name), width, height).unwrap();
    sim.clear();
    sim
}

fn snapshot(sim: &Simulation) -> (Vec<Vec<Cell>>, Vec<Vec<u8>>, u32) {
    (sim.world.grid.clone(), sim.world.grid_buffer.clone(), sim.population)
}

fn alive_pattern(sim: &Simulation) -> Vec<Vec<bool>> {
    sim.world.grid.iter().map(|row| row.iter().map(|c| c.alive).collect()).collect()
}

#[test]
fn new_rejects_zero_dimensions() {
    assert_eq!(
        Simulation::new(String::from("a"), 0, 5).unwrap_err(),
        SimError::InvalidDimensions
    );
    assert_eq!(
        Simulation::new(String::from("a"), 5, 0).unwrap_err(),
        SimError::InvalidDimensions
    );
    assert_eq!(
        Simulation::new(String::from("a"), 0, 0).unwrap_err(),
        SimError::InvalidDimensions
    );
}

#[test]
fn new_randomizes_and_is_consistent() {
    let sim = Simulation::new(String::from("life"), 8, 6).unwrap();
    assert_eq!(sim.get_name(), "life");
    assert_eq!(sim.get_world().width, 8);
    assert_eq!(sim.get_world().height, 6);
    check_consistency(&sim);
}

#[test]
fn clear_kills_everything() {
    let mut sim = Simulation::new(String::from("c"), 6, 4).unwrap();
    sim.clear();
    assert_eq!(sim.get_population(), 0);
    for x in 0..6 {
        for y in 0..4 {
            assert!(!sim.world.grid[x][y].alive);
            assert_eq!(sim.world.grid[x][y].neighbor_count, 0);
            assert_eq!(sim.world.grid_buffer[x][y], 0);
        }
    }
    check_consistency(&sim);
}

#[test]
fn clear_twice_equals_clear_once() {
    let mut sim = Simulation::new(String::from("c"), 7, 5).unwrap();
    sim.clear();
    let once = snapshot(&sim);
    sim.clear();
    assert_eq!(snapshot(&sim), once);
}

#[test]
fn insert_life_is_idempotent() {
    let mut sim = cleared("i", 5, 5);
    sim.insert_life(2, 3);
    assert!(sim.world.grid[2][3].alive);
    assert_eq!(sim.get_population(), 1);
    check_consistency(&sim);
    let first = snapshot(&sim);
    sim.insert_life(2, 3);
    assert_eq!(snapshot(&sim), first);
}

#[test]
fn delete_life_is_idempotent() {
    let mut sim = cleared("d", 5, 5);
    sim.insert_life(1, 1);
    sim.delete_life(1, 1);
    assert!(!sim.world.grid[1][1].alive);
    assert_eq!(sim.get_population(), 0);
    check_consistency(&sim);
    let first = snapshot(&sim);
    sim.delete_life(1, 1);
    assert_eq!(snapshot(&sim), first);
}

#[test]
fn flip_cell_updates_buffer_not_published_counts() {
    let mut sim = cleared("f", 3, 3);
    sim.flip_cell(1, 1).unwrap();
    assert!(sim.world.grid[1][1].alive);
    assert_eq!(sim.get_population(), 1);
    for x in 0..3 {
        for y in 0..3 {
            let expect = if x == 1 && y == 1 { 0 } else { 1 };
            assert_eq!(sim.world.grid_buffer[x][y], expect);
            // Published counts lag until the next synchronizing operation.
            assert_eq!(sim.world.grid[x][y].neighbor_count, 0);
        }
    }
}

#[test]
fn toggle_twice_restores_state() {
    let mut sim = cleared("t", 6, 6);
    sim.insert_life(2, 2);
    sim.insert_life(3, 2);
    sim.insert_life(2, 3);
    let before = snapshot(&sim);
    sim.flip_cell(3, 3).unwrap();
    sim.flip_cell(3, 3).unwrap();
    assert_eq!(snapshot(&sim), before);
    check_consistency(&sim);
}

#[test]
fn out_of_bounds_toggle_fails_and_changes_nothing() {
    let mut sim = cleared("b", 4, 3);
    sim.insert_life(1, 1);
    sim.insert_life(2, 2);
    check_consistency(&sim);
    let before = snapshot(&sim);
    assert_eq!(sim.flip_cell(4, 0).unwrap_err(), SimError::OutOfBounds);
    assert_eq!(sim.flip_cell(0, 3).unwrap_err(), SimError::OutOfBounds);
    assert_eq!(snapshot(&sim), before);
    check_consistency(&sim);
}

#[test]
fn out_of_bounds_insert_and_delete_are_noops() {
    let mut sim = cleared("b", 4, 3);
    sim.insert_life(0, 0);
    let before = snapshot(&sim);
    sim.insert_life(4, 0);
    sim.delete_life(4, 0);
    sim.insert_life(0, 3);
    sim.delete_life(0, 3);
    assert_eq!(snapshot(&sim), before);
}

#[test]
fn blinker_oscillates() {
    let mut sim = cleared("blinker", 3, 3);
    // The middle row.
    sim.insert_life(0, 1);
    sim.insert_life(1, 1);
    sim.insert_life(2, 1);
    let start = alive_pattern(&sim);
    sim.step();
    check_consistency(&sim);
    // Now the middle column.
    for x in 0..3 {
        for y in 0..3 {
            assert_eq!(sim.world.grid[x][y].alive, x == 1, "cell ({x},{y})");
        }
    }
    assert_eq!(sim.get_population(), 3);
    sim.step();
    check_consistency(&sim);
    assert_eq!(alive_pattern(&sim), start);
}

#[test]
fn block_is_stable() {
    let mut sim = cleared("block", 5, 4);
    sim.insert_life(1, 1);
    sim.insert_life(2, 1);
    sim.insert_life(1, 2);
    sim.insert_life(2, 2);
    check_consistency(&sim);
    let before = snapshot(&sim);
    for _ in 0..5 {
        sim.step();
        assert_eq!(snapshot(&sim), before);
        check_consistency(&sim);
    }
}

#[test]
fn lone_cell_dies_and_crowd_thins() {
    let mut sim = cleared("rules", 5, 5);
    sim.insert_life(2, 2);
    sim.step();
    assert_eq!(sim.get_population(), 0);
    check_consistency(&sim);

    // A full 3x3 square: corners survive on 3 neighbors, edges die on 5,
    // the center dies on 8, and the diagonal outside cells are born on 3.
    let mut full = cleared("full", 5, 5);
    for x in 1..4 {
        for y in 1..4 {
            full.insert_life(x, y);
        }
    }
    full.step();
    check_consistency(&full);
    for &(x, y) in &[(1, 1), (3, 1), (1, 3), (3, 3)] {
        assert!(full.world.grid[x][y].alive, "corner ({x},{y})");
    }
    for &(x, y) in &[(2, 2), (2, 1), (1, 2), (3, 2), (2, 3)] {
        assert!(!full.world.grid[x][y].alive, "inner ({x},{y})");
    }
    for &(x, y) in &[(2, 0), (0, 2), (4, 2), (2, 4)] {
        assert!(full.world.grid[x][y].alive, "born ({x},{y})");
    }
}

#[test]
fn dead_cell_with_three_neighbors_is_born() {
    let mut sim = cleared("birth", 4, 4);
    sim.insert_life(0, 0);
    sim.insert_life(1, 0);
    sim.insert_life(0, 1);
    sim.step();
    assert!(sim.world.grid[1][1].alive);
    check_consistency(&sim);
}

#[test]
fn population_tracks_live_cells() {
    let mut sim = cleared("p", 6, 6);
    sim.insert_life(0, 0);
    sim.insert_life(5, 5);
    sim.insert_life(3, 2);
    assert_eq!(sim.get_population(), 3);
    sim.delete_life(0, 0);
    assert_eq!(sim.get_population(), 2);
    sim.flip_cell(3, 2).unwrap();
    assert_eq!(sim.get_population(), 1);
    // A direct toggle leaves the published counts for the next synchronizing
    // operation; the next insert republishes them.
    sim.insert_life(1, 1);
    assert_eq!(sim.get_population(), 2);
    check_consistency(&sim);
}

#[test]
fn getters_report_the_state() {
    let mut sim = cleared("name here", 3, 2);
    assert_eq!(sim.get_name(), "name here");
    assert_eq!(sim.get_population(), 0);
    sim.insert_life(1, 1);
    assert_eq!(sim.get_population(), 1);
    let w = sim.get_world();
    assert_eq!(w.width, 3);
    assert_eq!(w.height, 2);
    assert!(w.grid[1][1].alive);
}
