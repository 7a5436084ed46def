use conway_life::conway::Simulation;
use rand::rngs::StdRng;
use rand::{Rng, SeedableRng};

fn seeded_bits(seed: u64, n: usize) -> Vec<bool> {
    let mut rng = StdRng::seed_from_u64(seed);
    let mut bits = Vec::with_capacity(n);
    for _ in 0..n {
        bits.push(rng.gen::<bool>());
    }
    bits
}

fn brute_population(sim: &Simulation) -> u32 {
    let w = sim.get_world();
    let mut live: u32 = 0;
    for x in 0..w.width as usize {
        for y in 0..w.height as usize {
            if w.grid[x][y].alive {
                live += 1;
            }
        }
    }
    live
}

#[test]
fn randomize_is_deterministic_given_the_same_source() {
    let mut a = Simulation::new(String::from("a"), 9, 7).unwrap();
    let mut b = Simulation::new(String::from("b"), 9, 7).unwrap();
    a.randomize_from_bits(&seeded_bits(42, 9 * 7));
    b.randomize_from_bits(&seeded_bits(42, 9 * 7));
    assert_eq!(a.world.grid, b.world.grid);
    assert_eq!(a.world.grid_buffer, b.world.grid_buffer);
    assert_eq!(a.get_population(), b.get_population());
}

#[test]
fn randomize_from_bits_follows_the_bits() {
    let mut sim = Simulation::new(String::from("r"), 5, 4).unwrap();
    let bits = seeded_bits(7, 5 * 4);
    sim.randomize_from_bits(&bits);
    let mut live: u32 = 0;
    for x in 0..5usize {
        for y in 0..4usize {
            assert_eq!(sim.world.grid[x][y].alive, bits[x * 4 + y]);
            if bits[x * 4 + y] {
                live += 1;
            }
        }
    }
    assert_eq!(sim.get_population(), live);
}

#[test]
fn randomize_world_keeps_the_invariants() {
    let mut sim = Simulation::new(String::from("w"), 10, 8).unwrap();
    sim.randomize_world();
    assert_eq!(sim.get_world().width, 10);
    assert_eq!(sim.get_world().height, 8);
    assert_eq!(sim.get_population(), brute_population(&sim));
    let w = sim.get_world();
    for x in 0..10usize {
        for y in 0..8usize {
            assert_eq!(w.grid[x][y].neighbor_count, w.grid_buffer[x][y]);
        }
    }
}
