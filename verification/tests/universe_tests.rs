use phext_life::coordinate::Coordinate;
use phext_life::universe::{colorize, cube_extents, grid_triples, Universe};

#[test]
fn test_small_universe() {
    let u = Universe::small();
    assert!(u.population() > 0);
    assert_eq!(u.total_coordinates(), 3usize.pow(9)); // 19683
}

#[test]
fn test_tick() {
    let mut u = Universe::small();
    let initial_pop = u.population();
    u.tick();
    assert_eq!(u.tick, 1);
    // Population may have changed due to replication
    println!("Pop: {} -> {}", initial_pop, u.population());
}

#[test]
fn medium_universe_sizes() {
    let u = Universe::medium();
    assert_eq!(u.total_coordinates(), 27000);
    assert!(u.population() >= 1 && u.population() <= 1350);
    assert_eq!(u.extents, [5, 5, 5, 3, 3, 3, 2, 2, 2]);
}

#[test]
fn keys_are_coordinate_indices_within_extents() {
    let u = Universe::small();
    for &k in u.programs.keys() {
        assert!(k < u.total_coordinates());
        let c = Coordinate::from_index(k, &u.extents);
        assert_eq!(c.to_index(&u.extents), k);
    }
}

#[test]
fn ticks_keep_population_and_reset_programs() {
    let mut u = Universe::medium();
    let mut last_pop = u.population();
    let mut last_repl = u.total_replications;
    for t in 1..=5u64 {
        u.tick();
        assert_eq!(u.tick, t);
        assert!(u.population() >= last_pop);
        assert!(u.population() <= last_pop + (u.total_replications - last_repl) as usize);
        assert!(u.population() <= u.total_coordinates());
        for p in u.programs.values() {
            assert_eq!((p.ip, p.dp, p.dim, p.energy), (0, 0, 0, 8192));
            assert!(p.age <= u.tick);
            assert!(p.generation <= u.total_replications);
        }
        last_pop = u.population();
        last_repl = u.total_replications;
    }
    assert_eq!(u.total_extinctions, 0);
}

#[test]
fn a_single_replicator_copies_itself() {
    let mut u = Universe::with_fill_count([3; 9], 0);
    assert_eq!(u.population(), 0);
    let mut p = phext_life::program::Program::empty();
    p.instructions[0] = 12; // CopySelf: data[0] is 0, so upward along dimension 0
    p.instructions[1] = 15; // Halt
    let home = Coordinate::origin().to_index(&u.extents);
    u.programs.insert(home, p);
    u.tick();
    assert_eq!(u.population(), 2);
    assert_eq!(u.total_replications, 1);
    let child_key = Coordinate::new([2, 1, 1, 1, 1, 1, 1, 1, 1]).to_index(&u.extents);
    let child = &u.programs[&child_key];
    assert_eq!(child.generation, 1);
    assert_eq!(child.age, 0);
    assert_eq!(u.programs[&home].age, 1);
}

#[test]
fn write_and_read_reach_the_neighbor() {
    let mut u = Universe::with_fill_count([3; 9], 0);
    let mut writer = phext_life::program::Program::empty();
    writer.instructions[0] = 11; // WriteNeighbor: value data[1]
    writer.instructions[1] = 15;
    writer.data[1] = 9;
    let mut target = phext_life::program::Program::empty();
    target.instructions[0] = 15; // halts at once
    target.data[0] = 5;
    let a = Coordinate::origin().to_index(&u.extents);
    let b = Coordinate::new([2, 1, 1, 1, 1, 1, 1, 1, 1]).to_index(&u.extents);
    u.programs.insert(a, writer);
    u.programs.insert(b, target);
    u.tick();
    assert_eq!(u.programs[&b].instructions[0], 9);
    assert_eq!(u.total_replications, 0);

    let mut v = Universe::with_fill_count([3; 9], 0);
    let mut reader = phext_life::program::Program::empty();
    reader.instructions[0] = 10; // ReadNeighbor
    reader.instructions[1] = 15;
    let mut source = phext_life::program::Program::empty();
    source.instructions[0] = 15;
    source.data[0] = 33;
    v.programs.insert(a, reader);
    v.programs.insert(b, source);
    v.tick();
    assert_eq!(v.programs[&a].data[0], 33);
}

#[test]
fn density_counts_every_program_once() {
    let u = Universe::medium();
    for dim in 0..9 {
        let density = u.dimensional_density(dim);
        assert_eq!(density.len(), u.extents[dim] as usize);
        assert_eq!(density.iter().sum::<usize>(), u.population());
    }
}

#[test]
fn density_of_one_program() {
    let mut u = Universe::with_fill_count([3; 9], 0);
    let c = Coordinate::new([3, 1, 2, 1, 1, 1, 1, 1, 1]);
    u.programs.insert(c.to_index(&u.extents), phext_life::program::Program::empty());
    assert_eq!(u.dimensional_density(0), vec![0, 0, 1]);
    assert_eq!(u.dimensional_density(2), vec![0, 1, 0]);
}

#[test]
fn tally_matches_programs() {
    let mut u = Universe::small();
    u.tick();
    u.tick();
    let t = u.tally();
    assert_eq!(t.tick, 2);
    assert_eq!(t.population, u.population());
    assert_eq!(t.total_coordinates, 19683);
    assert_eq!(t.total_age, u.programs.values().map(|p| p.age).sum::<u64>());
    assert_eq!(t.max_generation, u.programs.values().map(|p| p.generation).max().unwrap_or(0));
    assert_eq!(
        t.replicator_count,
        u.programs.values().filter(|p| p.replicator_score() > 0).count()
    );
    assert_eq!(t.total_replications, u.total_replications);
}

#[test]
fn projection_of_one_program() {
    let mut u = Universe::with_fill_count([3; 9], 0);
    let c = Coordinate::new([3, 3, 3, 1, 1, 1, 3, 3, 3]);
    u.programs.insert(c.to_index(&u.extents), phext_life::program::Program::empty());
    // max_sum = 9; x = 9 * 4 / 10 = 3, y = 3 * 4 / 10 = 1, intensity 9 * 255 / 10 = 229
    let grid = u.projection_grid(4, 4);
    assert_eq!(grid.len(), 16);
    assert_eq!(grid[1 * 4 + 3], 229);
    assert_eq!(grid.iter().filter(|&&g| g != 0).count(), 1);
    let rgba = u.render_rgba(4, 4);
    assert_eq!(rgba.len(), 64);
    assert_eq!(&rgba[28..32], &[(229u16 * 157 / 255) as u8, (229u16 * 78 / 255) as u8, (229u16 * 221 / 255) as u8, 255]);
    assert_eq!(&rgba[0..4], &[10, 10, 15, 255]);
}

#[test]
fn projection_intensity_has_a_floor_and_saturates() {
    let mut u = Universe::with_fill_count([3; 9], 0);
    // dimensions 6..9 at 1: intensity 3 * 255 / 10 = 76
    u.programs.insert(Coordinate::origin().to_index(&u.extents), phext_life::program::Program::empty());
    let grid = u.projection_grid(1, 1);
    assert_eq!(grid, vec![76]);
    for k in 1..10usize {
        let c = Coordinate::from_index(k * 3, &u.extents);
        u.programs.insert(c.to_index(&u.extents), phext_life::program::Program::empty());
    }
    assert_eq!(u.projection_grid(1, 1), vec![255]);
}

#[test]
fn colorize_values() {
    assert_eq!(colorize(&vec![0, 255]), vec![10, 10, 15, 255, 157, 78, 221, 255]);
}

#[test]
fn projection_triples_of_occupied_cells() {
    let mut u = Universe::with_fill_count([3; 9], 0);
    assert!(u.projection_2d(4, 4).is_empty());
    let c = Coordinate::new([3, 3, 3, 1, 1, 1, 3, 3, 3]);
    u.programs.insert(c.to_index(&u.extents), phext_life::program::Program::empty());
    // the one program lands at x 3, y 1 with intensity 229
    assert_eq!(u.projection_2d(4, 4), vec![3, 1, 229]);
    u.programs.insert(Coordinate::origin().to_index(&u.extents), phext_life::program::Program::empty());
    // the origin: x = 3 * 4 / 10 = 1, y = 1, intensity 76; row by row it comes first
    assert_eq!(u.projection_2d(4, 4), vec![1, 1, 76, 3, 1, 229]);
    let empty = Universe::with_fill_count([3; 9], 0);
    assert!(empty.projection_2d(0, 0).is_empty());
}

#[test]
fn grid_triples_row_by_row() {
    assert_eq!(grid_triples(&vec![0, 5, 0, 0, 0, 7], 3), vec![1, 0, 5, 2, 1, 7]);
    assert!(grid_triples(&vec![0, 0], 1).is_empty());
    assert_eq!(grid_triples(&vec![9], 1), vec![0, 0, 9]);
}

#[test]
fn zero_extent_universe_is_empty() {
    let mut u = Universe::with_fill_count([3, 3, 0, 3, 3, 3, 3, 3, 3], 0);
    assert_eq!(u.total_coordinates(), 0);
    assert_eq!(u.population(), 0);
    u.tick();
    assert_eq!(u.tick, 1);
    assert_eq!(u.population(), 0);
    assert!(u.dimensional_density(2).is_empty());
    assert_eq!(u.dimensional_density(0), vec![0, 0, 0]);
}

#[test]
fn density_names_only_dimensions() {
    let u = Universe::small();
    assert!(u.density(9).is_empty());
    assert!(u.density(100).is_empty());
    assert_eq!(u.density(4), u.dimensional_density(4));
    assert_eq!(u.density(0).iter().sum::<usize>(), u.population());
}

#[test]
fn placement_puts_fresh_programs_at_the_drawn_coordinates() {
    let draws = vec![
        Coordinate::origin(),
        Coordinate::new([2, 3, 1, 1, 2, 3, 1, 1, 1]),
        Coordinate::origin(),
    ];
    let u = Universe::populate([3; 9], &draws);
    assert_eq!(u.population(), 2);
    for c in &draws {
        let p = &u.programs[&c.to_index(&u.extents)];
        assert_eq!(p.age, 0);
        assert_eq!(p.generation, 0);
        assert_eq!(p.energy, phext_life::program::Program::MAX_STEPS);
        assert!(p.instructions.iter().all(|&i| i < 16));
    }
    let first = &u.programs[&draws[0].to_index(&u.extents)];
    for p in u.programs.values() {
        assert_eq!(p.instructions, first.instructions);
        assert_eq!(p.data, first.data);
        assert_eq!(p.instructions, phext_life::program::Program::random().instructions);
    }
    let none = Universe::populate([3; 9], &vec![]);
    assert_eq!(none.population(), 0);
}

#[test]
fn cube_extents_cap_the_side_at_four() {
    assert_eq!(cube_extents(3), [3; 9]);
    assert_eq!(cube_extents(4), [4; 9]);
    assert_eq!(cube_extents(200), [4; 9]);
    assert_eq!(cube_extents(0), [0; 9]);
}

#[test]
fn every_placed_program_is_the_same() {
    let u = Universe::medium();
    let mut programs = u.programs.values();
    let first = programs.next().unwrap();
    for p in programs {
        assert_eq!(p.instructions, first.instructions);
    }
}
