use particle_partition::{
    axis_cell, build_grid, cell_index, compute_bounds, Bounds, BoundsPartition, ConfigError, Grid,
    GridPartition, IVec3, Particle, MAX_PARTICLES_PER_GRID_CELL,
};

fn at(x: i32, y: i32, z: i32) -> Particle {
    Particle::at_rest(IVec3::new(x, y, z))
}

fn cell_particles(grid: &Grid, c: usize) -> Vec<Particle> {
    let cell = &grid.cells[c];
    (0..cell.len()).map(|i| cell.get(i)).collect()
}

#[test]
fn bounds_of_three_particles_in_one_cell_grid() {
    let particles = vec![at(16, 32, 64), at(-64, -32, -16), at(-16, -16, 32)];
    let bounds = compute_bounds(&particles);
    assert_eq!(bounds.min, IVec3::new(-64, -32, -16));
    assert_eq!(bounds.max, IVec3::new(16, 32, 64));
    let grid = build_grid(&particles, &bounds, 1);
    assert_eq!(grid.cell_count(), 1);
    assert_eq!(grid.cells[0].len(), 3);
    assert_eq!(grid.dropped, 0);
    assert_eq!(cell_particles(&grid, 0), particles);
}

#[test]
fn full_cell_keeps_four_of_five() {
    let particles = vec![at(0, 0, 0), at(1, 0, 0), at(0, 1, 0), at(0, 0, 1), at(1, 1, 1)];
    let bounds = compute_bounds(&particles);
    let grid = build_grid(&particles, &bounds, 1);
    assert_eq!(MAX_PARTICLES_PER_GRID_CELL, 4);
    assert_eq!(grid.cells[0].len(), 4);
    assert_eq!(grid.dropped, 1);
    let held = cell_particles(&grid, 0);
    for p in held.iter() {
        assert!(particles.contains(p));
    }
    assert_eq!(held, particles[..4].to_vec());
}

#[test]
fn arrival_order_changes_members_of_a_full_cell_only() {
    let particles = vec![at(0, 0, 0), at(1, 0, 0), at(0, 1, 0), at(0, 0, 1), at(1, 1, 1)];
    let mut reversed = particles.clone();
    reversed.reverse();
    let bounds = compute_bounds(&particles);
    let a = build_grid(&particles, &bounds, 1);
    let b = build_grid(&reversed, &bounds, 1);
    assert_eq!(a.cells[0].len(), b.cells[0].len());
    assert_eq!(a.dropped, b.dropped);
    assert!(!cell_particles(&b, 0).contains(&particles[0]));
    assert!(cell_particles(&a, 0).contains(&particles[0]));
}

#[test]
fn arrival_order_keeps_sets_of_cells_under_capacity() {
    let particles = vec![at(-8, -8, -8), at(8, 8, 8), at(-7, -8, -8), at(7, 8, 8), at(0, 0, 0)];
    let shuffled = vec![particles[3], particles[0], particles[4], particles[2], particles[1]];
    let bounds = compute_bounds(&particles);
    let a = build_grid(&particles, &bounds, 2);
    let b = build_grid(&shuffled, &bounds, 2);
    for c in 0..a.cell_count() {
        let mut x = cell_particles(&a, c);
        let mut y = cell_particles(&b, c);
        assert_eq!(x.len(), y.len());
        x.sort_by_key(|p| (p.position.x, p.position.y, p.position.z));
        y.sort_by_key(|p| (p.position.x, p.position.y, p.position.z));
        assert_eq!(x, y);
    }
}

#[test]
fn bounds_contain_every_particle() {
    let particles = vec![at(3, -7, 12), at(-9, 4, 0), at(5, 5, -20), at(0, 11, 1)];
    let bounds = compute_bounds(&particles);
    for p in particles.iter() {
        assert!(bounds.min.x <= p.position.x && p.position.x <= bounds.max.x);
        assert!(bounds.min.y <= p.position.y && p.position.y <= bounds.max.y);
        assert!(bounds.min.z <= p.position.z && p.position.z <= bounds.max.z);
    }
    assert_eq!(bounds.min, IVec3::new(-9, -7, -20));
    assert_eq!(bounds.max, IVec3::new(5, 11, 12));
    assert!(!bounds.is_empty());
}

#[test]
fn empty_particle_set_keeps_sentinel() {
    let particles: Vec<Particle> = Vec::new();
    let bounds = compute_bounds(&particles);
    assert_eq!(bounds, Bounds::empty());
    assert_eq!(bounds.min, IVec3::new(i32::MAX, i32::MAX, i32::MAX));
    assert_eq!(bounds.max, IVec3::new(i32::MIN, i32::MIN, i32::MIN));
    assert!(bounds.is_empty());
}

#[test]
fn single_particle_gives_degenerate_box() {
    let bounds = compute_bounds(&vec![at(4, -5, 6)]);
    assert_eq!(bounds.min, IVec3::new(4, -5, 6));
    assert_eq!(bounds.max, IVec3::new(4, -5, 6));
    let grid = build_grid(&vec![at(4, -5, 6)], &bounds, 3);
    assert_eq!(grid.cells[0].len(), 1);
}

#[test]
fn bounds_twice_and_reordered_agree() {
    let particles = vec![at(1, 2, 3), at(-4, 9, 0), at(7, -1, -6)];
    let first = compute_bounds(&particles);
    let second = compute_bounds(&particles);
    assert_eq!(first, second);
    let reordered = vec![particles[2], particles[0], particles[1]];
    assert_eq!(compute_bounds(&reordered), first);
}

#[test]
fn partition_resets_bounds_each_pass() {
    let mut partition = BoundsPartition::new();
    assert!(partition.bounds.is_empty());
    partition.calculate_bounds(&vec![at(-100, -100, -100), at(100, 100, 100)]);
    assert_eq!(partition.bounds.min, IVec3::new(-100, -100, -100));
    partition.calculate_bounds(&vec![at(1, 2, 3)]);
    assert_eq!(partition.bounds.min, IVec3::new(1, 2, 3));
    assert_eq!(partition.bounds.max, IVec3::new(1, 2, 3));
    partition.calculate_bounds(&Vec::new());
    assert_eq!(partition.bounds, Bounds::empty());
}

#[test]
fn axis_cell_remaps_and_clamps() {
    assert_eq!(axis_cell(0, -10, 10, 4), 2);
    assert_eq!(axis_cell(-10, -10, 10, 4), 0);
    assert_eq!(axis_cell(10, -10, 10, 4), 3);
    assert_eq!(axis_cell(9, -10, 10, 4), 3);
    assert_eq!(axis_cell(-5, -10, 10, 4), 1);
    assert_eq!(axis_cell(-50, -10, 10, 4), 0);
    assert_eq!(axis_cell(50, -10, 10, 4), 3);
    assert_eq!(axis_cell(7, 7, 7, 5), 0);
    assert_eq!(axis_cell(i32::MAX - 1, i32::MIN, i32::MAX, u32::MAX), u32::MAX - 1);
}

#[test]
fn cell_index_is_flat_xyz() {
    let bounds = Bounds { min: IVec3::new(0, 0, 0), max: IVec3::new(40, 40, 40) };
    assert_eq!(cell_index(IVec3::new(0, 0, 0), &bounds, 4), 0);
    assert_eq!(cell_index(IVec3::new(10, 0, 0), &bounds, 4), 1);
    assert_eq!(cell_index(IVec3::new(0, 10, 0), &bounds, 4), 4);
    assert_eq!(cell_index(IVec3::new(0, 0, 10), &bounds, 4), 16);
    assert_eq!(cell_index(IVec3::new(40, 40, 40), &bounds, 4), 63);
    assert_eq!(cell_index(IVec3::new(25, 15, 35), &bounds, 4), 2 + 4 + 48);
}

#[test]
fn every_particle_is_in_its_mapped_cell() {
    let particles = vec![at(0, 0, 0), at(40, 40, 40), at(25, 15, 35), at(12, 31, 2), at(39, 1, 20)];
    let bounds = compute_bounds(&particles);
    let grid = build_grid(&particles, &bounds, 4);
    assert_eq!(grid.cell_count(), 64);
    let mut total = 0;
    for c in 0..grid.cell_count() {
        total += grid.cells[c].len();
        for p in cell_particles(&grid, c) {
            assert_eq!(cell_index(p.position, &bounds, 4), c);
        }
    }
    assert_eq!(total, particles.len());
    for p in particles.iter() {
        let c = cell_index(p.position, &bounds, 4);
        assert!(cell_particles(&grid, c).contains(p));
        let holders = (0..grid.cell_count())
            .filter(|&k| cell_particles(&grid, k).contains(p))
            .count();
        assert_eq!(holders, 1);
    }
}

#[test]
fn counts_never_exceed_capacity() {
    let mut particles = Vec::new();
    for i in 0..12 {
        particles.push(at(i % 2, 0, 0));
    }
    particles.push(at(100, 100, 100));
    let bounds = compute_bounds(&particles);
    let grid = build_grid(&particles, &bounds, 2);
    for c in 0..grid.cell_count() {
        assert!(grid.cells[c].len() <= MAX_PARTICLES_PER_GRID_CELL);
        assert!(grid.cells[c].particles_length as usize <= MAX_PARTICLES_PER_GRID_CELL);
    }
    assert_eq!(grid.cells[0].len(), 4);
    assert_eq!(grid.cells[7].len(), 1);
    assert_eq!(grid.dropped, 8);
}

#[test]
fn rebuild_clears_stale_cells() {
    let mut partition = GridPartition::new(2).unwrap();
    let first = vec![at(0, 0, 0), at(10, 10, 10)];
    let bounds = compute_bounds(&first);
    partition.build_grid(&first, &bounds);
    assert_eq!(partition.grid.cells[0].len(), 1);
    assert_eq!(partition.grid.cells[7].len(), 1);
    let second = vec![at(0, 0, 0), at(1, 1, 1)];
    partition.build_grid(&second, &bounds);
    assert_eq!(partition.grid.cells[0].len(), 2);
    assert_eq!(partition.grid.cells[7].len(), 0);
}

#[test]
fn empty_bounds_leave_grid_empty() {
    let mut partition = GridPartition::new(2).unwrap();
    let particles = vec![at(0, 0, 0), at(10, 10, 10)];
    let bounds = compute_bounds(&particles);
    partition.build_grid(&particles, &bounds);
    partition.build_grid(&particles, &Bounds::empty());
    for c in 0..partition.grid.cell_count() {
        assert_eq!(partition.grid.cells[c].len(), 0);
    }
    assert_eq!(partition.grid.dropped, 0);
}

#[test]
fn grid_size_is_checked() {
    assert!(matches!(GridPartition::new(0), Err(ConfigError::ZeroGridSize)));
    assert!(matches!(GridPartition::new(2000), Err(ConfigError::GridTooLarge)));
    assert!(matches!(GridPartition::new(u32::MAX), Err(ConfigError::GridTooLarge)));
    assert!(matches!(GridPartition::new(1626), Err(ConfigError::GridTooLarge)));
    let grid = GridPartition::new(3).unwrap().grid;
    assert_eq!(grid.grid_size, 3);
    assert_eq!(grid.cell_count(), 27);
}
