use particle_partition::{
    advance, build_grid, compute_bounds, integrate, Bounds, BoundsPartition, Cell, ConfigError,
    Grid, GridPartition, IVec3, Material, Particle, Simulation, SimulationDescriptor, Timing,
    COLLISION_DISTANCE,
};

fn at(x: i32, y: i32, z: i32) -> Particle {
    Particle::at_rest(IVec3::new(x, y, z))
}

fn empty_grid() -> Grid {
    GridPartition::new(2).unwrap().grid
}

#[test]
fn free_fall_from_rest() {
    let g = 10;
    let dt = 3;
    let mut particles = vec![at(5, 200, -7)];
    let bounds = compute_bounds(&particles);
    let grid = build_grid(&particles, &bounds, 2);
    integrate(&mut particles, &bounds, &grid, dt, IVec3::new(0, -g, 0));
    assert_eq!(particles[0].position, IVec3::new(5, 200 - g * (dt as i32) * (dt as i32), -7));
    assert_eq!(particles[0].old_position, IVec3::new(5, 200, -7));
}

#[test]
fn verlet_keeps_velocity() {
    let p = Particle { position: IVec3::new(10, 20, 30), old_position: IVec3::new(8, 25, 30) };
    let q = advance(p, &Bounds::empty(), &empty_grid(), 2, IVec3::new(1, 0, -3)).unwrap();
    assert_eq!(q.position, IVec3::new(10 + 2 + 4, 20 - 5, 30 - 12));
    assert_eq!(q.old_position, p.position);
}

#[test]
fn neighbours_push_apart() {
    let mut particles = vec![at(0, 0, 0), at(1, 0, 0)];
    let bounds = compute_bounds(&particles);
    let grid = build_grid(&particles, &bounds, 1);
    integrate(&mut particles, &bounds, &grid, 0, IVec3::new(0, 0, 0));
    assert_eq!(particles[0].position, IVec3::new(-1, 0, 0));
    assert_eq!(particles[1].position, IVec3::new(2, 0, 0));
}

#[test]
fn distant_particles_do_not_push() {
    let mut particles = vec![at(0, 0, 0), at(COLLISION_DISTANCE, 0, 0)];
    let bounds = compute_bounds(&particles);
    let grid = build_grid(&particles, &bounds, 1);
    integrate(&mut particles, &bounds, &grid, 0, IVec3::new(0, 0, 0));
    assert_eq!(particles[0].position, IVec3::new(0, 0, 0));
    assert_eq!(particles[1].position, IVec3::new(COLLISION_DISTANCE, 0, 0));
}

#[test]
fn push_reaches_neighbouring_cells() {
    let mut particles = vec![at(0, 0, 0), at(15, 15, 15), at(16, 16, 16), at(31, 31, 31)];
    let bounds = compute_bounds(&particles);
    let grid = build_grid(&particles, &bounds, 2);
    assert_ne!(
        particle_partition::cell_index(particles[1].position, &bounds, 2),
        particle_partition::cell_index(particles[2].position, &bounds, 2)
    );
    integrate(&mut particles, &bounds, &grid, 0, IVec3::new(0, 0, 0));
    assert_eq!(particles[1].position, IVec3::new(14, 14, 14));
    assert_eq!(particles[2].position, IVec3::new(17, 17, 17));
    assert_eq!(particles[0].position, IVec3::new(0, 0, 0));
}

#[test]
fn stale_grid_is_read() {
    let earlier = vec![at(0, 0, 0), at(1, 0, 0)];
    let bounds = compute_bounds(&earlier);
    let grid = build_grid(&earlier, &bounds, 1);
    let mut particles = vec![at(0, 0, 0), at(10, 0, 0)];
    integrate(&mut particles, &bounds, &grid, 0, IVec3::new(0, 0, 0));
    assert_eq!(particles[0].position, IVec3::new(-1, 0, 0));
    assert_eq!(particles[1].position, IVec3::new(10, 0, 0));
}

#[test]
fn step_out_of_range_is_refused() {
    let p = at(i32::MAX, 0, 0);
    assert!(advance(p, &Bounds::empty(), &empty_grid(), 1, IVec3::new(1, 0, 0)).is_none());
    let mut sim = Simulation::new(vec![at(0, 0, 0), p]).unwrap();
    let bounds = Bounds::empty();
    assert!(!sim.simulate(&bounds, &empty_grid(), 1, IVec3::new(1, 0, 0)));
    assert_eq!(sim.particles, vec![at(0, 0, 0), p]);
}

#[test]
fn simulation_needs_particles() {
    assert!(matches!(Simulation::new(Vec::new()), Err(ConfigError::NoParticles)));
    assert!(Simulation::new(vec![at(1, 1, 1)]).is_ok());
}

#[test]
fn tick_runs_the_pipeline() {
    let mut sim = Simulation::new(vec![at(0, 100, 0), at(50, 0, 50)]).unwrap();
    let mut bounds = BoundsPartition::new();
    let mut grid = GridPartition::new(4).unwrap();
    assert!(sim.tick(&mut bounds, &mut grid, 2, IVec3::new(0, -1, 0)));
    assert_eq!(bounds.bounds.min, IVec3::new(0, 0, 0));
    assert_eq!(bounds.bounds.max, IVec3::new(50, 100, 50));
    assert_eq!(sim.particles[0].position, IVec3::new(0, 96, 0));
    assert_eq!(sim.particles[1].position, IVec3::new(50, -4, 50));
    let total: usize = (0..grid.grid.cell_count()).map(|c| grid.grid.cells[c].len()).sum();
    assert_eq!(total, 2);
    assert!(sim.tick(&mut bounds, &mut grid, 2, IVec3::new(0, -1, 0)));
    assert_eq!(bounds.bounds.min, IVec3::new(0, -4, 0));
    assert_eq!(sim.particles[0].position, IVec3::new(0, 88, 0));
}

#[test]
fn material_codes() {
    assert_eq!(Material::from_u32(0), Some(Material::Air));
    assert_eq!(Material::from_u32(1), Some(Material::Water));
    assert_eq!(Material::from_u32(2), Some(Material::Sand));
    assert_eq!(Material::from_u32(3), Some(Material::Soil));
    assert_eq!(Material::from_u32(4), None);
    assert_eq!(Material::Sand.code(), 2);
    assert_eq!(Cell::new(Material::Water).material(), Some(Material::Water));
}

#[test]
fn descriptor_numbers_cells() {
    let d = SimulationDescriptor { width: 4, height: 3, depth: 2 };
    assert_eq!(d.cell_count(), Some(24));
    assert_eq!(d.coordinates(0), (0, 0, 0));
    assert_eq!(d.coordinates(5), (1, 1, 0));
    assert_eq!(d.coordinates(23), (3, 2, 1));
    let big = SimulationDescriptor { width: 65536, height: 65536, depth: 2 };
    assert_eq!(big.cell_count(), None);
    let flat = SimulationDescriptor { width: 100000, height: 100000, depth: 0 };
    assert_eq!(flat.cell_count(), Some(0));
}

#[test]
fn timing_elapsed() {
    let t = Timing { start: 1_000, end: 3_500_000 };
    assert_eq!(t.elapsed_nanoseconds(), 3_499_000);
}
