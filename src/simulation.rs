//! Particle integrator: Verlet motion under a constant acceleration, plus a soft
//! separation from the particles that the grid records near each particle.
//!
//! Collision response: every particle copy that the grid holds in the 3×3×3 block of
//! cells around a particle's own cell, at a position other than the particle's own and
//! closer than `COLLISION_DISTANCE` on every axis, pushes the particle one unit away
//! from it on each axis where the two differ. A copy at the very same position is taken
//! to be the particle itself. The grid is read as it was built, before this tick's
//! motion: each particle's step depends only on its own state and the grid, so steps
//! taken one after another in the buffer agree with steps taken all at once.
use vstd::prelude::*;
use crate::bounds::{bounds_of, BoundsPartition};
use crate::common::{Bounds, ConfigError, IVec3, Particle, MAX_PARTICLES_PER_GRID_CELL};
use crate::grid::{
    axis_cell, coord_on_axis, lemma_coord_in_range, lemma_flat_index_in_range, Grid, GridCell,
    GridPartition,
};

verus! {

/// Two particles closer than this on every axis push each other apart.
pub const COLLISION_DISTANCE: i32 = 2;

/// Number of cells in the block around a particle's own cell.
pub const NEIGHBOURHOOD: usize = 27;

pub open spec fn sign(d: int) -> int {
    if d > 0 {
        1
    } else if d < 0 {
        -1
    } else {
        0
    }
}

pub open spec fn near_on_axis(p: IVec3, q: IVec3, a: int) -> bool {
    -(COLLISION_DISTANCE as int) < p.axis(a) - q.axis(a) < COLLISION_DISTANCE as int
}

/// `q` is another particle close enough to `p` to push it.
pub open spec fn touching(p: IVec3, q: IVec3) -> bool {
    &&& p != q
    &&& near_on_axis(p, q, 0)
    &&& near_on_axis(p, q, 1)
    &&& near_on_axis(p, q, 2)
}

/// Push that `q` gives `p` on axis `a`.
pub open spec fn push_from(p: IVec3, q: IVec3, a: int) -> int {
    if touching(p, q) {
        sign(p.axis(a) - q.axis(a))
    } else {
        0
    }
}

/// Total push on axis `a` from the particles `qs` of one cell.
pub open spec fn push_from_cell(p: IVec3, qs: Seq<Particle>, a: int) -> int
    decreases qs.len(),
{
    if qs.len() == 0 {
        0
    } else {
        push_from_cell(p, qs.drop_last(), a) + push_from(p, qs.last().position, a)
    }
}

/// Offset on axis `a` (each -1, 0 or 1) of the `k`-th cell of the block.
pub open spec fn block_offset(k: int, a: int) -> int {
    if a == 0 {
        k % 3 - 1
    } else if a == 1 {
        (k / 3) % 3 - 1
    } else {
        k / 9 - 1
    }
}

pub open spec fn block_coord(p: IVec3, b: Bounds, g: int, k: int, a: int) -> int {
    coord_on_axis(p, b, g, a) + block_offset(k, a)
}

/// The `k`-th cell of the block lies inside the grid.
pub open spec fn block_cell_exists(p: IVec3, b: Bounds, g: int, k: int) -> bool {
    &&& 0 <= block_coord(p, b, g, k, 0) < g
    &&& 0 <= block_coord(p, b, g, k, 1) < g
    &&& 0 <= block_coord(p, b, g, k, 2) < g
}

pub open spec fn block_cell(p: IVec3, b: Bounds, g: int, k: int) -> int {
    block_coord(p, b, g, k, 0) + block_coord(p, b, g, k, 1) * g + block_coord(p, b, g, k, 2) * g * g
}

/// Push on axis `a` from the first `k` cells of the block.
pub open spec fn push_from_block(p: IVec3, b: Bounds, grid: Grid, k: int, a: int) -> int
    decreases k,
{
    if k <= 0 {
        0
    } else {
        push_from_block(p, b, grid, k - 1, a) + if block_cell_exists(p, b, grid.grid_size as int, k - 1) {
            push_from_cell(p, grid.cell(block_cell(p, b, grid.grid_size as int, k - 1)), a)
        } else {
            0
        }
    }
}

/// Collision push on axis `a`; none under empty bounds, whose grid places nothing.
pub open spec fn collision_push(p: IVec3, b: Bounds, grid: Grid, a: int) -> int {
    if b.is_empty_spec() {
        0
    } else {
        push_from_block(p, b, grid, NEIGHBOURHOOD as int, a)
    }
}

/// Verlet step on axis `a`: `position + (position - old_position) + acceleration * dt²`.
pub open spec fn verlet(p: Particle, dt: int, acceleration: IVec3, a: int) -> int {
    p.position.axis(a) + (p.position.axis(a) - p.old_position.axis(a)) + acceleration.axis(a) * dt * dt
}

/// New coordinate on axis `a` of particle `p` after one tick.
pub open spec fn next_axis(p: Particle, b: Bounds, grid: Grid, dt: int, acceleration: IVec3, a: int) -> int {
    verlet(p, dt, acceleration, a) + collision_push(p.position, b, grid, a)
}

/// Every new coordinate of `p` fits in an `i32`.
pub open spec fn step_fits(p: Particle, b: Bounds, grid: Grid, dt: int, acceleration: IVec3) -> bool {
    forall|a: int|
        0 <= a < 3 ==> i32::MIN <= #[trigger] next_axis(p, b, grid, dt, acceleration, a) <= i32::MAX
}

/// `q` is `p` after one tick.
pub open spec fn is_step_of(q: Particle, p: Particle, b: Bounds, grid: Grid, dt: int, acceleration: IVec3) -> bool {
    &&& q.old_position == p.position
    &&& forall|a: int|
        0 <= a < 3 ==> #[trigger] q.position.axis(a) == next_axis(p, b, grid, dt, acceleration, a)
}

proof fn lemma_push_from_cell_bounded(p: IVec3, qs: Seq<Particle>, a: int)
    ensures
        -qs.len() <= push_from_cell(p, qs, a) <= qs.len(),
    decreases qs.len(),
{
    if qs.len() > 0 {
        lemma_push_from_cell_bounded(p, qs.drop_last(), a);
    }
}

/// Whether `q` is close enough to push `p`.
fn touches(p: IVec3, q: IVec3) -> (r: bool)
    ensures
        r == touching(p, q),
{
    let dx = p.x as i64 - q.x as i64;
    let dy = p.y as i64 - q.y as i64;
    let dz = p.z as i64 - q.z as i64;
    let lim = COLLISION_DISTANCE as i64;
    let r = !(p.x == q.x && p.y == q.y && p.z == q.z) && -lim < dx && dx < lim && -lim < dy && dy
        < lim && -lim < dz && dz < lim;
    proof {
        assert(near_on_axis(p, q, 0) == (-lim < dx && dx < lim));
        assert(near_on_axis(p, q, 1) == (-lim < dy && dy < lim));
        assert(near_on_axis(p, q, 2) == (-lim < dz && dz < lim));
    }
    r
}

fn sign_of(d: i64) -> (r: i64)
    ensures
        r as int == sign(d as int),
{
    if d > 0 {
        1
    } else if d < 0 {
        -1
    } else {
        0
    }
}

/// Push that the particles of one cell give a particle at `p`, on each axis.
fn cell_push(p: IVec3, cell: &GridCell) -> (r: (i64, i64, i64))
    requires
        cell.wf(),
    ensures
        r.0 as int == push_from_cell(p, cell.contents(), 0),
        r.1 as int == push_from_cell(p, cell.contents(), 1),
        r.2 as int == push_from_cell(p, cell.contents(), 2),
{
    let n = cell.len();
    let ghost qs = cell.contents();
    let mut sx: i64 = 0;
    let mut sy: i64 = 0;
    let mut sz: i64 = 0;
    let mut j: usize = 0;
    while j < n
        invariant
            n == qs.len(),
            qs == cell.contents(),
            cell.wf(),
            j <= n,
            n <= MAX_PARTICLES_PER_GRID_CELL,
            sx as int == push_from_cell(p, qs.take(j as int), 0),
            sy as int == push_from_cell(p, qs.take(j as int), 1),
            sz as int == push_from_cell(p, qs.take(j as int), 2),
        decreases n - j,
    {
        proof {
            lemma_push_from_cell_bounded(p, qs.take(j as int), 0);
            lemma_push_from_cell_bounded(p, qs.take(j as int), 1);
            lemma_push_from_cell_bounded(p, qs.take(j as int), 2);
            assert(qs.take(j as int + 1).drop_last() =~= qs.take(j as int));
            assert(qs.take(j as int + 1).last() == qs[j as int]);
        }
        let q = cell.get(j).position;
        if touches(p, q) {
            sx = sx + sign_of(p.x as i64 - q.x as i64);
            sy = sy + sign_of(p.y as i64 - q.y as i64);
            sz = sz + sign_of(p.z as i64 - q.z as i64);
        }
        j = j + 1;
    }
    proof {
        assert(qs.take(n as int) =~= qs);
    }
    (sx, sy, sz)
}


proof fn lemma_push_from_block_bounded(p: IVec3, b: Bounds, grid: Grid, k: int, a: int)
    requires
        grid.wf(),
        0 <= k,
    ensures
        -k * MAX_PARTICLES_PER_GRID_CELL <= push_from_block(p, b, grid, k, a) <= k
            * MAX_PARTICLES_PER_GRID_CELL,
    decreases k,
{
    if k > 0 {
        lemma_push_from_block_bounded(p, b, grid, k - 1, a);
        let g = grid.grid_size as int;
        if block_cell_exists(p, b, g, k - 1) {
            let c = block_cell(p, b, g, k - 1);
            lemma_flat_index_in_range(
                block_coord(p, b, g, k - 1, 0),
                block_coord(p, b, g, k - 1, 1),
                block_coord(p, b, g, k - 1, 2),
                g,
            );
            assert(grid.cells@[c].wf());
            lemma_push_from_cell_bounded(p, grid.cell(c), a);
        }
    }
}

/// Push on each axis from the 3×3×3 block of cells around the cell of `p`.
fn block_push(p: IVec3, b: &Bounds, grid: &Grid) -> (r: (i64, i64, i64))
    requires
        grid.wf(),
    ensures
        r.0 as int == push_from_block(p, *b, *grid, NEIGHBOURHOOD as int, 0),
        r.1 as int == push_from_block(p, *b, *grid, NEIGHBOURHOOD as int, 1),
        r.2 as int == push_from_block(p, *b, *grid, NEIGHBOURHOOD as int, 2),
{
    let g = grid.grid_size;
    let ghost gs = g as int;
    let cx = axis_cell(p.x, b.min.x, b.max.x, g) as i64;
    let cy = axis_cell(p.y, b.min.y, b.max.y, g) as i64;
    let cz = axis_cell(p.z, b.min.z, b.max.z, g) as i64;
    let gi = g as i64;
    proof {
        lemma_coord_in_range(p.axis(0), b.min.axis(0), b.max.axis(0), gs);
        lemma_coord_in_range(p.axis(1), b.min.axis(1), b.max.axis(1), gs);
        lemma_coord_in_range(p.axis(2), b.min.axis(2), b.max.axis(2), gs);
    }
    let mut sx: i64 = 0;
    let mut sy: i64 = 0;
    let mut sz: i64 = 0;
    let mut k: usize = 0;
    while k < NEIGHBOURHOOD
        invariant
            grid.wf(),
            gs == grid.grid_size as int,
            gi as int == gs,
            0 <= cx < gi,
            0 <= cy < gi,
            0 <= cz < gi,
            cx as int == coord_on_axis(p, *b, gs, 0),
            cy as int == coord_on_axis(p, *b, gs, 1),
            cz as int == coord_on_axis(p, *b, gs, 2),
            k <= NEIGHBOURHOOD,
            sx as int == push_from_block(p, *b, *grid, k as int, 0),
            sy as int == push_from_block(p, *b, *grid, k as int, 1),
            sz as int == push_from_block(p, *b, *grid, k as int, 2),
        decreases NEIGHBOURHOOD - k,
    {
        proof {
            lemma_push_from_block_bounded(p, *b, *grid, k as int, 0);
            lemma_push_from_block_bounded(p, *b, *grid, k as int, 1);
            lemma_push_from_block_bounded(p, *b, *grid, k as int, 2);
        }
        let nx = cx + ((k % 3) as i64 - 1);
        let ny = cy + (((k / 3) % 3) as i64 - 1);
        let nz = cz + ((k / 9) as i64 - 1);
        proof {
            assert(nx as int == block_coord(p, *b, gs, k as int, 0));
            assert(ny as int == block_coord(p, *b, gs, k as int, 1));
            assert(nz as int == block_coord(p, *b, gs, k as int, 2));
        }
        if 0 <= nx && nx < gi && 0 <= ny && ny < gi && 0 <= nz && nz < gi {
            proof {
                lemma_flat_index_in_range(nx as int, ny as int, nz as int, gs);
                assert(ny * gi <= gi * gi) by (nonlinear_arith)
                    requires
                        0 <= ny < gi,
                ;
                assert(nz * gi <= gi * gi) by (nonlinear_arith)
                    requires
                        0 <= nz < gi,
                ;
                assert(nz * gi * gi <= gi * gi * gi) by (nonlinear_arith)
                    requires
                        0 <= nz < gi,
                ;
                assert(gi * gi <= gi * gi * gi) by (nonlinear_arith)
                    requires
                        1 <= gi,
                ;
            }
            let idx = (nx + ny * gi + nz * gi * gi) as usize;
            proof {
                let c = block_cell(p, *b, gs, k as int);
                assert(idx as int == c);
                lemma_push_from_cell_bounded(p, grid.cell(c), 0);
                lemma_push_from_cell_bounded(p, grid.cell(c), 1);
                lemma_push_from_cell_bounded(p, grid.cell(c), 2);
                assert(grid.cells@[c].wf());
            }
            let cell = grid.cells[idx];
            let (px, py, pz) = cell_push(p, &cell);
            sx = sx + px;
            sy = sy + py;
            sz = sz + pz;
        }
        k = k + 1;
    }
    (sx, sy, sz)
}


/// One tick of one particle, or `None` when a new coordinate would not fit in an `i32`.
pub fn advance(p: Particle, bounds: &Bounds, grid: &Grid, dt: u32, acceleration: IVec3) -> (r:
    Option<Particle>)
    requires
        grid.wf(),
    ensures
        r is Some <==> step_fits(p, *bounds, *grid, dt as int, acceleration),
        r matches Some(q) ==> is_step_of(q, p, *bounds, *grid, dt as int, acceleration),
{
    let (sx, sy, sz) = if bounds.is_empty() {
        (0i64, 0i64, 0i64)
    } else {
        block_push(p.position, bounds, grid)
    };
    proof {
        lemma_push_from_block_bounded(p.position, *bounds, *grid, NEIGHBOURHOOD as int, 0);
        lemma_push_from_block_bounded(p.position, *bounds, *grid, NEIGHBOURHOOD as int, 1);
        lemma_push_from_block_bounded(p.position, *bounds, *grid, NEIGHBOURHOOD as int, 2);
    }
    let d: i128 = dt as i128;
    assert(d * d <= 0xffff_ffff_ffff_ffff) by (nonlinear_arith)
        requires
            0 <= d <= 0xffff_ffff,
    {
        assert(d * d <= 0xffff_ffff * 0xffff_ffffi128);
    }
    let d2: i128 = d * d;
    let ax = acceleration.x as i128;
    let ay = acceleration.y as i128;
    let az = acceleration.z as i128;
    assert(-0x8000_0000_0000_0000_0000_0000 <= ax * d2 <= 0x8000_0000_0000_0000_0000_0000) by (nonlinear_arith)
        requires
            -0x8000_0000 <= ax <= 0x8000_0000,
            0 <= d2 <= 0xffff_ffff_ffff_ffff,
    {
        assert(ax * d2 <= 0x8000_0000 * 0xffff_ffff_ffff_ffffi128);
        assert(-(0x8000_0000 * 0xffff_ffff_ffff_ffffi128) <= ax * d2);
    }
    assert(-0x8000_0000_0000_0000_0000_0000 <= ay * d2 <= 0x8000_0000_0000_0000_0000_0000) by (nonlinear_arith)
        requires
            -0x8000_0000 <= ay <= 0x8000_0000,
            0 <= d2 <= 0xffff_ffff_ffff_ffff,
    {
        assert(ay * d2 <= 0x8000_0000 * 0xffff_ffff_ffff_ffffi128);
        assert(-(0x8000_0000 * 0xffff_ffff_ffff_ffffi128) <= ay * d2);
    }
    assert(-0x8000_0000_0000_0000_0000_0000 <= az * d2 <= 0x8000_0000_0000_0000_0000_0000) by (nonlinear_arith)
        requires
            -0x8000_0000 <= az <= 0x8000_0000,
            0 <= d2 <= 0xffff_ffff_ffff_ffff,
    {
        assert(az * d2 <= 0x8000_0000 * 0xffff_ffff_ffff_ffffi128);
        assert(-(0x8000_0000 * 0xffff_ffff_ffff_ffffi128) <= az * d2);
    }
    let nx: i128 = 2 * (p.position.x as i128) - p.old_position.x as i128 + ax * d2 + sx as i128;
    let ny: i128 = 2 * (p.position.y as i128) - p.old_position.y as i128 + ay * d2 + sy as i128;
    let nz: i128 = 2 * (p.position.z as i128) - p.old_position.z as i128 + az * d2 + sz as i128;
    proof {
        let dd = dt as int;
        assert(ax * d2 == acceleration.axis(0) * dd * dd) by (nonlinear_arith)
            requires
                ax == acceleration.axis(0),
                d2 == dd * dd,
        ;
        assert(ay * d2 == acceleration.axis(1) * dd * dd) by (nonlinear_arith)
            requires
                ay == acceleration.axis(1),
                d2 == dd * dd,
        ;
        assert(az * d2 == acceleration.axis(2) * dd * dd) by (nonlinear_arith)
            requires
                az == acceleration.axis(2),
                d2 == dd * dd,
        ;
        assert(nx == next_axis(p, *bounds, *grid, dd, acceleration, 0));
        assert(ny == next_axis(p, *bounds, *grid, dd, acceleration, 1));
        assert(nz == next_axis(p, *bounds, *grid, dd, acceleration, 2));
    }
    let lo = i32::MIN as i128;
    let hi = i32::MAX as i128;
    if lo <= nx && nx <= hi && lo <= ny && ny <= hi && lo <= nz && nz <= hi {
        let q = Particle {
            position: IVec3 { x: nx as i32, y: ny as i32, z: nz as i32 },
            old_position: p.position,
        };
        assert(q.position.axis(0) == nx && q.position.axis(1) == ny && q.position.axis(2) == nz);
        Some(q)
    } else {
        proof {
            if lo > nx || nx > hi {
                assert(!(i32::MIN <= next_axis(p, *bounds, *grid, dt as int, acceleration, 0) <= i32::MAX));
            } else if lo > ny || ny > hi {
                assert(!(i32::MIN <= next_axis(p, *bounds, *grid, dt as int, acceleration, 1) <= i32::MAX));
            } else {
                assert(!(i32::MIN <= next_axis(p, *bounds, *grid, dt as int, acceleration, 2) <= i32::MAX));
            }
        }
        None
    }
}

/// Advances every particle by one tick of length `dt` under `acceleration`, with the
/// collision push read from `grid` (built under `bounds` before this tick's motion).
pub fn integrate(
    particles: &mut Vec<Particle>,
    bounds: &Bounds,
    grid: &Grid,
    dt: u32,
    acceleration: IVec3,
)
    requires
        grid.wf(),
        forall|i: int|
            0 <= i < old(particles)@.len() ==> step_fits(
                #[trigger] old(particles)@[i],
                *bounds,
                *grid,
                dt as int,
                acceleration,
            ),
    ensures
        final(particles)@.len() == old(particles)@.len(),
        forall|i: int|
            0 <= i < old(particles)@.len() ==> is_step_of(
                #[trigger] final(particles)@[i],
                old(particles)@[i],
                *bounds,
                *grid,
                dt as int,
                acceleration,
            ),
{
    let ghost before = particles@;
    let n = particles.len();
    let mut i: usize = 0;
    while i < n
        invariant
            grid.wf(),
            n == before.len(),
            particles@.len() == n,
            i <= n,
            forall|j: int|
                0 <= j < n ==> step_fits(#[trigger] before[j], *bounds, *grid, dt as int, acceleration),
            forall|j: int|
                0 <= j < i ==> is_step_of(
                    #[trigger] particles@[j],
                    before[j],
                    *bounds,
                    *grid,
                    dt as int,
                    acceleration,
                ),
            forall|j: int| i <= j < n ==> #[trigger] particles@[j] == before[j],
        decreases n - i,
    {
        let p = particles[i];
        match advance(p, bounds, grid, dt, acceleration) {
            Some(q) => {
                particles.set(i, q);
            },
            None => {
                assert(step_fits(before[i as int], *bounds, *grid, dt as int, acceleration));
            },
        }
        i = i + 1;
    }
}

/// The particle store: every particle's current and previous position.
pub struct Simulation {
    pub particles: Vec<Particle>,
}

impl Simulation {
    /// A store that holds `particles`; it must have room for at least one.
    pub fn new(particles: Vec<Particle>) -> (r: Result<Simulation, ConfigError>)
        ensures
            particles@.len() == 0 <==> r == Err::<Simulation, ConfigError>(ConfigError::NoParticles),
            r matches Ok(s) ==> s.particles@ == particles@,
    {
        if particles.len() == 0 {
            Err(ConfigError::NoParticles)
        } else {
            Ok(Simulation { particles })
        }
    }

    /// Advances every particle by one tick when every new coordinate fits in an `i32`;
    /// otherwise leaves the store as it is and returns `false`.
    pub fn simulate(
        &mut self,
        bounds: &Bounds,
        grid: &Grid,
        delta_time: u32,
        gravity: IVec3,
    ) -> (r: bool)
        requires
            grid.wf(),
        ensures
            r <==> forall|i: int|
                0 <= i < old(self).particles@.len() ==> step_fits(
                    #[trigger] old(self).particles@[i],
                    *bounds,
                    *grid,
                    delta_time as int,
                    gravity,
                ),
            final(self).particles@.len() == old(self).particles@.len(),
            r ==> forall|i: int|
                0 <= i < old(self).particles@.len() ==> is_step_of(
                    #[trigger] final(self).particles@[i],
                    old(self).particles@[i],
                    *bounds,
                    *grid,
                    delta_time as int,
                    gravity,
                ),
            !r ==> final(self).particles@ == old(self).particles@,
    {
        let n = self.particles.len();
        let mut next: Vec<Particle> = Vec::new();
        let mut i: usize = 0;
        while i < n
            invariant
                grid.wf(),
                n == self.particles@.len(),
                i <= n,
                next@.len() == i,
                forall|j: int|
                    0 <= j < i ==> step_fits(
                        #[trigger] self.particles@[j],
                        *bounds,
                        *grid,
                        delta_time as int,
                        gravity,
                    ),
                forall|j: int|
                    0 <= j < i ==> is_step_of(
                        #[trigger] next@[j],
                        self.particles@[j],
                        *bounds,
                        *grid,
                        delta_time as int,
                        gravity,
                    ),
            decreases n - i,
        {
            match advance(self.particles[i], bounds, grid, delta_time, gravity) {
                Some(q) => {
                    next.push(q);
                },
                None => {
                    return false;
                },
            }
            i = i + 1;
        }
        self.particles = next;
        true
    }

    /// One full tick, in the order each stage needs: reset and reduce the bounds,
    /// clear and fill the grid, then integrate against that grid.
    pub fn tick(
        &mut self,
        bounds: &mut BoundsPartition,
        grid: &mut GridPartition,
        delta_time: u32,
        gravity: IVec3,
    ) -> (r: bool)
        requires
            old(grid).grid.wf(),
        ensures
            final(bounds).bounds == bounds_of(old(self).particles@),
            final(grid).grid.grid_size == old(grid).grid.grid_size,
            final(grid).grid.built_from(old(self).particles@, final(bounds).bounds),
            r <==> forall|i: int|
                0 <= i < old(self).particles@.len() ==> step_fits(
                    #[trigger] old(self).particles@[i],
                    final(bounds).bounds,
                    final(grid).grid,
                    delta_time as int,
                    gravity,
                ),
            final(self).particles@.len() == old(self).particles@.len(),
            r ==> forall|i: int|
                0 <= i < old(self).particles@.len() ==> is_step_of(
                    #[trigger] final(self).particles@[i],
                    old(self).particles@[i],
                    final(bounds).bounds,
                    final(grid).grid,
                    delta_time as int,
                    gravity,
                ),
            !r ==> final(self).particles@ == old(self).particles@,
    {
        bounds.calculate_bounds(&self.particles);
        grid.build_grid(&self.particles, &bounds.bounds);
        self.simulate(&bounds.bounds, &grid.grid, delta_time, gravity)
    }
}


/// The grid holds no particle close enough to push `p`.
pub open spec fn no_partner(p: IVec3, grid: Grid) -> bool {
    forall|c: int, j: int|
        0 <= c < grid.cells@.len() && 0 <= j < grid.cell(c).len() ==> !touching(
            p,
            (#[trigger] grid.cell(c)[j]).position,
        )
}

proof fn lemma_cell_push_zero(p: IVec3, qs: Seq<Particle>, a: int)
    requires
        forall|j: int| 0 <= j < qs.len() ==> !touching(p, (#[trigger] qs[j]).position),
    ensures
        push_from_cell(p, qs, a) == 0,
    decreases qs.len(),
{
    if qs.len() > 0 {
        let init = qs.drop_last();
        assert forall|j: int| 0 <= j < init.len() implies !touching(p, (#[trigger] init[j]).position) by {
            assert(init[j] == qs[j]);
        }
        lemma_cell_push_zero(p, init, a);
        assert(!touching(p, qs[qs.len() - 1].position));
    }
}

proof fn lemma_block_push_zero(p: IVec3, b: Bounds, grid: Grid, k: int, a: int)
    requires
        grid.wf(),
        no_partner(p, grid),
    ensures
        push_from_block(p, b, grid, k, a) == 0,
    decreases k,
{
    if k > 0 {
        lemma_block_push_zero(p, b, grid, k - 1, a);
        let g = grid.grid_size as int;
        if block_cell_exists(p, b, g, k - 1) {
            let c = block_cell(p, b, g, k - 1);
            lemma_flat_index_in_range(
                block_coord(p, b, g, k - 1, 0),
                block_coord(p, b, g, k - 1, 1),
                block_coord(p, b, g, k - 1, 2),
                g,
            );
            let qs = grid.cell(c);
            assert forall|j: int| 0 <= j < qs.len() implies !touching(p, (#[trigger] qs[j]).position) by {
                assert(qs[j] == grid.cell(c)[j]);
            }
            lemma_cell_push_zero(p, qs, a);
        }
    }
}

/// A particle at rest (`position == old_position`) with no particle near it in the
/// grid falls freely: after one tick each coordinate has moved by
/// `acceleration * dt²`.
pub proof fn lemma_free_fall(p: Particle, b: Bounds, grid: Grid, dt: int, acceleration: IVec3, a: int)
    requires
        grid.wf(),
        p.position == p.old_position,
        no_partner(p.position, grid),
    ensures
        next_axis(p, b, grid, dt, acceleration, a) == p.position.axis(a) + acceleration.axis(a) * dt
            * dt,
{
    lemma_block_push_zero(p.position, b, grid, NEIGHBOURHOOD as int, a);
}

} // verus!
