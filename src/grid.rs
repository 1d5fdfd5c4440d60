//! Uniform grid: `grid_size³` cells over the current bounds, each holding copies of
//! up to `MAX_PARTICLES_PER_GRID_CELL` particles.
//!
//! A pass clears every cell, then scatters the particles in buffer order. A particle
//! whose cell is full is left out of the grid and counted in `dropped`; a cell's count
//! stops at its capacity. The clear pass always runs; with empty bounds the scatter
//! pass places nothing.
use vstd::prelude::*;
use vstd::multiset::Multiset;
use crate::common::{Bounds, ConfigError, IVec3, Particle, MAX_PARTICLES_PER_GRID_CELL};

verus! {

broadcast use vstd::seq_lib::group_to_multiset_ensures, vstd::multiset::group_multiset_axioms;

/// Cells per axis that a grid can have: at least one, and few enough that
/// every cell index fits in a `u32`.
pub open spec fn valid_grid_size(g: int) -> bool {
    1 <= g && g * g * g <= u32::MAX as int
}

pub open spec fn cell_total(g: int) -> int {
    g * g * g
}

proof fn lemma_square_fits(g: int)
    requires
        valid_grid_size(g),
    ensures
        g <= g * g <= g * g * g,
{
    assert(g <= g * g <= g * g * g) by (nonlinear_arith)
        requires
            1 <= g,
    ;
}

/// Cell coordinate of `p` on one axis: `(p - lo) / (hi - lo)` stretched over
/// `[0, g)`, with points at or beyond either face clamped to the edge cells.
pub open spec fn cell_coord(p: int, lo: int, hi: int, g: int) -> int {
    if p <= lo {
        0
    } else if p >= hi {
        g - 1
    } else {
        (p - lo) * g / (hi - lo)
    }
}

pub open spec fn coord_on_axis(p: IVec3, b: Bounds, g: int, a: int) -> int {
    cell_coord(p.axis(a), b.min.axis(a), b.max.axis(a), g)
}

/// Flat index `x + y * g + z * g²` of the cell that holds `p`.
pub open spec fn cell_of(p: IVec3, b: Bounds, g: int) -> int {
    coord_on_axis(p, b, g, 0) + coord_on_axis(p, b, g, 1) * g + coord_on_axis(p, b, g, 2) * g * g
}

pub(crate) proof fn lemma_coord_in_range(p: int, lo: int, hi: int, g: int)
    requires
        1 <= g,
    ensures
        0 <= cell_coord(p, lo, hi, g) < g,
{
    if lo < p && p < hi {
        let n = p - lo;
        let d = hi - lo;
        assert(0 <= n * g / d < g) by (nonlinear_arith)
            requires
                0 < n < d,
                1 <= g,
        {
            assert(n * g < d * g);
            assert(n * g / d <= (d * g - 1) / d);
            assert((d * g - 1) / d < g);
        }
    }
}

pub(crate) proof fn lemma_flat_index_in_range(x: int, y: int, z: int, g: int)
    requires
        0 <= x < g,
        0 <= y < g,
        0 <= z < g,
    ensures
        0 <= x + y * g + z * g * g < g * g * g,
{
    assert(0 <= x + y * g + z * g * g < g * g * g) by (nonlinear_arith)
        requires
            0 <= x < g,
            0 <= y < g,
            0 <= z < g,
    {
        assert(y * g <= (g - 1) * g);
        assert(z * g * g <= (g - 1) * g * g);
    }
}

pub proof fn lemma_cell_of_in_range(p: IVec3, b: Bounds, g: int)
    requires
        1 <= g,
    ensures
        0 <= cell_of(p, b, g) < cell_total(g),
{
    lemma_coord_in_range(p.axis(0), b.min.axis(0), b.max.axis(0), g);
    lemma_coord_in_range(p.axis(1), b.min.axis(1), b.max.axis(1), g);
    lemma_coord_in_range(p.axis(2), b.min.axis(2), b.max.axis(2), g);
    lemma_flat_index_in_range(
        coord_on_axis(p, b, g, 0),
        coord_on_axis(p, b, g, 1),
        coord_on_axis(p, b, g, 2),
        g,
    );
}

/// Cell coordinate of `p` on one axis (see `cell_coord`).
pub fn axis_cell(p: i32, lo: i32, hi: i32, g: u32) -> (r: u32)
    requires
        1 <= g,
    ensures
        r as int == cell_coord(p as int, lo as int, hi as int, g as int),
        r < g,
{
    proof {
        lemma_coord_in_range(p as int, lo as int, hi as int, g as int);
    }
    if p <= lo {
        0
    } else if p >= hi {
        g - 1
    } else {
        let n: u64 = (p as i64 - lo as i64) as u64;
        let d: u64 = (hi as i64 - lo as i64) as u64;
        assert(n * (g as u64) <= u64::MAX) by (nonlinear_arith)
            requires
                n < 0x1_0000_0000,
                g < 0x1_0000_0000,
        {
            assert(n * g <= 0xffff_ffff * 0xffff_ffffu64);
        }
        let r: u64 = n * (g as u64) / d;
        r as u32
    }
}

/// Flat index of the cell that holds `p` under bounds `b` (see `cell_of`).
pub fn cell_index(p: IVec3, b: &Bounds, g: u32) -> (r: usize)
    requires
        valid_grid_size(g as int),
    ensures
        r as int == cell_of(p, *b, g as int),
        r < cell_total(g as int),
{
    let x = axis_cell(p.x, b.min.x, b.max.x, g);
    let y = axis_cell(p.y, b.min.y, b.max.y, g);
    let z = axis_cell(p.z, b.min.z, b.max.z, g);
    proof {
        lemma_cell_of_in_range(p, *b, g as int);
        lemma_flat_index_in_range(x as int, y as int, z as int, g as int);
        assert(y as int * g as int <= u32::MAX) by (nonlinear_arith)
            requires
                y < g,
                g * g * g <= u32::MAX,
                1 <= g,
        {
            assert(y * g <= g * g);
            assert(g * g <= g * g * g);
        }
        assert(g as int * g as int <= u32::MAX) by (nonlinear_arith)
            requires
                g * g * g <= u32::MAX,
                1 <= g,
        {
            assert(g * g <= g * g * g);
        }
        assert(z as int * (g as int * g as int) <= u32::MAX) by (nonlinear_arith)
            requires
                z < g,
                g * g * g <= u32::MAX,
                1 <= g,
        {
            assert(z * (g * g) <= g * (g * g));
        }
    }
    let gg: u64 = g as u64 * g as u64;
    let flat: u64 = x as u64 + y as u64 * g as u64 + z as u64 * gg;
    assert(flat as int == x as int + y as int * g as int + z as int * g as int * g as int) by (nonlinear_arith)
        requires
            flat as int == x as int + y as int * g as int + z as int * gg as int,
            gg as int == g as int * g as int,
    {
    }
    flat as usize
}


/// One grid cell: the first `particles_length` slots are valid copies of particles.
#[derive(Clone, Copy, Debug)]
pub struct GridCell {
    pub particles: [Particle; MAX_PARTICLES_PER_GRID_CELL],
    pub particles_length: u32,
}

impl GridCell {
    pub open spec fn wf(self) -> bool {
        self.particles_length as int <= MAX_PARTICLES_PER_GRID_CELL as int
    }

    /// The particles that the cell holds, in slot order.
    pub open spec fn contents(self) -> Seq<Particle> {
        self.particles@.take(self.particles_length as int)
    }

    pub fn empty() -> (r: GridCell)
        ensures
            r.wf(),
            r.contents() == Seq::<Particle>::empty(),
    {
        let z = Particle::zeroed();
        let r = GridCell { particles: [z, z, z, z], particles_length: 0 };
        assert(r.contents() =~= Seq::<Particle>::empty());
        r
    }

    /// Number of particles that the cell holds.
    pub fn len(&self) -> (r: usize)
        requires
            self.wf(),
        ensures
            r == self.contents().len(),
    {
        self.particles_length as usize
    }

    /// The particle in slot `i`.
    pub fn get(&self, i: usize) -> (r: Particle)
        requires
            self.wf(),
            i < self.contents().len(),
        ensures
            r == self.contents()[i as int],
    {
        self.particles[i]
    }

    /// Puts `p` in the next free slot; a full cell is left as it is.
    pub fn push(&mut self, p: Particle) -> (placed: bool)
        requires
            old(self).wf(),
        ensures
            final(self).wf(),
            placed == (old(self).contents().len() < MAX_PARTICLES_PER_GRID_CELL),
            placed ==> final(self).contents() == old(self).contents().push(p),
            !placed ==> *final(self) == *old(self),
    {
        if (self.particles_length as usize) < MAX_PARTICLES_PER_GRID_CELL {
            let slot = self.particles_length as usize;
            let ghost before = self.contents();
            self.particles[slot] = p;
            self.particles_length = self.particles_length + 1;
            assert(self.contents() =~= before.push(p));
            true
        } else {
            false
        }
    }
}

/// The particles of `ps` whose cell is `c`, in buffer order.
pub open spec fn members(ps: Seq<Particle>, b: Bounds, g: int, c: int) -> Seq<Particle>
    decreases ps.len(),
{
    if ps.len() == 0 {
        Seq::empty()
    } else {
        let m = members(ps.drop_last(), b, g, c);
        if cell_of(ps.last().position, b, g) == c {
            m.push(ps.last())
        } else {
            m
        }
    }
}

/// What cell `c` holds after a pass over `ps`: its members up to the capacity,
/// or nothing when the bounds are empty.
pub open spec fn placed(ps: Seq<Particle>, b: Bounds, g: int, c: int) -> Seq<Particle> {
    if b.is_empty_spec() {
        Seq::empty()
    } else {
        let m = members(ps, b, g, c);
        if m.len() <= MAX_PARTICLES_PER_GRID_CELL {
            m
        } else {
            m.take(MAX_PARTICLES_PER_GRID_CELL as int)
        }
    }
}

/// How many particles of `ps` come before the one at `k` in its own cell.
pub open spec fn rank(ps: Seq<Particle>, b: Bounds, g: int, k: int) -> int {
    members(ps.take(k), b, g, cell_of(ps[k].position, b, g)).len() as int
}

/// Number of particles that a pass over `ps` leaves out because their cell was full.
pub open spec fn dropped_count(ps: Seq<Particle>, b: Bounds, g: int) -> nat
    decreases ps.len(),
{
    if ps.len() == 0 || b.is_empty_spec() {
        0
    } else {
        let k = ps.len() - 1;
        dropped_count(ps.drop_last(), b, g) + if rank(ps, b, g, k)
            >= MAX_PARTICLES_PER_GRID_CELL {
            1nat
        } else {
            0nat
        }
    }
}

/// `grid_size³` cells, flat-indexed as `x + y * grid_size + z * grid_size²`.
pub struct Grid {
    pub grid_size: u32,
    pub cells: Vec<GridCell>,
    /// Particles that the last pass left out because their cell was full.
    pub dropped: usize,
}

impl Grid {
    pub open spec fn wf(self) -> bool {
        &&& valid_grid_size(self.grid_size as int)
        &&& self.cells@.len() == cell_total(self.grid_size as int)
        &&& forall|c: int| 0 <= c < self.cells@.len() ==> (#[trigger] self.cells@[c]).wf()
    }

    /// What cell `c` holds.
    pub open spec fn cell(self, c: int) -> Seq<Particle> {
        self.cells@[c].contents()
    }

    /// `self` is the grid that a pass over `ps` under bounds `b` produces.
    pub open spec fn built_from(self, ps: Seq<Particle>, b: Bounds) -> bool {
        &&& self.wf()
        &&& forall|c: int|
            0 <= c < cell_total(self.grid_size as int) ==> #[trigger] self.cell(c) == placed(
                ps,
                b,
                self.grid_size as int,
                c,
            )
        &&& self.dropped == dropped_count(ps, b, self.grid_size as int)
    }

    /// A grid of empty cells.
    pub fn new(grid_size: u32) -> (r: Grid)
        requires
            valid_grid_size(grid_size as int),
        ensures
            r.wf(),
            r.grid_size == grid_size,
            r.dropped == 0,
            forall|c: int| 0 <= c < r.cells@.len() ==> #[trigger] r.cell(c) == Seq::<Particle>::empty(),
    {
        proof {
            lemma_square_fits(grid_size as int);
        }
        let total: usize = (grid_size as u64 * grid_size as u64 * grid_size as u64) as usize;
        let mut cells: Vec<GridCell> = Vec::new();
        let mut i: usize = 0;
        while i < total
            invariant
                total as int == cell_total(grid_size as int),
                i <= total,
                cells@.len() == i,
                forall|c: int| 0 <= c < i ==> (#[trigger] cells@[c]).wf() && cells@[c].contents()
                    == Seq::<Particle>::empty(),
            decreases total - i,
        {
            cells.push(GridCell::empty());
            i = i + 1;
        }
        Grid { grid_size, cells, dropped: 0 }
    }

    /// Number of cells.
    pub fn cell_count(&self) -> (r: usize)
        requires
            self.wf(),
        ensures
            r == cell_total(self.grid_size as int),
    {
        self.cells.len()
    }

    /// Sets every cell's count to zero.
    pub fn clear(&mut self)
        requires
            old(self).wf(),
        ensures
            final(self).wf(),
            final(self).grid_size == old(self).grid_size,
            final(self).dropped == 0,
            forall|c: int|
                0 <= c < final(self).cells@.len() ==> #[trigger] final(self).cell(c) == Seq::<
                    Particle,
                >::empty(),
    {
        let n = self.cells.len();
        let ghost g = self.grid_size;
        let mut i: usize = 0;
        while i < n
            invariant
                g == old(self).grid_size,
                self.grid_size == g,
                n == self.cells@.len(),
                i <= n,
                valid_grid_size(self.grid_size as int),
                self.cells@.len() == cell_total(self.grid_size as int),
                forall|c: int| 0 <= c < n ==> (#[trigger] self.cells@[c]).wf(),
                forall|c: int|
                    0 <= c < i ==> (#[trigger] self.cells@[c]).contents() == Seq::<Particle>::empty(),
            decreases n - i,
        {
            let mut cell = self.cells[i];
            cell.particles_length = 0;
            assert(cell.contents() =~= Seq::<Particle>::empty());
            self.cells.set(i, cell);
            i = i + 1;
        }
        self.dropped = 0;
    }
}


/// What one more particle does to the members of every cell and to the drop count.
proof fn lemma_scatter_step(ps: Seq<Particle>, b: Bounds, g: int, i: int)
    requires
        0 <= i < ps.len(),
        !b.is_empty_spec(),
    ensures
        forall|c: int|
            #[trigger] members(ps.take(i + 1), b, g, c) == if cell_of(ps[i].position, b, g) == c {
                members(ps.take(i), b, g, c).push(ps[i])
            } else {
                members(ps.take(i), b, g, c)
            },
        dropped_count(ps.take(i + 1), b, g) == dropped_count(ps.take(i), b, g) + if members(
            ps.take(i),
            b,
            g,
            cell_of(ps[i].position, b, g),
        ).len() >= MAX_PARTICLES_PER_GRID_CELL {
            1nat
        } else {
            0nat
        },
{
    let next = ps.take(i + 1);
    assert(next.drop_last() =~= ps.take(i));
    assert(next.last() == ps[i]);
    assert(next.take(i) =~= ps.take(i));
    assert(next[i] == ps[i]);
    assert forall|c: int|
        #[trigger] members(ps.take(i + 1), b, g, c) == if cell_of(ps[i].position, b, g) == c {
            members(ps.take(i), b, g, c).push(ps[i])
        } else {
            members(ps.take(i), b, g, c)
        } by {
        assert(members(next, b, g, c) == {
            let m = members(next.drop_last(), b, g, c);
            if cell_of(next.last().position, b, g) == c {
                m.push(next.last())
            } else {
                m
            }
        });
    }
    assert(rank(next, b, g, i) == members(ps.take(i), b, g, cell_of(ps[i].position, b, g)).len());
}

pub proof fn lemma_dropped_at_most_len(ps: Seq<Particle>, b: Bounds, g: int)
    ensures
        dropped_count(ps, b, g) <= ps.len(),
    decreases ps.len(),
{
    if ps.len() > 0 && !b.is_empty_spec() {
        lemma_dropped_at_most_len(ps.drop_last(), b, g);
    }
}

impl Grid {
    /// Runs a full pass: clears every cell, then scatters `particles` in buffer order
    /// into the cells that `bounds` maps them to. With empty bounds nothing is placed.
    pub fn rebuild(&mut self, particles: &Vec<Particle>, bounds: &Bounds)
        requires
            old(self).wf(),
        ensures
            final(self).grid_size == old(self).grid_size,
            final(self).built_from(particles@, *bounds),
    {
        self.clear();
        let ghost ps = particles@;
        let ghost gs = self.grid_size as int;
        if bounds.is_empty() {
            return;
        }
        let g = self.grid_size;
        let mut i: usize = 0;
        proof {
            assert forall|c: int| 0 <= c < cell_total(gs) implies (#[trigger] self.cells@[c]).contents()
                == placed(ps.take(0), *bounds, gs, c) by {
                assert(self.cell(c) == Seq::<Particle>::empty());
                assert(ps.take(0).len() == 0);
            }
        }
        while i < particles.len()
            invariant
                ps == particles@,
                gs == g as int,
                self.grid_size == g,
                self.wf(),
                !bounds.is_empty_spec(),
                i <= ps.len(),
                forall|c: int|
                    0 <= c < cell_total(gs) ==> (#[trigger] self.cells@[c]).contents() == placed(
                        ps.take(i as int),
                        *bounds,
                        gs,
                        c,
                    ),
                self.dropped == dropped_count(ps.take(i as int), *bounds, gs),
            decreases ps.len() - i,
        {
            let p = particles[i];
            let c = cell_index(p.position, bounds, g);
            let mut cell = self.cells[c];
            let ghost before = self.cells@;
            proof {
                lemma_scatter_step(ps, *bounds, gs, i as int);
                lemma_dropped_at_most_len(ps.take(i as int), *bounds, gs);
            }
            let was_placed = cell.push(p);
            self.cells.set(c, cell);
            if !was_placed {
                self.dropped = self.dropped + 1;
            }
            proof {
                let m = members(ps.take(i as int), *bounds, gs, c as int);
                let m2 = members(ps.take(i as int + 1), *bounds, gs, c as int);
                assert(m2 == m.push(p));
                if !was_placed {
                    assert(m2.take(MAX_PARTICLES_PER_GRID_CELL as int) =~= m.take(
                        MAX_PARTICLES_PER_GRID_CELL as int,
                    ));
                }
                assert forall|k: int| 0 <= k < cell_total(gs) implies (
                #[trigger] self.cells@[k]).contents() == placed(
                    ps.take(i as int + 1),
                    *bounds,
                    gs,
                    k,
                ) by {
                    if k != c as int {
                        assert(self.cells@[k] == before[k]);
                    }
                }
            }
            i = i + 1;
        }
        proof {
            assert(ps.take(ps.len() as int) =~= ps);
        }
    }
}

/// Builds a fresh grid of `grid_size³` cells from the particles and the bounds.
pub fn build_grid(particles: &Vec<Particle>, bounds: &Bounds, grid_size: u32) -> (r: Grid)
    requires
        valid_grid_size(grid_size as int),
    ensures
        r.grid_size == grid_size,
        r.built_from(particles@, *bounds),
{
    let mut grid = Grid::new(grid_size);
    grid.rebuild(particles, bounds);
    grid
}

/// Holds the grid that each pass overwrites.
pub struct GridPartition {
    pub grid: Grid,
}

impl GridPartition {
    /// A partition with `grid_size³` empty cells; the size must be positive and
    /// small enough for a `u32` cell index.
    pub fn new(grid_size: u32) -> (r: Result<GridPartition, ConfigError>)
        ensures
            grid_size == 0 <==> r == Err::<GridPartition, ConfigError>(ConfigError::ZeroGridSize),
            (grid_size > 0 && !valid_grid_size(grid_size as int)) <==> r == Err::<
                GridPartition,
                ConfigError,
            >(ConfigError::GridTooLarge),
            r is Ok <==> valid_grid_size(grid_size as int),
            r matches Ok(part) ==> part.grid.wf() && part.grid.grid_size == grid_size,
    {
        if grid_size == 0 {
            return Err(ConfigError::ZeroGridSize);
        }
        let g = grid_size as u64;
        assert(g * g <= u64::MAX) by (nonlinear_arith)
            requires
                g <= u32::MAX,
        {
            assert(g * g <= 0xffff_ffff * 0xffff_ffffu64);
        }
        let square = g * g;
        if square > u32::MAX as u64 {
            proof {
                assert(g * g <= g * g * g) by (nonlinear_arith)
                    requires
                        1 <= g,
                ;
            }
            return Err(ConfigError::GridTooLarge);
        }
        assert(square * g <= u64::MAX) by (nonlinear_arith)
            requires
                square <= u32::MAX,
                g <= u32::MAX,
        {
            assert(square * g <= 0xffff_ffff * 0xffff_ffffu64);
        }
        if square * g > u32::MAX as u64 {
            return Err(ConfigError::GridTooLarge);
        }
        Ok(GridPartition { grid: Grid::new(grid_size) })
    }

    /// Clears the grid and scatters the particles into it.
    pub fn build_grid(&mut self, particles: &Vec<Particle>, bounds: &Bounds)
        requires
            old(self).grid.wf(),
        ensures
            final(self).grid.grid_size == old(self).grid.grid_size,
            final(self).grid.built_from(particles@, *bounds),
    {
        self.grid.rebuild(particles, bounds);
    }
}


/// The test "the particle's cell is `c`".
pub open spec fn in_cell(b: Bounds, g: int, c: int) -> spec_fn(Particle) -> bool {
    |p: Particle| cell_of(p.position, b, g) == c
}

proof fn lemma_members_in_cell(ps: Seq<Particle>, b: Bounds, g: int, c: int)
    ensures
        forall|j: int|
            0 <= j < members(ps, b, g, c).len() ==> cell_of(
                (#[trigger] members(ps, b, g, c)[j]).position,
                b,
                g,
            ) == c,
    decreases ps.len(),
{
    if ps.len() > 0 {
        let init = ps.drop_last();
        lemma_members_in_cell(init, b, g, c);
        let m = members(init, b, g, c);
        if cell_of(ps.last().position, b, g) == c {
            assert forall|j: int| 0 <= j < m.push(ps.last()).len() implies cell_of(
                (#[trigger] m.push(ps.last())[j]).position,
                b,
                g,
            ) == c by {
                if j < m.len() {
                    assert(m.push(ps.last())[j] == m[j]);
                }
            }
        }
    }
}

proof fn lemma_members_prefix(ps: Seq<Particle>, b: Bounds, g: int, c: int, k: int)
    requires
        0 <= k <= ps.len(),
    ensures
        members(ps.take(k), b, g, c).len() <= members(ps, b, g, c).len(),
        forall|j: int|
            0 <= j < members(ps.take(k), b, g, c).len() ==> #[trigger] members(ps.take(k), b, g, c)[j]
                == members(ps, b, g, c)[j],
    decreases ps.len(),
{
    if k == ps.len() {
        assert(ps.take(k) =~= ps);
    } else {
        let init = ps.drop_last();
        assert(ps.take(k) =~= init.take(k));
        lemma_members_prefix(init, b, g, c, k);
    }
}

proof fn lemma_members_multiset(ps: Seq<Particle>, b: Bounds, g: int, c: int)
    ensures
        members(ps, b, g, c).to_multiset() =~= ps.to_multiset().filter(in_cell(b, g, c)),
    decreases ps.len(),
{
    if ps.len() == 0 {
        assert(ps.to_multiset() =~= Multiset::<Particle>::empty());
        assert(members(ps, b, g, c).to_multiset() =~= Multiset::<Particle>::empty());
    } else {
        let init = ps.drop_last();
        let p = ps.last();
        lemma_members_multiset(init, b, g, c);
        assert(ps =~= init.push(p));
        assert(ps.to_multiset() =~= init.to_multiset().insert(p));
        let m = members(init, b, g, c);
        if cell_of(p.position, b, g) == c {
            assert(m.push(p).to_multiset() =~= m.to_multiset().insert(p));
        }
    }
}

proof fn lemma_take_sub_multiset(s: Seq<Particle>, n: int)
    requires
        0 <= n <= s.len(),
    ensures
        s.take(n).to_multiset().subset_of(s.to_multiset()),
    decreases s.len(),
{
    if n == s.len() {
        assert(s.take(n) =~= s);
    } else {
        let init = s.drop_last();
        assert(s.take(n) =~= init.take(n));
        lemma_take_sub_multiset(init, n);
        assert(s =~= init.push(s.last()));
        assert(s.to_multiset() =~= init.to_multiset().insert(s.last()));
    }
}

/// No cell ever holds more particles than its capacity.
pub proof fn lemma_cell_within_capacity(ps: Seq<Particle>, b: Bounds, g: int, c: int)
    ensures
        placed(ps, b, g, c).len() <= MAX_PARTICLES_PER_GRID_CELL,
{
}

/// Every particle in cell `c` is one of the particles whose cell is `c`.
pub proof fn lemma_cell_holds_only_its_particles(ps: Seq<Particle>, b: Bounds, g: int, c: int)
    ensures
        forall|j: int|
            0 <= j < placed(ps, b, g, c).len() ==> cell_of(
                (#[trigger] placed(ps, b, g, c)[j]).position,
                b,
                g,
            ) == c,
        placed(ps, b, g, c).to_multiset().subset_of(ps.to_multiset().filter(in_cell(b, g, c))),
{
    lemma_members_in_cell(ps, b, g, c);
    lemma_members_multiset(ps, b, g, c);
    let m = members(ps, b, g, c);
    if !b.is_empty_spec() && m.len() > MAX_PARTICLES_PER_GRID_CELL {
        lemma_take_sub_multiset(m, MAX_PARTICLES_PER_GRID_CELL as int);
    }
    if b.is_empty_spec() {
        assert(placed(ps, b, g, c).to_multiset() =~= Multiset::<Particle>::empty());
    }
}

/// A particle that is not dropped lies in exactly one cell: the one that the
/// position-to-cell mapping gives, in the slot that its arrival order gives; no
/// other cell holds it.
pub proof fn lemma_particle_in_its_cell(ps: Seq<Particle>, b: Bounds, g: int, k: int)
    requires
        valid_grid_size(g),
        !b.is_empty_spec(),
        0 <= k < ps.len(),
        rank(ps, b, g, k) < MAX_PARTICLES_PER_GRID_CELL,
    ensures
        0 <= cell_of(ps[k].position, b, g) < cell_total(g),
        rank(ps, b, g, k) < placed(ps, b, g, cell_of(ps[k].position, b, g)).len(),
        placed(ps, b, g, cell_of(ps[k].position, b, g))[rank(ps, b, g, k)] == ps[k],
        forall|c: int|
            0 <= c < cell_total(g) && c != cell_of(ps[k].position, b, g) ==> !(#[trigger] placed(
                ps,
                b,
                g,
                c,
            ).contains(ps[k])),
{
    let c = cell_of(ps[k].position, b, g);
    let r = rank(ps, b, g, k);
    lemma_cell_of_in_range(ps[k].position, b, g);
    lemma_scatter_step(ps, b, g, k);
    lemma_members_prefix(ps, b, g, c, k + 1);
    let m_next = members(ps.take(k + 1), b, g, c);
    assert(m_next == members(ps.take(k), b, g, c).push(ps[k]));
    assert(m_next[r] == ps[k]);
    assert(members(ps, b, g, c)[r] == ps[k]);
    assert forall|c2: int|
        0 <= c2 < cell_total(g) && c2 != c implies !(#[trigger] placed(ps, b, g, c2).contains(
            ps[k],
        )) by {
        lemma_cell_holds_only_its_particles(ps, b, g, c2);
        if placed(ps, b, g, c2).contains(ps[k]) {
            let j = choose|j: int| 0 <= j < placed(ps, b, g, c2).len() && placed(ps, b, g, c2)[j] == ps[k];
            assert(cell_of(placed(ps, b, g, c2)[j].position, b, g) == c2);
        }
    }
}

/// Arrival order does not change what the grid records per cell: two passes over
/// the same particles in any two orders give every cell the same count, and a cell
/// that did not overflow the same particles. A cell that overflowed holds, either
/// way, `MAX_PARTICLES_PER_GRID_CELL` of the particles that map to it.
pub proof fn lemma_grid_ignores_order(ps1: Seq<Particle>, ps2: Seq<Particle>, b: Bounds, g: int, c: int)
    requires
        ps1.to_multiset() == ps2.to_multiset(),
    ensures
        placed(ps1, b, g, c).len() == placed(ps2, b, g, c).len(),
        members(ps1, b, g, c).len() == members(ps2, b, g, c).len(),
        members(ps1, b, g, c).len() <= MAX_PARTICLES_PER_GRID_CELL ==> placed(ps1, b, g, c).to_multiset()
            == placed(ps2, b, g, c).to_multiset(),
        !b.is_empty_spec() && members(ps1, b, g, c).len() >= MAX_PARTICLES_PER_GRID_CELL
            ==> placed(ps1, b, g, c).len() == MAX_PARTICLES_PER_GRID_CELL,
{
    lemma_members_multiset(ps1, b, g, c);
    lemma_members_multiset(ps2, b, g, c);
    let m1 = members(ps1, b, g, c);
    let m2 = members(ps2, b, g, c);
    assert(m1.len() == m1.to_multiset().len());
    assert(m2.len() == m2.to_multiset().len());
    if b.is_empty_spec() {
        assert(placed(ps1, b, g, c) =~= placed(ps2, b, g, c));
    }
}


/// Particles that cells `0..n` turned away: members beyond what each cell holds.
pub open spec fn overflow_sum(ps: Seq<Particle>, b: Bounds, g: int, n: int) -> int
    decreases n,
{
    if n <= 0 {
        0
    } else {
        overflow_sum(ps, b, g, n - 1) + (members(ps, b, g, n - 1).len() - placed(ps, b, g, n - 1).len())
    }
}

proof fn lemma_overflow_sum_step(ps: Seq<Particle>, b: Bounds, g: int, n: int)
    requires
        ps.len() > 0,
        !b.is_empty_spec(),
        0 <= n,
    ensures
        overflow_sum(ps, b, g, n) == overflow_sum(ps.drop_last(), b, g, n) + if 0 <= cell_of(
            ps.last().position,
            b,
            g,
        ) < n && members(ps.drop_last(), b, g, cell_of(ps.last().position, b, g)).len()
            >= MAX_PARTICLES_PER_GRID_CELL {
            1int
        } else {
            0int
        },
    decreases n,
{
    if n > 0 {
        lemma_overflow_sum_step(ps, b, g, n - 1);
        let init = ps.drop_last();
        let c = n - 1;
        let m = members(init, b, g, c);
        if cell_of(ps.last().position, b, g) == c {
            assert(members(ps, b, g, c) == m.push(ps.last()));
            if m.len() >= MAX_PARTICLES_PER_GRID_CELL {
                assert(m.push(ps.last()).take(MAX_PARTICLES_PER_GRID_CELL as int) =~= m.take(
                    MAX_PARTICLES_PER_GRID_CELL as int,
                ));
            }
        } else {
            assert(members(ps, b, g, c) == m);
        }
    }
}

/// Every particle that a pass leaves out is counted: the drop count equals, summed
/// over all cells, the particles mapped to a cell beyond what the cell holds.
pub proof fn lemma_dropped_is_overflow(ps: Seq<Particle>, b: Bounds, g: int)
    requires
        valid_grid_size(g),
        !b.is_empty_spec(),
    ensures
        dropped_count(ps, b, g) == overflow_sum(ps, b, g, cell_total(g)),
    decreases ps.len(),
{
    if ps.len() == 0 {
        lemma_overflow_sum_empty(ps, b, g, cell_total(g));
    } else {
        let init = ps.drop_last();
        lemma_dropped_is_overflow(init, b, g);
        lemma_overflow_sum_step(ps, b, g, cell_total(g));
        lemma_cell_of_in_range(ps.last().position, b, g);
        assert(ps.take(ps.len() - 1) =~= init);
        assert(ps[ps.len() - 1] == ps.last());
    }
}

proof fn lemma_overflow_sum_empty(ps: Seq<Particle>, b: Bounds, g: int, n: int)
    requires
        ps.len() == 0,
    ensures
        overflow_sum(ps, b, g, n) == 0,
    decreases n,
{
    if n > 0 {
        lemma_overflow_sum_empty(ps, b, g, n - 1);
    }
}

proof fn lemma_overflow_sum_ignores_order(ps1: Seq<Particle>, ps2: Seq<Particle>, b: Bounds, g: int, n: int)
    requires
        ps1.to_multiset() == ps2.to_multiset(),
    ensures
        overflow_sum(ps1, b, g, n) == overflow_sum(ps2, b, g, n),
    decreases n,
{
    if n > 0 {
        lemma_overflow_sum_ignores_order(ps1, ps2, b, g, n - 1);
        lemma_grid_ignores_order(ps1, ps2, b, g, n - 1);
    }
}

/// Arrival order does not change how many particles a pass leaves out.
pub proof fn lemma_dropped_ignores_order(ps1: Seq<Particle>, ps2: Seq<Particle>, b: Bounds, g: int)
    requires
        valid_grid_size(g),
        ps1.to_multiset() == ps2.to_multiset(),
    ensures
        dropped_count(ps1, b, g) == dropped_count(ps2, b, g),
{
    if b.is_empty_spec() {
        assert(ps1.len() == ps1.to_multiset().len());
        assert(dropped_count(ps1, b, g) == 0);
        assert(dropped_count(ps2, b, g) == 0);
    } else {
        lemma_dropped_is_overflow(ps1, b, g);
        lemma_dropped_is_overflow(ps2, b, g);
        lemma_overflow_sum_ignores_order(ps1, ps2, b, g, cell_total(g));
    }
}

} // verus!
